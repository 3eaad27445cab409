//! Ordering records by a key.
//!
//! A key is a sequence of numbers; keys are ordered as words are in a
//! dictionary. A text is ordered by the codes of its characters, a number
//! by a key of length one. Sorting is stable: records of which neither
//! comes before the other keep the order they had.

use crate::text::{chars_of, text_lt};
use vstd::prelude::*;

verus! {

/// The key `a` comes before the key `b`: at the first place where they
/// differ `a` has the lower number, or `a` ends there and `b` goes on.
pub open spec fn lex_lt(a: Seq<u64>, b: Seq<u64>) -> bool
    decreases a.len(),
{
    if b.len() == 0 {
        false
    } else if a.len() == 0 {
        true
    } else if a[0] < b[0] {
        true
    } else if a[0] > b[0] {
        false
    } else {
        lex_lt(a.drop_first(), b.drop_first())
    }
}

/// A record with key `a` is placed before one with key `b`: `a` is the
/// lower key, or the higher one where the order is descending.
pub open spec fn placed_before(a: Seq<u64>, b: Seq<u64>, descending: bool) -> bool {
    if descending {
        lex_lt(b, a)
    } else {
        lex_lt(a, b)
    }
}

/// The keys held in `v`.
pub open spec fn keys_view(v: Seq<Vec<u64>>) -> Seq<Seq<u64>> {
    v.map_values(|k: Vec<u64>| k@)
}

/// The indices held in `v`.
pub open spec fn indices_view(v: Seq<usize>) -> Seq<int> {
    v.map_values(|i: usize| i as int)
}

/// The first place at or after `from` in `order` whose record the record
/// `x` is placed before; the length of `order` where there is none.
pub open spec fn place_of(
    keys: Seq<Seq<u64>>,
    order: Seq<int>,
    x: int,
    descending: bool,
    from: int,
) -> int
    decreases order.len() - from,
{
    if from < 0 || from >= order.len() {
        order.len() as int
    } else if placed_before(keys[x], keys[order[from]], descending) {
        from
    } else {
        place_of(keys, order, x, descending, from + 1)
    }
}

/// The indices of the first `n` of `keys` in sorted order: each index is
/// put in before the first one that it is placed before, in turn.
pub open spec fn sorted_prefix(keys: Seq<Seq<u64>>, descending: bool, n: int) -> Seq<int>
    decreases n,
{
    if n <= 0 {
        seq![]
    } else {
        let before = sorted_prefix(keys, descending, n - 1);
        before.insert(place_of(keys, before, n - 1, descending, 0), n - 1)
    }
}

/// The indices of `keys` in sorted order.
pub open spec fn sorted_order(keys: Seq<Seq<u64>>, descending: bool) -> Seq<int> {
    sorted_prefix(keys, descending, keys.len() as int)
}

/// The place lies between `from` and the end.
pub proof fn lemma_place_of_bounds(
    keys: Seq<Seq<u64>>,
    order: Seq<int>,
    x: int,
    descending: bool,
    from: int,
)
    requires
        0 <= from <= order.len(),
    ensures
        from <= place_of(keys, order, x, descending, from) <= order.len(),
    decreases order.len() - from,
{
    if from < order.len() && !placed_before(keys[x], keys[order[from]], descending) {
        lemma_place_of_bounds(keys, order, x, descending, from + 1);
    }
}

/// The sorted order of the first `n` keys holds each index below `n`, and
/// nothing else.
pub proof fn lemma_sorted_prefix_indices(keys: Seq<Seq<u64>>, descending: bool, n: int)
    requires
        0 <= n,
    ensures
        sorted_prefix(keys, descending, n).len() == n,
        forall|i: int|
            0 <= i < n ==> 0 <= #[trigger] sorted_prefix(keys, descending, n)[i] < n,
        forall|x: int| 0 <= x < n ==> sorted_prefix(keys, descending, n).contains(x),
    decreases n,
{
    if n > 0 {
        let before = sorted_prefix(keys, descending, n - 1);
        lemma_sorted_prefix_indices(keys, descending, n - 1);
        let at = place_of(keys, before, n - 1, descending, 0);
        lemma_place_of_bounds(keys, before, n - 1, descending, 0);
        let now = before.insert(at, n - 1);
        assert forall|x: int| 0 <= x < n implies now.contains(x) by {
            if x == n - 1 {
                assert(now[at] == x);
            } else {
                assert(before.contains(x));
                let i = choose|i: int| 0 <= i < before.len() && before[i] == x;
                if i < at {
                    assert(now[i] == x);
                } else {
                    assert(now[i + 1] == x);
                }
            }
        }
    }
}

/// Whether the key `a` comes before the key `b`.
pub fn lex_less(a: &Vec<u64>, b: &Vec<u64>) -> (r: bool)
    ensures
        r == lex_lt(a@, b@),
{
    let mut i: usize = 0;
    proof {
        assert(a@.skip(0) =~= a@);
        assert(b@.skip(0) =~= b@);
    }
    while i < a.len() && i < b.len()
        invariant
            i <= a.len(),
            i <= b.len(),
            lex_lt(a@, b@) == lex_lt(a@.skip(i as int), b@.skip(i as int)),
        decreases a.len() - i,
    {
        proof {
            assert(a@.skip(i as int)[0] == a@[i as int]);
            assert(b@.skip(i as int)[0] == b@[i as int]);
            assert(a@.skip(i as int).drop_first() =~= a@.skip(i + 1));
            assert(b@.skip(i as int).drop_first() =~= b@.skip(i + 1));
        }
        if a[i] < b[i] {
            return true;
        }
        if a[i] > b[i] {
            return false;
        }
        i += 1;
    }
    i < b.len()
}

/// Whether a record with key `a` is placed before one with key `b`.
pub fn goes_before(a: &Vec<u64>, b: &Vec<u64>, descending: bool) -> (r: bool)
    ensures
        r == placed_before(a@, b@, descending),
{
    if descending {
        lex_less(b, a)
    } else {
        lex_less(a, b)
    }
}

/// The indices of `keys` in sorted order, ascending or descending.
pub fn stable_order(keys: &Vec<Vec<u64>>, descending: bool) -> (order: Vec<usize>)
    ensures
        indices_view(order@) == sorted_order(keys_view(keys@), descending),
        order.len() == keys.len(),
        forall|i: int| 0 <= i < order.len() ==> #[trigger] order@[i] < keys.len(),
{
    let ghost ks = keys_view(keys@);
    let mut order: Vec<usize> = Vec::new();
    let mut n: usize = 0;
    proof {
        assert(indices_view(order@) =~= Seq::<int>::empty());
    }
    while n < keys.len()
        invariant
            n <= keys.len(),
            ks == keys_view(keys@),
            order.len() == n,
            indices_view(order@) == sorted_prefix(ks, descending, n as int),
            forall|i: int| 0 <= i < order.len() ==> #[trigger] order@[i] < n,
        decreases keys.len() - n,
    {
        let ghost before = indices_view(order@);
        let mut at: usize = 0;
        while at < order.len() && !goes_before(&keys[n], &keys[order[at]], descending)
            invariant
                at <= order.len() == n < keys.len(),
                ks == keys_view(keys@),
                before == indices_view(order@),
                forall|i: int| 0 <= i < order.len() ==> #[trigger] order@[i] < n,
                place_of(ks, before, n as int, descending, 0) == place_of(
                    ks,
                    before,
                    n as int,
                    descending,
                    at as int,
                ),
            decreases order.len() - at,
        {
            at += 1;
        }
        let ghost old_order = order@;
        order.insert(at, n);
        proof {
            assert(indices_view(order@) =~= before.insert(at as int, n as int));
            assert forall|i: int| 0 <= i < order.len() implies #[trigger] order@[i] < n + 1 by {
                if i < at {
                    assert(order@[i] == old_order[i]);
                } else if i > at {
                    assert(order@[i] == old_order[i - 1]);
                }
            }
        }
        n += 1;
    }
    order
}

/// The key of the text `s`: the codes of its characters.
pub open spec fn codes(s: Seq<char>) -> Seq<u64> {
    s.map_values(|c: char| (c as u32) as u64)
}

/// The code of `c`, with the capital letters `A` to `Z` taken as their
/// small letters.
pub open spec fn folded_code(c: char) -> u64 {
    if 0x41 <= c as u32 <= 0x5A {
        (c as u32 + 0x20) as u64
    } else {
        (c as u32) as u64
    }
}

/// The key of the text `s` where the case of the letters `A` to `Z` does
/// not count.
pub open spec fn nocase_codes(s: Seq<char>) -> Seq<u64> {
    s.map_values(|c: char| folded_code(c))
}

/// The key of the number `n`, which keeps the order of signed numbers.
pub open spec fn signed_key(n: i64) -> Seq<u64> {
    seq![(n + 0x8000_0000_0000_0000) as u64]
}

/// The key of the text `s`.
pub fn text_key(s: &str) -> (key: Vec<u64>)
    ensures
        key@ == codes(s@),
{
    let chars = chars_of(s);
    let mut key: Vec<u64> = Vec::new();
    let mut i: usize = 0;
    while i < chars.len()
        invariant
            i <= chars.len(),
            chars@ == s@,
            key@ == codes(s@).take(i as int),
        decreases chars.len() - i,
    {
        key.push((chars[i] as u32) as u64);
        proof {
            assert(key@ =~= codes(s@).take(i + 1));
        }
        i += 1;
    }
    proof {
        assert(codes(s@).take(chars@.len() as int) =~= codes(s@));
    }
    key
}

/// The key of the text `s` where the case of `A` to `Z` does not count.
pub fn nocase_key(s: &str) -> (key: Vec<u64>)
    ensures
        key@ == nocase_codes(s@),
{
    let chars = chars_of(s);
    let mut key: Vec<u64> = Vec::new();
    let mut i: usize = 0;
    while i < chars.len()
        invariant
            i <= chars.len(),
            chars@ == s@,
            key@ == nocase_codes(s@).take(i as int),
        decreases chars.len() - i,
    {
        let n: u32 = chars[i] as u32;
        let code: u64 = if 0x41 <= n && n <= 0x5A {
            (n + 0x20) as u64
        } else {
            n as u64
        };
        key.push(code);
        proof {
            assert(key@ =~= nocase_codes(s@).take(i + 1));
        }
        i += 1;
    }
    proof {
        assert(nocase_codes(s@).take(chars@.len() as int) =~= nocase_codes(s@));
    }
    key
}

/// The key of the number `n`.
pub fn number_key(n: i64) -> (key: Vec<u64>)
    ensures
        key@ == signed_key(n),
{
    let code: u64 = if n >= 0 {
        n as u64 + 0x8000_0000_0000_0000
    } else {
        ((n + i64::MAX) + 1) as u64
    };
    let mut key: Vec<u64> = Vec::new();
    key.push(code);
    proof {
        assert(key@ =~= signed_key(n));
    }
    key
}


/// No key comes before itself.
pub proof fn lemma_lex_lt_irreflexive(a: Seq<u64>)
    ensures
        !lex_lt(a, a),
    decreases a.len(),
{
    if a.len() > 0 {
        lemma_lex_lt_irreflexive(a.drop_first());
    }
}

/// Of two keys that differ, one comes before the other.
pub proof fn lemma_lex_lt_total(a: Seq<u64>, b: Seq<u64>)
    requires
        !lex_lt(a, b),
        !lex_lt(b, a),
    ensures
        a == b,
    decreases a.len(),
{
    if a.len() == 0 || b.len() == 0 {
        assert(a =~= b);
    } else {
        lemma_lex_lt_total(a.drop_first(), b.drop_first());
        assert(a =~= seq![a[0]] + a.drop_first());
        assert(b =~= seq![b[0]] + b.drop_first());
    }
}

/// What comes before a key comes before all that the key comes before.
pub proof fn lemma_lex_lt_transitive(a: Seq<u64>, b: Seq<u64>, c: Seq<u64>)
    requires
        lex_lt(a, b),
        lex_lt(b, c),
    ensures
        lex_lt(a, c),
    decreases a.len(),
{
    if a.len() > 0 && b.len() > 0 && c.len() > 0 {
        if a[0] == b[0] && b[0] == c[0] {
            lemma_lex_lt_transitive(a.drop_first(), b.drop_first(), c.drop_first());
        }
    }
}

/// Placing is a strict order: nothing is placed before itself, and what
/// is placed before a second key is placed before all that the second is
/// placed before, and before all that are not placed before the second.
pub proof fn lemma_placed_before_order(a: Seq<u64>, b: Seq<u64>, c: Seq<u64>, descending: bool)
    ensures
        !placed_before(a, a, descending),
        placed_before(a, b, descending) ==> !placed_before(b, a, descending),
        placed_before(a, b, descending) && placed_before(b, c, descending) ==> placed_before(
            a,
            c,
            descending,
        ),
        placed_before(a, b, descending) && !placed_before(c, b, descending) ==> placed_before(
            a,
            c,
            descending,
        ),
{
    lemma_lex_lt_irreflexive(a);
    if descending {
        if lex_lt(b, a) {
            if lex_lt(a, b) {
                lemma_lex_lt_transitive(a, b, a);
            }
            if lex_lt(c, b) {
                lemma_lex_lt_transitive(c, b, a);
            }
            if !lex_lt(b, c) {
                if !lex_lt(c, b) {
                    lemma_lex_lt_total(b, c);
                }
            }
        }
    } else {
        if lex_lt(a, b) {
            if lex_lt(b, a) {
                lemma_lex_lt_transitive(a, b, a);
            }
            if lex_lt(b, c) {
                lemma_lex_lt_transitive(a, b, c);
            }
            if !lex_lt(c, b) {
                if !lex_lt(b, c) {
                    lemma_lex_lt_total(b, c);
                }
            }
        }
    }
}

/// The records stand in order: none is placed before one that stands
/// earlier.
pub open spec fn in_order(keys: Seq<Seq<u64>>, order: Seq<int>, descending: bool) -> bool {
    forall|i: int, j: int|
        0 <= i < j < order.len() ==> !placed_before(
            keys[#[trigger] order[j]],
            keys[#[trigger] order[i]],
            descending,
        )
}

/// Records of which neither is placed before the other stand as they
/// stood: the one with the lower index first.
pub open spec fn keeps_ties(keys: Seq<Seq<u64>>, order: Seq<int>, descending: bool) -> bool {
    forall|i: int, j: int|
        0 <= i < j < order.len() && !placed_before(
            keys[#[trigger] order[i]],
            keys[#[trigger] order[j]],
            descending,
        ) ==> order[i] < order[j]
}

/// The place is the first one whose record `x` is placed before.
pub proof fn lemma_place_of_is_first(
    keys: Seq<Seq<u64>>,
    order: Seq<int>,
    x: int,
    descending: bool,
    from: int,
)
    requires
        0 <= from <= order.len(),
    ensures
        forall|i: int|
            from <= i < place_of(keys, order, x, descending, from) ==> !placed_before(
                keys[x],
                keys[#[trigger] order[i]],
                descending,
            ),
        place_of(keys, order, x, descending, from) < order.len() ==> placed_before(
            keys[x],
            keys[order[place_of(keys, order, x, descending, from)]],
            descending,
        ),
    decreases order.len() - from,
{
    if from < order.len() && !placed_before(keys[x], keys[order[from]], descending) {
        lemma_place_of_is_first(keys, order, x, descending, from + 1);
    }
}

/// Sorting sorts: the sorted order of the first `n` keys stands in order
/// and keeps ties as they stood.
pub proof fn lemma_sorted_prefix_in_order(keys: Seq<Seq<u64>>, descending: bool, n: int)
    requires
        0 <= n <= keys.len(),
    ensures
        in_order(keys, sorted_prefix(keys, descending, n), descending),
        keeps_ties(keys, sorted_prefix(keys, descending, n), descending),
    decreases n,
{
    if n > 0 {
        let before = sorted_prefix(keys, descending, n - 1);
        let x = n - 1;
        let at = place_of(keys, before, x, descending, 0);
        let now = before.insert(at, x);
        lemma_sorted_prefix_in_order(keys, descending, n - 1);
        lemma_sorted_prefix_indices(keys, descending, n - 1);
        lemma_place_of_bounds(keys, before, x, descending, 0);
        lemma_place_of_is_first(keys, before, x, descending, 0);
        assert forall|i: int, j: int| 0 <= i < j < now.len() implies !placed_before(
            keys[#[trigger] now[j]],
            keys[#[trigger] now[i]],
            descending,
        ) && (!placed_before(keys[now[i]], keys[now[j]], descending) ==> now[i] < now[j]) by {
            let a = now[i];
            let b = now[j];
            if j < at {
                assert(a == before[i] && b == before[j]);
            } else if j == at {
                assert(a == before[i] && b == x);
                assert(0 <= before[i] < n - 1);
            } else if i == at {
                assert(a == x && b == before[j - 1]);
                lemma_placed_before_order(keys[x], keys[before[at]], keys[b], descending);
                if j - 1 > at {
                    assert(!placed_before(keys[before[j - 1]], keys[before[at]], descending));
                }
                lemma_placed_before_order(keys[x], keys[b], keys[x], descending);
            } else if i < at {
                assert(a == before[i] && b == before[j - 1]);
            } else {
                assert(a == before[i - 1] && b == before[j - 1]);
            }
        }
    }
}


/// Texts are ordered as their keys are.
pub proof fn lemma_text_lt_is_lex_lt(a: Seq<char>, b: Seq<char>)
    ensures
        text_lt(a, b) == lex_lt(codes(a), codes(b)),
    decreases a.len(),
{
    if a.len() > 0 && b.len() > 0 {
        lemma_text_lt_is_lex_lt(a.drop_first(), b.drop_first());
        assert(codes(a).drop_first() =~= codes(a.drop_first()));
        assert(codes(b).drop_first() =~= codes(b.drop_first()));
    }
}

/// Characters with one code are one character.
pub proof fn lemma_code_injective(c: char, d: char)
    requires
        (c as u32) as u64 == (d as u32) as u64,
    ensures
        c == d,
{
}

/// Texts with one key are one text.
pub proof fn lemma_codes_injective(a: Seq<char>, b: Seq<char>)
    requires
        codes(a) == codes(b),
    ensures
        a == b,
{
    assert(a.len() == codes(a).len() && b.len() == codes(b).len());
    assert forall|i: int| 0 <= i < a.len() implies a[i] == b[i] by {
        assert(codes(a)[i] == (a[i] as u32) as u64);
        assert(codes(b)[i] == (b[i] as u32) as u64);
        lemma_code_injective(a[i], b[i]);
    }
    assert(a =~= b);
}

/// The order of texts is a strict total order.
pub proof fn lemma_text_order(a: Seq<char>, b: Seq<char>, c: Seq<char>)
    ensures
        !text_lt(a, a),
        text_lt(a, b) && text_lt(b, c) ==> text_lt(a, c),
        !text_lt(a, b) && !text_lt(b, a) ==> a == b,
{
    lemma_text_lt_is_lex_lt(a, a);
    lemma_text_lt_is_lex_lt(a, b);
    lemma_text_lt_is_lex_lt(b, a);
    lemma_text_lt_is_lex_lt(b, c);
    lemma_text_lt_is_lex_lt(a, c);
    lemma_lex_lt_irreflexive(codes(a));
    if text_lt(a, b) && text_lt(b, c) {
        lemma_lex_lt_transitive(codes(a), codes(b), codes(c));
    }
    if !text_lt(a, b) && !text_lt(b, a) {
        lemma_lex_lt_total(codes(a), codes(b));
        lemma_codes_injective(a, b);
    }
}


} // verus!
