//! Natural order of file names.
//!
//! A name is cut into runs of digits and runs of other characters. Two
//! names are ordered run by run: a number comes before a text, numbers go
//! by the whole number that they spell, however long, and texts, in lower
//! case, by the order of strings. So `2.jpg` comes before `10.jpg`. Names
//! whose runs are all alike go by the order of strings, so that a listing
//! does not depend on the order in which a directory was read.

use crate::models::strings_view;
use crate::numbers::{decimal_value, is_ascii_digit, is_digit, number_less};
use crate::paths::{file_name, file_name_of};
use crate::order::lemma_text_order;
use crate::text::{chars_of, lowercase, lowercase_of, string_of, subvec, text_less, text_lt};
use vstd::prelude::*;

verus! {

/// One run of a file name: a text, or the digits of a number.
#[derive(Debug, Clone)]
pub enum NaturalSegment {
    Text(String),
    Number(String),
}

/// A run of a file name: a text as plain characters, or the number that
/// the digits spell.
pub enum Segment {
    Text(Seq<char>),
    Number(nat),
}

impl View for NaturalSegment {
    type V = Segment;

    open spec fn view(&self) -> Segment {
        match *self {
            NaturalSegment::Text(s) => Segment::Text(s@),
            NaturalSegment::Number(s) => Segment::Number(decimal_value(s@)),
        }
    }
}

/// The runs held in `v`, as views.
pub open spec fn key_view(v: Seq<NaturalSegment>) -> Seq<Segment> {
    v.map_values(|s: NaturalSegment| s@)
}

/// `a` comes before `b`: a number before a text, numbers by value, texts by
/// the order of strings.
pub open spec fn segment_lt(a: Segment, b: Segment) -> bool {
    match (a, b) {
        (Segment::Number(x), Segment::Number(y)) => x < y,
        (Segment::Text(x), Segment::Text(y)) => text_lt(x, y),
        (Segment::Number(_), Segment::Text(_)) => true,
        (Segment::Text(_), Segment::Number(_)) => false,
    }
}

/// The key `a` comes before the key `b`: at the first run where they
/// differ `a` has the run that comes first, or `a` ends there and `b` goes
/// on.
pub open spec fn key_lt(a: Seq<Segment>, b: Seq<Segment>) -> bool
    decreases a.len(),
{
    if b.len() == 0 {
        false
    } else if a.len() == 0 {
        true
    } else if segment_lt(a[0], b[0]) {
        true
    } else if segment_lt(b[0], a[0]) {
        false
    } else {
        key_lt(a.drop_first(), b.drop_first())
    }
}

/// The length of the run at the start of `s` of characters that are digits
/// (for `digits`) or are not.
pub open spec fn run_len(s: Seq<char>, digits: bool) -> nat
    decreases s.len(),
{
    if s.len() == 0 || is_digit(s[0]) != digits {
        0
    } else {
        1 + run_len(s.drop_first(), digits)
    }
}

/// The runs of `name`, in order: each run of digits as its number, each
/// other run as its text in lower case.
pub open spec fn segments_of(name: Seq<char>) -> Seq<Segment>
    decreases name.len(),
{
    if name.len() == 0 {
        seq![]
    } else {
        let digits = is_digit(name[0]);
        let k = run_len(name, digits) as int;
        let run = name.take(k);
        let first = if digits {
            Segment::Number(decimal_value(run))
        } else {
            Segment::Text(lowercase_of(run))
        };
        if 0 < k <= name.len() {
            seq![first] + segments_of(name.skip(k))
        } else {
            seq![first]
        }
    }
}

/// The key by which the path `path` is ordered: the runs of its file name.
pub open spec fn sort_key(path: Seq<char>) -> Seq<Segment> {
    segments_of(file_name_of(path))
}

/// The path `a` comes before the path `b` in natural order: its key comes
/// first, or the keys are alike and `a` comes first in the order of
/// strings.
pub open spec fn path_lt(a: Seq<char>, b: Seq<char>) -> bool {
    key_lt(sort_key(a), sort_key(b)) || (!key_lt(sort_key(b), sort_key(a)) && text_lt(a, b))
}

/// A run ends where the kind of character changes, or the name ends.
pub proof fn lemma_run_len(s: Seq<char>, digits: bool, k: int)
    requires
        0 <= k <= s.len(),
        forall|j: int| 0 <= j < k ==> is_digit(#[trigger] s[j]) == digits,
        k == s.len() || is_digit(s[k]) != digits,
    ensures
        run_len(s, digits) == k,
    decreases k,
{
    if k > 0 {
        let t = s.drop_first();
        assert forall|j: int| 0 <= j < k - 1 implies is_digit(#[trigger] t[j]) == digits by {
            assert(t[j] == s[j + 1]);
        }
        if k < s.len() {
            assert(t[k - 1] == s[k]);
        }
        lemma_run_len(t, digits, k - 1);
    }
}

/// Whether the run `a` comes before the run `b`.
pub fn segment_less(a: &NaturalSegment, b: &NaturalSegment) -> (r: bool)
    ensures
        r == segment_lt(a@, b@),
{
    match (a, b) {
        (NaturalSegment::Number(x), NaturalSegment::Number(y)) => {
            let xs = chars_of(x.as_str());
            let ys = chars_of(y.as_str());
            number_less(&xs, &ys)
        },
        (NaturalSegment::Text(x), NaturalSegment::Text(y)) => {
            let xs = chars_of(x.as_str());
            let ys = chars_of(y.as_str());
            text_less(&xs, &ys)
        },
        (NaturalSegment::Number(_), NaturalSegment::Text(_)) => true,
        (NaturalSegment::Text(_), NaturalSegment::Number(_)) => false,
    }
}

/// Whether the key `a` comes before the key `b`.
pub fn key_less(a: &Vec<NaturalSegment>, b: &Vec<NaturalSegment>) -> (r: bool)
    ensures
        r == key_lt(key_view(a@), key_view(b@)),
{
    let ghost ka = key_view(a@);
    let ghost kb = key_view(b@);
    let mut i: usize = 0;
    proof {
        assert(ka.skip(0) =~= ka);
        assert(kb.skip(0) =~= kb);
    }
    while i < a.len() && i < b.len()
        invariant
            i <= a.len(),
            i <= b.len(),
            ka == key_view(a@),
            kb == key_view(b@),
            key_lt(ka, kb) == key_lt(ka.skip(i as int), kb.skip(i as int)),
        decreases a.len() - i,
    {
        proof {
            assert(ka.skip(i as int)[0] == a@[i as int]@);
            assert(kb.skip(i as int)[0] == b@[i as int]@);
            assert(ka.skip(i as int).drop_first() =~= ka.skip(i + 1));
            assert(kb.skip(i as int).drop_first() =~= kb.skip(i + 1));
        }
        if segment_less(&a[i], &b[i]) {
            return true;
        }
        if segment_less(&b[i], &a[i]) {
            return false;
        }
        i += 1;
    }
    i < b.len()
}

/// The runs of the name `name`.
pub fn segments(name: &Vec<char>) -> (key: Vec<NaturalSegment>)
    ensures
        key_view(key@) == segments_of(name@),
{
    let n = name.len();
    let mut key: Vec<NaturalSegment> = Vec::new();
    let mut i: usize = 0;
    proof {
        assert(name@.skip(0) =~= name@);
        assert(key_view(key@) =~= Seq::<Segment>::empty());
    }
    while i < n
        invariant
            i <= n == name.len(),
            segments_of(name@) == key_view(key@) + segments_of(name@.skip(i as int)),
        decreases n - i,
    {
        let digits = is_ascii_digit(name[i]);
        let mut j: usize = i + 1;
        while j < n && is_ascii_digit(name[j]) == digits
            invariant
                i < j <= n == name.len(),
                forall|k: int| i <= k < j ==> is_digit(#[trigger] name@[k]) == digits,
            decreases n - j,
        {
            j += 1;
        }
        let run = subvec(name, i, j);
        let ghost rest = name@.skip(i as int);
        let ghost before = key_view(key@);
        proof {
            assert forall|k: int| 0 <= k < j - i implies is_digit(#[trigger] rest[k]) == digits by {
                assert(rest[k] == name@[k + i]);
            }
            if j < n {
                assert(rest[j - i] == name@[j as int]);
            }
            lemma_run_len(rest, digits, j - i);
            assert(rest.take(j - i) =~= run@);
            assert(rest.skip(j - i) =~= name@.skip(j as int));
            assert(rest[0] == name@[i as int]);
        }
        let segment = if digits {
            NaturalSegment::Number(string_of(&run))
        } else {
            NaturalSegment::Text(lowercase(string_of(&run).as_str()))
        };
        key.push(segment);
        proof {
            assert(key_view(key@) =~= before.push(segment@));
            assert(before + (seq![segment@] + segments_of(name@.skip(j as int))) =~= before.push(
                segment@,
            ) + segments_of(name@.skip(j as int)));
        }
        i = j;
    }
    proof {
        assert(key_view(key@) + segments_of(name@.skip(n as int)) =~= key_view(key@));
    }
    key
}

/// The key by which `path` is ordered among its siblings.
pub fn natural_sort_key(path: &str) -> (key: Vec<NaturalSegment>)
    ensures
        key_view(key@) == sort_key(path@),
{
    let name = file_name(path);
    let chars = chars_of(name.as_str());
    segments(&chars)
}

/// The first index at or after `from` of a path of `sorted` that `x` comes
/// before; the length of `sorted` where there is none.
pub open spec fn insertion_point(sorted: Seq<Seq<char>>, x: Seq<char>, from: int) -> int
    decreases sorted.len() - from,
{
    if from < 0 || from >= sorted.len() {
        sorted.len() as int
    } else if path_lt(x, sorted[from]) {
        from
    } else {
        insertion_point(sorted, x, from + 1)
    }
}

/// `sorted` with `x` put in before the first path that it comes before.
pub open spec fn natural_insert(sorted: Seq<Seq<char>>, x: Seq<char>) -> Seq<Seq<char>> {
    sorted.insert(insertion_point(sorted, x, 0), x)
}

/// `paths` in natural order.
pub open spec fn natural_sorted(paths: Seq<Seq<char>>) -> Seq<Seq<char>>
    decreases paths.len(),
{
    if paths.len() == 0 {
        seq![]
    } else {
        natural_insert(natural_sorted(paths.drop_last()), paths.last())
    }
}

/// The insertion point lies between `from` and the end.
pub proof fn lemma_insertion_point_bounds(sorted: Seq<Seq<char>>, x: Seq<char>, from: int)
    requires
        0 <= from <= sorted.len(),
    ensures
        from <= insertion_point(sorted, x, from) <= sorted.len(),
    decreases sorted.len() - from,
{
    if from < sorted.len() && !path_lt(x, sorted[from]) {
        lemma_insertion_point_bounds(sorted, x, from + 1);
    }
}

/// Whether the path `a`, whose key is `key_a`, comes before the path `b`,
/// whose key is `key_b`.
pub fn path_less(key_a: &Vec<NaturalSegment>, a: &str, key_b: &Vec<NaturalSegment>, b: &str) -> (r:
    bool)
    requires
        key_view(key_a@) == sort_key(a@),
        key_view(key_b@) == sort_key(b@),
    ensures
        r == path_lt(a@, b@),
{
    if key_less(key_a, key_b) {
        return true;
    }
    if key_less(key_b, key_a) {
        return false;
    }
    text_less(&chars_of(a), &chars_of(b))
}

/// `paths` in natural order.
pub fn sort_naturally(paths: &Vec<String>) -> (out: Vec<String>)
    ensures
        strings_view(out@) == natural_sorted(strings_view(paths@)),
{
    let ghost all = strings_view(paths@);
    let mut out: Vec<String> = Vec::new();
    let mut keys: Vec<Vec<NaturalSegment>> = Vec::new();
    let mut i: usize = 0;
    proof {
        assert(all.take(0) =~= Seq::<Seq<char>>::empty());
        assert(strings_view(out@) =~= Seq::<Seq<char>>::empty());
    }
    while i < paths.len()
        invariant
            i <= paths.len(),
            all == strings_view(paths@),
            keys.len() == out.len(),
            strings_view(out@) == natural_sorted(all.take(i as int)),
            forall|j: int| 0 <= j < out.len() ==> key_view((#[trigger] keys@[j])@) == sort_key(out@[j]@),
        decreases paths.len() - i,
    {
        let name = paths[i].clone();
        let key = natural_sort_key(name.as_str());
        let ghost sorted = strings_view(out@);
        let mut at: usize = 0;
        while at < out.len() && !path_less(&key, name.as_str(), &keys[at], out[at].as_str())
            invariant
                at <= out.len() == keys.len(),
                sorted == strings_view(out@),
                key_view(key@) == sort_key(name@),
                insertion_point(sorted, name@, 0) == insertion_point(sorted, name@, at as int),
                forall|j: int| 0 <= j < out.len() ==> key_view((#[trigger] keys@[j])@) == sort_key(out@[j]@),
            decreases out.len() - at,
        {
            at += 1;
        }
        proof {
            assert(all.take(i + 1).drop_last() =~= all.take(i as int));
            assert(all.take(i + 1).last() == name@);
            assert(insertion_point(sorted, name@, 0) == at);
        }
        let ghost old_out = out@;
        let ghost old_keys = keys@;
        out.insert(at, name);
        keys.insert(at, key);
        proof {
            assert(strings_view(out@) =~= sorted.insert(at as int, name@));
            assert forall|j: int| 0 <= j < out.len() implies key_view((#[trigger] keys@[j])@)
                == sort_key(out@[j]@) by {
                if j < at {
                    assert(keys@[j] == old_keys[j] && out@[j] == old_out[j]);
                } else if j > at {
                    assert(keys@[j] == old_keys[j - 1] && out@[j] == old_out[j - 1]);
                }
            }
        }
        i += 1;
    }
    proof {
        assert(all.take(paths@.len() as int) =~= all);
    }
    out
}


/// The order of runs is a strict total order.
pub proof fn lemma_segment_order(a: Segment, b: Segment, c: Segment)
    ensures
        !segment_lt(a, a),
        segment_lt(a, b) && segment_lt(b, c) ==> segment_lt(a, c),
        !segment_lt(a, b) && !segment_lt(b, a) ==> a == b,
{
    match (a, b, c) {
        (Segment::Text(x), Segment::Text(y), Segment::Text(z)) => {
            lemma_text_order(x, y, z);
        },
        (Segment::Text(x), Segment::Text(y), _) => {
            lemma_text_order(x, y, x);
        },
        (Segment::Text(x), _, _) => {
            lemma_text_order(x, x, x);
        },
        _ => {},
    }
}

/// No key comes before itself.
pub proof fn lemma_key_lt_irreflexive(a: Seq<Segment>)
    ensures
        !key_lt(a, a),
    decreases a.len(),
{
    if a.len() > 0 {
        lemma_segment_order(a[0], a[0], a[0]);
        lemma_key_lt_irreflexive(a.drop_first());
    }
}

/// Of two keys that differ, one comes before the other.
pub proof fn lemma_key_lt_total(a: Seq<Segment>, b: Seq<Segment>)
    requires
        !key_lt(a, b),
        !key_lt(b, a),
    ensures
        a == b,
    decreases a.len(),
{
    if a.len() == 0 || b.len() == 0 {
        assert(a =~= b);
    } else {
        lemma_segment_order(a[0], b[0], a[0]);
        lemma_key_lt_total(a.drop_first(), b.drop_first());
        assert(a =~= seq![a[0]] + a.drop_first());
        assert(b =~= seq![b[0]] + b.drop_first());
    }
}

/// What comes before a key comes before all that the key comes before.
pub proof fn lemma_key_lt_transitive(a: Seq<Segment>, b: Seq<Segment>, c: Seq<Segment>)
    requires
        key_lt(a, b),
        key_lt(b, c),
    ensures
        key_lt(a, c),
    decreases a.len(),
{
    if a.len() > 0 && b.len() > 0 && c.len() > 0 {
        lemma_segment_order(a[0], b[0], c[0]);
        lemma_segment_order(b[0], a[0], c[0]);
        lemma_segment_order(c[0], a[0], b[0]);
        lemma_segment_order(c[0], b[0], a[0]);
        lemma_segment_order(b[0], c[0], a[0]);
        lemma_segment_order(a[0], c[0], b[0]);
        if !segment_lt(a[0], b[0]) && !segment_lt(b[0], c[0]) {
            lemma_key_lt_transitive(a.drop_first(), b.drop_first(), c.drop_first());
        }
    }
}

/// Natural order is a strict total order on paths: no path comes before
/// itself, of two paths that differ one comes before the other, and a path
/// that comes before a second one comes before all that the second comes
/// before.
pub proof fn lemma_path_order(a: Seq<char>, b: Seq<char>, c: Seq<char>)
    ensures
        !path_lt(a, a),
        path_lt(a, b) ==> !path_lt(b, a),
        !path_lt(a, b) && !path_lt(b, a) ==> a == b,
        path_lt(a, b) && path_lt(b, c) ==> path_lt(a, c),
        path_lt(a, b) && !path_lt(c, b) ==> path_lt(a, c),
{
    let (x, y, z) = (sort_key(a), sort_key(b), sort_key(c));
    lemma_key_lt_irreflexive(x);
    lemma_key_lt_irreflexive(y);
    lemma_key_lt_irreflexive(z);
    lemma_text_order(a, b, c);
    lemma_text_order(b, a, c);
    lemma_text_order(c, b, a);
    lemma_text_order(b, c, a);
    lemma_text_order(a, b, a);
    lemma_text_order(b, c, b);
    lemma_text_order(a, c, a);
    if key_lt(x, y) && key_lt(y, x) {
        lemma_key_lt_transitive(x, y, x);
    }
    if key_lt(y, z) && key_lt(z, y) {
        lemma_key_lt_transitive(y, z, y);
    }
    if key_lt(x, y) && key_lt(y, z) {
        lemma_key_lt_transitive(x, y, z);
    }
    if key_lt(z, y) && key_lt(y, x) {
        lemma_key_lt_transitive(z, y, x);
    }
    if !key_lt(x, y) && !key_lt(y, x) {
        lemma_key_lt_total(x, y);
    }
    if !key_lt(y, z) && !key_lt(z, y) {
        lemma_key_lt_total(y, z);
    }
    if !key_lt(x, z) && !key_lt(z, x) {
        lemma_key_lt_total(x, z);
    }
}

/// The insertion point is the first place whose path `x` comes before.
pub proof fn lemma_insertion_point_is_first(sorted: Seq<Seq<char>>, x: Seq<char>, from: int)
    requires
        0 <= from <= sorted.len(),
    ensures
        forall|i: int|
            from <= i < insertion_point(sorted, x, from) ==> !path_lt(x, #[trigger] sorted[i]),
        insertion_point(sorted, x, from) < sorted.len() ==> path_lt(
            x,
            sorted[insertion_point(sorted, x, from)],
        ),
    decreases sorted.len() - from,
{
    if from < sorted.len() && !path_lt(x, sorted[from]) {
        lemma_insertion_point_is_first(sorted, x, from + 1);
    }
}

/// The paths stand in natural order: none comes before one that stands
/// earlier.
pub open spec fn in_natural_order(paths: Seq<Seq<char>>) -> bool {
    forall|i: int, j: int|
        0 <= i < j < paths.len() ==> !path_lt(#[trigger] paths[j], #[trigger] paths[i])
}

/// Sorting sorts: the result stands in natural order and holds each path
/// as often as it was given.
pub proof fn lemma_natural_sorted(paths: Seq<Seq<char>>)
    ensures
        in_natural_order(natural_sorted(paths)),
        natural_sorted(paths).to_multiset() == paths.to_multiset(),
        natural_sorted(paths).len() == paths.len(),
    decreases paths.len(),
{
    if paths.len() == 0 {
        assert(paths =~= Seq::<Seq<char>>::empty());
    } else {
        let rest = paths.drop_last();
        let x = paths.last();
        let before = natural_sorted(rest);
        let at = insertion_point(before, x, 0);
        let now = before.insert(at, x);
        lemma_natural_sorted(rest);
        lemma_insertion_point_bounds(before, x, 0);
        lemma_insertion_point_is_first(before, x, 0);
        assert forall|i: int, j: int| 0 <= i < j < now.len() implies !path_lt(
            #[trigger] now[j],
            #[trigger] now[i],
        ) by {
            if j < at {
                assert(now[i] == before[i] && now[j] == before[j]);
            } else if j == at {
                assert(now[i] == before[i] && now[j] == x);
            } else if i == at {
                assert(now[i] == x && now[j] == before[j - 1]);
                lemma_path_order(x, before[at], before[j - 1]);
                lemma_path_order(x, before[j - 1], x);
            } else if i < at {
                assert(now[i] == before[i] && now[j] == before[j - 1]);
            } else {
                assert(now[i] == before[i - 1] && now[j] == before[j - 1]);
            }
        }
        assert(paths =~= rest.push(x));
        vstd::seq_lib::to_multiset_insert(before, at, x);
        vstd::seq_lib::to_multiset_build(rest, x);
    }
}


/// A listing does not depend on the order in which the paths were given:
/// the same paths, given in any order, come out in one order.
pub proof fn lemma_natural_sorted_whatever_the_order(a: Seq<Seq<char>>, b: Seq<Seq<char>>)
    requires
        a.to_multiset() == b.to_multiset(),
    ensures
        natural_sorted(a) == natural_sorted(b),
{
    let leq = |x: Seq<char>, y: Seq<char>| !path_lt(y, x);
    let sa = natural_sorted(a);
    let sb = natural_sorted(b);
    lemma_natural_sorted(a);
    lemma_natural_sorted(b);
    assert(vstd::relations::sorted_by(sa, leq));
    assert(vstd::relations::sorted_by(sb, leq));
    assert(vstd::relations::total_ordering(leq)) by {
        assert forall|x: Seq<char>| #[trigger] leq(x, x) by {
            lemma_path_order(x, x, x);
        }
        assert forall|x: Seq<char>, y: Seq<char>| #[trigger] leq(x, y) && #[trigger] leq(
            y,
            x,
        ) implies x == y by {
            lemma_path_order(x, y, x);
        }
        assert forall|x: Seq<char>, y: Seq<char>, z: Seq<char>| #[trigger] leq(x, y)
            && #[trigger] leq(y, z) implies leq(x, z) by {
            lemma_path_order(z, x, y);
            lemma_path_order(x, y, z);
            lemma_path_order(y, z, x);
            lemma_path_order(z, y, x);
        }
        assert forall|x: Seq<char>, y: Seq<char>| #[trigger] leq(x, y) || #[trigger] leq(y, x) by {
            lemma_path_order(x, y, x);
        }
    }
    vstd::seq_lib::lemma_sorted_unique(sa, sb, leq);
}


} // verus!
