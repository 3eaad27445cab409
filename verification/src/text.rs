//! Character-level helpers shared by the parsers.
//!
//! Text is handled as vectors of `char`; every function states its result
//! over the `Seq<char>` view of its arguments.

use vstd::prelude::*;

verus! {

/// `String::push` appends the character to the end of the string.
pub assume_specification[ String::push ](s: &mut String, c: char)
    ensures
        final(s)@ == old(s)@.push(c),
;

/// The characters of `s`, in order.
pub fn chars_of(s: &str) -> (out: Vec<char>)
    ensures
        out@ == s@,
{
    let mut out: Vec<char> = Vec::new();
    for c in it: s.chars()
        invariant
            out@ == it.seq().take(it.index() as int),
    {
        out.push(c);
    }
    out
}

/// The string spelled by `v`.
pub fn string_of(v: &Vec<char>) -> (out: String)
    ensures
        out@ == v@,
{
    let mut out = String::new();
    let mut i: usize = 0;
    while i < v.len()
        invariant
            i <= v.len(),
            out@ == v@.take(i as int),
        decreases v.len() - i,
    {
        out.push(v[i]);
        i += 1;
    }
    out
}

/// Unicode `White_Space`.
pub open spec fn is_space(c: char) -> bool {
    let n = c as u32;
    ||| 0x09 <= n <= 0x0D
    ||| n == 0x20
    ||| n == 0x85
    ||| n == 0xA0
    ||| n == 0x1680
    ||| 0x2000 <= n <= 0x200A
    ||| n == 0x2028
    ||| n == 0x2029
    ||| n == 0x202F
    ||| n == 0x205F
    ||| n == 0x3000
}

/// Whether `c` is white space.
pub fn is_whitespace(c: char) -> (r: bool)
    ensures
        r == is_space(c),
{
    let n: u32 = c as u32;
    (0x09 <= n && n <= 0x0D) || n == 0x20 || n == 0x85 || n == 0xA0 || n == 0x1680 || (0x2000 <= n
        && n <= 0x200A) || n == 0x2028 || n == 0x2029 || n == 0x202F || n == 0x205F || n == 0x3000
}

/// `s` without its leading white space.
pub open spec fn trim_start(s: Seq<char>) -> Seq<char>
    decreases s.len(),
{
    if s.len() > 0 && is_space(s[0]) {
        trim_start(s.drop_first())
    } else {
        s
    }
}

/// `s` without its trailing white space.
pub open spec fn trim_end(s: Seq<char>) -> Seq<char>
    decreases s.len(),
{
    if s.len() > 0 && is_space(s.last()) {
        trim_end(s.drop_last())
    } else {
        s
    }
}

/// `s` without leading and trailing white space.
pub open spec fn trimmed(s: Seq<char>) -> Seq<char> {
    trim_end(trim_start(s))
}

/// White space at the start can be skipped before trimming the start.
pub proof fn lemma_trim_start_skip(s: Seq<char>, i: int)
    requires
        0 <= i <= s.len(),
        forall|j: int| 0 <= j < i ==> is_space(#[trigger] s[j]),
    ensures
        trim_start(s) == trim_start(s.skip(i)),
    decreases i,
{
    if i == 0 {
        assert(s.skip(0) =~= s);
    } else {
        assert(is_space(s[0]));
        let t = s.drop_first();
        assert forall|j: int| 0 <= j < i - 1 implies is_space(#[trigger] t[j]) by {
            assert(t[j] == s[j + 1]);
        }
        lemma_trim_start_skip(t, i - 1);
        assert(t.skip(i - 1) =~= s.skip(i));
    }
}

/// White space at the end can be dropped before trimming the end.
pub proof fn lemma_trim_end_take(s: Seq<char>, i: int)
    requires
        0 <= i <= s.len(),
        forall|j: int| i <= j < s.len() ==> is_space(#[trigger] s[j]),
    ensures
        trim_end(s) == trim_end(s.take(i)),
    decreases s.len() - i,
{
    if i == s.len() {
        assert(s.take(i) =~= s);
    } else {
        assert(is_space(s.last()));
        let t = s.drop_last();
        lemma_trim_end_take(t, i);
        assert(t.take(i) =~= s.take(i));
    }
}

/// A fresh copy of `v[from..to]`.
pub fn subvec(v: &Vec<char>, from: usize, to: usize) -> (out: Vec<char>)
    requires
        from <= to <= v.len(),
    ensures
        out@ == v@.subrange(from as int, to as int),
{
    let mut out: Vec<char> = Vec::new();
    let mut i: usize = from;
    while i < to
        invariant
            from <= i <= to <= v.len(),
            out@ == v@.subrange(from as int, i as int),
        decreases to - i,
    {
        out.push(v[i]);
        proof {
            assert(v@.subrange(from as int, i as int).push(v@[i as int]) =~= v@.subrange(
                from as int,
                i + 1,
            ));
        }
        i += 1;
    }
    out
}

/// `v` without leading and trailing white space.
pub fn trim(v: &Vec<char>) -> (out: Vec<char>)
    ensures
        out@ == trimmed(v@),
{
    let n = v.len();
    let mut lo: usize = 0;
    while lo < n && is_whitespace(v[lo])
        invariant
            lo <= n == v.len(),
            forall|j: int| 0 <= j < lo ==> is_space(#[trigger] v@[j]),
        decreases n - lo,
    {
        lo += 1;
    }
    let mut hi: usize = n;
    while hi > lo && is_whitespace(v[hi - 1])
        invariant
            lo <= hi <= n == v.len(),
            forall|j: int| hi <= j < n ==> is_space(#[trigger] v@[j]),
        decreases hi,
    {
        hi -= 1;
    }
    proof {
        let s = v@;
        lemma_trim_start_skip(s, lo as int);
        let t = s.skip(lo as int);
        assert(trim_start(t) == t) by {
            if t.len() > 0 {
                assert(t[0] == s[lo as int]);
            }
        }
        assert forall|j: int| hi - lo <= j < t.len() implies is_space(#[trigger] t[j]) by {
            assert(t[j] == s[j + lo]);
        }
        lemma_trim_end_take(t, hi - lo);
        let u = t.take(hi - lo);
        assert(u =~= s.subrange(lo as int, hi as int));
        assert(trim_end(u) == u) by {
            if u.len() > 0 {
                assert(u.last() == s[hi - 1]);
            }
        }
    }
    subvec(v, lo, hi)
}

/// `p` occurs in `s` at index `i`.
pub open spec fn matches_at(s: Seq<char>, i: int, p: Seq<char>) -> bool {
    0 <= i && i + p.len() <= s.len() && s.subrange(i, i + p.len()) == p
}

/// `s` begins with `p`.
pub open spec fn has_prefix(s: Seq<char>, p: Seq<char>) -> bool {
    matches_at(s, 0, p)
}

/// What follows the prefix `p` in `s`, where `s` begins with it.
pub open spec fn after_prefix(s: Seq<char>, p: Seq<char>) -> Option<Seq<char>> {
    if has_prefix(s, p) {
        Some(s.skip(p.len() as int))
    } else {
        None
    }
}

/// The least index at or after `from` at which `p` occurs in `s`.
pub open spec fn find_from(s: Seq<char>, p: Seq<char>, from: int) -> Option<int>
    decreases s.len() - from,
{
    if from < 0 || from + p.len() > s.len() {
        None
    } else if matches_at(s, from, p) {
        Some(from)
    } else if from >= s.len() {
        None
    } else {
        find_from(s, p, from + 1)
    }
}

/// The least index at which `p` occurs in `s`.
pub open spec fn find_sub(s: Seq<char>, p: Seq<char>) -> Option<int> {
    find_from(s, p, 0)
}

/// A match that `find_from` reports is the first one at or after `from`.
pub proof fn lemma_find_from_is_first(s: Seq<char>, p: Seq<char>, from: int)
    requires
        0 <= from,
    ensures
        match find_from(s, p, from) {
            Some(i) => from <= i && matches_at(s, i, p) && forall|j: int|
                from <= j < i ==> !matches_at(s, j, p),
            None => forall|j: int| from <= j ==> !matches_at(s, j, p),
        },
    decreases s.len() - from,
{
    if from + p.len() > s.len() {
    } else if matches_at(s, from, p) {
    } else if from >= s.len() {
        assert(s.subrange(from, from + p.len()) =~= p);
    } else {
        lemma_find_from_is_first(s, p, from + 1);
    }
}

/// Searching from `from` is searching the rest of `s` from its start.
pub proof fn lemma_find_from_skip(s: Seq<char>, p: Seq<char>, from: int)
    requires
        0 <= from <= s.len(),
    ensures
        find_from(s, p, from) == match find_sub(s.skip(from), p) {
            Some(i) => Some(i + from),
            None => None,
        },
{
    let t = s.skip(from);
    lemma_find_from_is_first(s, p, from);
    lemma_find_from_is_first(t, p, 0);
    assert forall|j: int| 0 <= j implies matches_at(t, j, p) == matches_at(s, j + from, p) by {
        if j + p.len() <= t.len() {
            assert(t.subrange(j, j + p.len()) =~= s.subrange(j + from, j + from + p.len()));
        }
    }
    match find_sub(t, p) {
        Some(i) => {
            assert(matches_at(s, i + from, p));
            match find_from(s, p, from) {
                Some(k) => {
                    if k < i + from {
                        assert(matches_at(t, k - from, p));
                    }
                },
                None => {},
            }
        },
        None => {
            match find_from(s, p, from) {
                Some(k) => {
                    assert(matches_at(t, k - from, p));
                },
                None => {},
            }
        },
    }
}

/// Whether `pat` occurs in `v` at index `at`.
pub fn occurs_at(v: &Vec<char>, at: usize, pat: &Vec<char>) -> (r: bool)
    ensures
        r == matches_at(v@, at as int, pat@),
{
    let n = v.len();
    let m = pat.len();
    if at > n || m > n - at {
        return false;
    }
    let mut k: usize = 0;
    while k < m
        invariant
            k <= m == pat.len(),
            at + m <= n == v.len(),
            forall|j: int| 0 <= j < k ==> v@[at + j] == pat@[j],
        decreases m - k,
    {
        if v[at + k] != pat[k] {
            proof {
                assert(v@.subrange(at as int, at + m)[k as int] == v@[at + k]);
            }
            return false;
        }
        k += 1;
    }
    proof {
        assert(v@.subrange(at as int, at + m) =~= pat@);
    }
    true
}

/// Whether `v` begins with `p`.
pub fn starts_with(v: &Vec<char>, p: &str) -> (r: bool)
    ensures
        r == has_prefix(v@, p@),
{
    let pat = chars_of(p);
    occurs_at(v, 0, &pat)
}

/// Whether `v` spells `p`.
pub fn equals(v: &Vec<char>, p: &str) -> (r: bool)
    ensures
        r == (v@ == p@),
{
    let pat = chars_of(p);
    if v.len() != pat.len() {
        return false;
    }
    let r = occurs_at(v, 0, &pat);
    proof {
        assert(v@.subrange(0, v@.len() as int) =~= v@);
    }
    r
}

/// What follows `p` in `v`, where `v` begins with `p`.
pub fn strip_prefix(v: &Vec<char>, p: &str) -> (r: Option<Vec<char>>)
    ensures
        match r {
            Some(rest) => after_prefix(v@, p@) == Some(rest@),
            None => after_prefix(v@, p@).is_none(),
        },
{
    let pat = chars_of(p);
    if occurs_at(v, 0, &pat) {
        Some(subvec(v, pat.len(), v.len()))
    } else {
        None
    }
}

/// The least index at or after `from` at which `pat` occurs in `v`.
pub fn find(v: &Vec<char>, pat: &Vec<char>, from: usize) -> (r: Option<usize>)
    requires
        pat.len() > 0,
    ensures
        match r {
            Some(i) => find_from(v@, pat@, from as int) == Some(i as int),
            None => find_from(v@, pat@, from as int).is_none(),
        },
{
    let n = v.len();
    let m = pat.len();
    let mut i: usize = from;
    while i < n && m <= n - i
        invariant
            from <= i,
            n == v.len(),
            m == pat.len() > 0,
            find_from(v@, pat@, from as int) == find_from(v@, pat@, i as int),
        decreases n + 1 - i,
    {
        if occurs_at(v, i, pat) {
            return Some(i);
        }
        i += 1;
    }
    None
}


/// The views of the rows of `v`.
pub open spec fn rows(v: Seq<Vec<char>>) -> Seq<Seq<char>> {
    v.map_values(|r: Vec<char>| r@)
}

/// The pieces of `s` between the occurrences of `sep`, found left to right
/// without overlap.
pub open spec fn split_on(s: Seq<char>, sep: Seq<char>) -> Seq<Seq<char>>
    decreases s.len(),
{
    match find_sub(s, sep) {
        Some(i) => if sep.len() > 0 && 0 <= i && i + sep.len() <= s.len() {
            seq![s.take(i)] + split_on(s.skip(i + sep.len()), sep)
        } else {
            seq![s]
        },
        None => seq![s],
    }
}

/// The pieces of `v` between the occurrences of `sep`.
pub fn split(v: &Vec<char>, sep: &str) -> (out: Vec<Vec<char>>)
    requires
        sep@.len() > 0,
    ensures
        rows(out@) == split_on(v@, sep@),
{
    let pat = chars_of(sep);
    let n = v.len();
    let mut out: Vec<Vec<char>> = Vec::new();
    let mut start: usize = 0;
    proof {
        assert(v@.skip(0) =~= v@);
        assert(rows(out@) + split_on(v@, sep@) =~= split_on(v@, sep@));
    }
    loop
        invariant_except_break
            split_on(v@, sep@) == rows(out@) + split_on(v@.skip(start as int), sep@),
        invariant
            start <= n == v.len(),
            pat@ == sep@,
            pat@.len() > 0,
        ensures
            rows(out@) == split_on(v@, sep@),
        decreases n - start,
    {
        let ghost rest = v@.skip(start as int);
        let ghost before = rows(out@);
        proof {
            lemma_find_from_skip(v@, pat@, start as int);
            lemma_find_from_is_first(rest, pat@, 0);
        }
        match find(v, &pat, start) {
            Some(i) => {
                let piece = subvec(v, start, i);
                out.push(piece);
                proof {
                    assert(rest.take(i - start) =~= v@.subrange(start as int, i as int));
                    assert(rest.skip(i - start + pat@.len()) =~= v@.skip(i + pat@.len()));
                    assert(rows(out@) =~= before.push(piece@));
                    assert(before + (seq![piece@] + split_on(v@.skip(i + pat@.len()), sep@))
                        =~= before.push(piece@) + split_on(v@.skip(i + pat@.len()), sep@));
                }
                start = i + pat.len();
            },
            None => {
                let piece = subvec(v, start, n);
                out.push(piece);
                proof {
                    assert(rest =~= v@.subrange(start as int, n as int));
                    assert(rows(out@) =~= before.push(piece@));
                    assert(before + seq![piece@] =~= before.push(piece@));
                }
                break;
            },
        }
    }
    out
}

/// `s` without one trailing carriage return.
pub open spec fn strip_cr(s: Seq<char>) -> Seq<char> {
    if s.len() > 0 && s.last() == '\r' {
        s.drop_last()
    } else {
        s
    }
}

/// The lines of `s`: each ends at a line feed, which is dropped together
/// with a carriage return before it; what follows the last line feed is a
/// line too unless it is empty.
pub open spec fn lines_of(s: Seq<char>) -> Seq<Seq<char>>
    decreases s.len(),
{
    if s.len() == 0 {
        seq![]
    } else {
        match find_sub(s, seq!['\n']) {
            Some(i) => if 0 <= i < s.len() {
                seq![strip_cr(s.take(i))] + lines_of(s.skip(i + 1))
            } else {
                seq![s]
            },
            None => seq![s],
        }
    }
}

/// The lines of `v`.
pub fn lines(v: &Vec<char>) -> (out: Vec<Vec<char>>)
    ensures
        rows(out@) == lines_of(v@),
{
    let mut pat: Vec<char> = Vec::new();
    pat.push('\n');
    let n = v.len();
    let mut out: Vec<Vec<char>> = Vec::new();
    let mut start: usize = 0;
    proof {
        assert(pat@ =~= seq!['\n']);
        assert(rows(out@) =~= Seq::<Seq<char>>::empty());
        assert(v@.skip(0) =~= v@);
    }
    while start < n
        invariant
            start <= n == v.len(),
            pat@ == seq!['\n'],
            lines_of(v@) == rows(out@) + lines_of(v@.skip(start as int)),
        decreases n - start,
    {
        let ghost rest = v@.skip(start as int);
        let ghost before = rows(out@);
        proof {
            lemma_find_from_skip(v@, pat@, start as int);
            lemma_find_from_is_first(rest, pat@, 0);
        }
        match find(v, &pat, start) {
            Some(i) => {
                let end = if i > start && v[i - 1] == '\r' {
                    i - 1
                } else {
                    i
                };
                let piece = subvec(v, start, end);
                out.push(piece);
                proof {
                    let raw = rest.take(i - start);
                    assert(raw =~= v@.subrange(start as int, i as int));
                    assert(piece@ =~= strip_cr(raw));
                    assert(rest.skip(i - start + 1) =~= v@.skip(i + 1));
                    assert(rows(out@) =~= before.push(piece@));
                    assert(before + (seq![piece@] + lines_of(v@.skip(i + 1))) =~= before.push(
                        piece@,
                    ) + lines_of(v@.skip(i + 1)));
                }
                start = i + 1;
            },
            None => {
                let piece = subvec(v, start, n);
                out.push(piece);
                proof {
                    assert(rest =~= v@.subrange(start as int, n as int));
                    assert(rows(out@) =~= before.push(piece@));
                    assert(v@.skip(n as int).len() == 0);
                    assert(before + seq![piece@] =~= before.push(piece@) + lines_of(
                        v@.skip(n as int),
                    ));
                }
                start = n;
            },
        }
    }
    proof {
        assert(v@.skip(n as int).len() == 0);
        assert(rows(out@) + lines_of(v@.skip(n as int)) =~= rows(out@));
    }
    out
}


/// The length of the run of characters at the start of `s` that are not
/// white space.
pub open spec fn token_len(s: Seq<char>) -> nat
    decreases s.len(),
{
    if s.len() == 0 || is_space(s[0]) {
        0
    } else {
        1 + token_len(s.drop_first())
    }
}

/// The first run of characters of `s` that are not white space; empty where
/// there is none.
pub open spec fn first_token(s: Seq<char>) -> Seq<char> {
    let t = trim_start(s);
    t.take(token_len(t) as int)
}

/// A token ends at the first white space, or where the text ends.
pub proof fn lemma_token_len(s: Seq<char>, k: int)
    requires
        0 <= k <= s.len(),
        forall|j: int| 0 <= j < k ==> !is_space(#[trigger] s[j]),
        k == s.len() || is_space(s[k]),
    ensures
        token_len(s) == k,
    decreases k,
{
    if k > 0 {
        let t = s.drop_first();
        assert forall|j: int| 0 <= j < k - 1 implies !is_space(#[trigger] t[j]) by {
            assert(t[j] == s[j + 1]);
        }
        if k < s.len() {
            assert(t[k - 1] == s[k]);
        }
        lemma_token_len(t, k - 1);
    }
}

/// The first run of characters of `v` that are not white space.
pub fn leading_token(v: &Vec<char>) -> (out: Vec<char>)
    ensures
        out@ == first_token(v@),
{
    let n = v.len();
    let mut lo: usize = 0;
    while lo < n && is_whitespace(v[lo])
        invariant
            lo <= n == v.len(),
            forall|j: int| 0 <= j < lo ==> is_space(#[trigger] v@[j]),
        decreases n - lo,
    {
        lo += 1;
    }
    let mut hi: usize = lo;
    while hi < n && !is_whitespace(v[hi])
        invariant
            lo <= hi <= n == v.len(),
            forall|j: int| lo <= j < hi ==> !is_space(#[trigger] v@[j]),
        decreases n - hi,
    {
        hi += 1;
    }
    proof {
        let s = v@;
        lemma_trim_start_skip(s, lo as int);
        let t = s.skip(lo as int);
        assert(trim_start(t) == t) by {
            if t.len() > 0 {
                assert(t[0] == s[lo as int]);
            }
        }
        assert forall|j: int| 0 <= j < hi - lo implies !is_space(#[trigger] t[j]) by {
            assert(t[j] == s[j + lo]);
        }
        if hi < n {
            assert(t[hi - lo] == s[hi as int]);
        }
        lemma_token_len(t, hi - lo);
        assert(t.take(hi - lo) =~= s.subrange(lo as int, hi as int));
    }
    subvec(v, lo, hi)
}


/// `s` in lower case, as `str::to_lowercase` gives it.
pub uninterp spec fn lowercase_of(s: Seq<char>) -> Seq<char>;

/// Calls `str::to_lowercase`. The contract names the result and says no
/// more of it.
#[verifier::external_body]
pub(crate) fn lowercase(s: &str) -> (lower: String)
    ensures
        lower@ == lowercase_of(s@),
{
    s.to_lowercase()
}

/// `a` comes before `b` in the order of strings: at the first place where
/// they differ the character of `a` has the lower code, or `a` ends there
/// and `b` goes on.
pub open spec fn text_lt(a: Seq<char>, b: Seq<char>) -> bool
    decreases a.len(),
{
    if b.len() == 0 {
        false
    } else if a.len() == 0 {
        true
    } else if (a[0] as u32) < (b[0] as u32) {
        true
    } else if (a[0] as u32) > (b[0] as u32) {
        false
    } else {
        text_lt(a.drop_first(), b.drop_first())
    }
}

/// Whether `a` comes before `b` in the order of strings.
pub fn text_less(a: &Vec<char>, b: &Vec<char>) -> (r: bool)
    ensures
        r == text_lt(a@, b@),
{
    let mut i: usize = 0;
    proof {
        assert(a@.skip(0) =~= a@);
        assert(b@.skip(0) =~= b@);
    }
    while i < a.len() && i < b.len()
        invariant
            i <= a.len(),
            i <= b.len(),
            text_lt(a@, b@) == text_lt(a@.skip(i as int), b@.skip(i as int)),
        decreases a.len() - i,
    {
        let x: u32 = a[i] as u32;
        let y: u32 = b[i] as u32;
        proof {
            assert(a@.skip(i as int)[0] == a@[i as int]);
            assert(b@.skip(i as int)[0] == b@[i as int]);
            assert(a@.skip(i as int).drop_first() =~= a@.skip(i + 1));
            assert(b@.skip(i as int).drop_first() =~= b@.skip(i + 1));
        }
        if x < y {
            return true;
        }
        if x > y {
            return false;
        }
        i += 1;
    }
    i < b.len()
}


/// Whether `a` and `b` hold the same characters.
pub fn same_chars(a: &Vec<char>, b: &Vec<char>) -> (r: bool)
    ensures
        r == (a@ == b@),
{
    if a.len() != b.len() {
        return false;
    }
    let r = occurs_at(a, 0, b);
    proof {
        assert(a@.subrange(0, a@.len() as int) =~= a@);
    }
    r
}

/// Whether `a` and `b` spell the same text.
pub fn same_text(a: &str, b: &str) -> (r: bool)
    ensures
        r == (a@ == b@),
{
    let x = chars_of(a);
    let y = chars_of(b);
    same_chars(&x, &y)
}


/// `s` ends with `p`.
pub open spec fn has_suffix(s: Seq<char>, p: Seq<char>) -> bool {
    matches_at(s, s.len() - p.len(), p)
}

/// Whether `v` ends with `p`.
pub fn ends_with(v: &Vec<char>, p: &str) -> (r: bool)
    ensures
        r == has_suffix(v@, p@),
{
    let pat = chars_of(p);
    if pat.len() > v.len() {
        return false;
    }
    occurs_at(v, v.len() - pat.len(), &pat)
}


/// The text `a` followed by the text `b`.
pub fn followed_by(a: &str, b: &str) -> (out: String)
    ensures
        out@ == a@ + b@,
{
    let mut chars = chars_of(a);
    let mut rest = chars_of(b);
    chars.append(&mut rest);
    string_of(&chars)
}


} // verus!
