//! Decimal numbers in text: reading them and writing them.

use crate::text::{find, find_sub, lemma_find_from_is_first, subvec};
use vstd::prelude::*;

verus! {

/// `c` is one of `0` to `9`.
pub open spec fn is_digit(c: char) -> bool {
    0x30 <= c as u32 <= 0x39
}

/// The number that the digit `c` stands for; zero for any other character.
pub open spec fn digit_value(c: char) -> nat {
    if is_digit(c) {
        (c as u32 - 0x30) as nat
    } else {
        0
    }
}

/// Every character of `s` is a digit.
pub open spec fn all_digits(s: Seq<char>) -> bool {
    forall|i: int| 0 <= i < s.len() ==> is_digit(#[trigger] s[i])
}

/// The number that the digits `s` spell in base ten.
pub open spec fn decimal_value(s: Seq<char>) -> nat
    decreases s.len(),
{
    if s.len() == 0 {
        0
    } else {
        decimal_value(s.drop_last()) * 10 + digit_value(s.last())
    }
}

/// What parsing `s` as an unsigned 64-bit number gives: one or more digits
/// after an optional `+`, spelling a number in range.
pub open spec fn parse_u64_spec(s: Seq<char>) -> Option<u64> {
    let body = if s.len() > 0 && s[0] == '+' {
        s.drop_first()
    } else {
        s
    };
    if body.len() > 0 && all_digits(body) && decimal_value(body) <= u64::MAX {
        Some(decimal_value(body) as u64)
    } else {
        None
    }
}

/// What parsing `s` as a signed 64-bit number gives: one or more digits
/// after an optional `+` or `-`, spelling a number in range.
pub open spec fn parse_i64_spec(s: Seq<char>) -> Option<i64> {
    let negative = s.len() > 0 && s[0] == '-';
    let body = if s.len() > 0 && (s[0] == '+' || s[0] == '-') {
        s.drop_first()
    } else {
        s
    };
    let value = if negative {
        -(decimal_value(body) as int)
    } else {
        decimal_value(body) as int
    };
    if body.len() > 0 && all_digits(body) && i64::MIN <= value <= i64::MAX {
        Some(value as i64)
    } else {
        None
    }
}

/// One more digit multiplies the number by ten and adds the digit.
pub proof fn lemma_decimal_value_push(s: Seq<char>, c: char)
    ensures
        decimal_value(s.push(c)) == decimal_value(s) * 10 + digit_value(c),
{
    assert(s.push(c).drop_last() =~= s);
}

/// A longer run of digits spells no smaller a number than its beginning.
pub proof fn lemma_decimal_value_prefix(s: Seq<char>, i: int)
    requires
        0 <= i <= s.len(),
    ensures
        decimal_value(s.take(i)) <= decimal_value(s),
    decreases s.len() - i,
{
    if i == s.len() {
        assert(s.take(i) =~= s);
    } else {
        lemma_decimal_value_prefix(s.drop_last(), i);
        assert(s.drop_last().take(i) =~= s.take(i));
    }
}

/// Whether `c` is one of `0` to `9`.
pub fn is_ascii_digit(c: char) -> (r: bool)
    ensures
        r == is_digit(c),
{
    let n: u32 = c as u32;
    0x30 <= n && n <= 0x39
}

/// The number that `v[from..]` spells in digits, where it is made of digits
/// and the number fits.
fn read_digits(v: &Vec<char>, from: usize) -> (r: Option<u64>)
    requires
        from <= v.len(),
    ensures
        r == (if all_digits(v@.skip(from as int)) && decimal_value(v@.skip(from as int))
            <= u64::MAX {
            Some(decimal_value(v@.skip(from as int)) as u64)
        } else {
            None
        }),
{
    let ghost body = v@.skip(from as int);
    let n = v.len();
    let mut acc: u64 = 0;
    let mut i: usize = from;
    proof {
        assert(body.take(0) =~= Seq::<char>::empty());
    }
    while i < n
        invariant
            from <= i <= n == v.len(),
            body == v@.skip(from as int),
            all_digits(body.take(i - from)),
            acc == decimal_value(body.take(i - from)),
        decreases n - i,
    {
        let c = v[i];
        let ghost next = body.take(i - from + 1);
        proof {
            assert(body[i - from] == c);
            assert(next =~= body.take(i - from).push(c));
            lemma_decimal_value_push(body.take(i - from), c);
        }
        if !is_ascii_digit(c) {
            return None;
        }
        let d: u64 = (c as u32 - 0x30) as u64;
        if acc > (u64::MAX - d) / 10 {
            proof {
                lemma_decimal_value_prefix(body, i - from + 1);
            }
            return None;
        }
        acc = acc * 10 + d;
        i += 1;
    }
    proof {
        assert(body.take(n - from) =~= body);
    }
    Some(acc)
}

/// Parses `v` as an unsigned 64-bit number.
pub fn parse_u64(v: &Vec<char>) -> (r: Option<u64>)
    ensures
        r == parse_u64_spec(v@),
{
    if v.len() == 0 {
        return None;
    }
    let from: usize = if v[0] == '+' {
        1
    } else {
        0
    };
    proof {
        assert(v@.skip(0) =~= v@);
        assert(v@.skip(1) =~= v@.drop_first());
    }
    if from == v.len() {
        return None;
    }
    read_digits(v, from)
}

/// Parses `v` as a signed 64-bit number.
pub fn parse_i64(v: &Vec<char>) -> (r: Option<i64>)
    ensures
        r == parse_i64_spec(v@),
{
    if v.len() == 0 {
        return None;
    }
    let negative = v[0] == '-';
    let from: usize = if v[0] == '+' || negative {
        1
    } else {
        0
    };
    proof {
        assert(v@.skip(0) =~= v@);
        assert(v@.skip(1) =~= v@.drop_first());
    }
    if from == v.len() {
        return None;
    }
    match read_digits(v, from) {
        None => None,
        Some(m) => {
            if negative {
                if m <= 0x7FFF_FFFF_FFFF_FFFF {
                    Some(-(m as i64))
                } else if m == 0x8000_0000_0000_0000 {
                    Some(i64::MIN)
                } else {
                    None
                }
            } else {
                if m <= 0x7FFF_FFFF_FFFF_FFFF {
                    Some(m as i64)
                } else {
                    None
                }
            }
        },
    }
}

/// The digit that writes `d`, for `d` below ten.
pub open spec fn digit_char(d: nat) -> char {
    if d == 0 {
        '0'
    } else if d == 1 {
        '1'
    } else if d == 2 {
        '2'
    } else if d == 3 {
        '3'
    } else if d == 4 {
        '4'
    } else if d == 5 {
        '5'
    } else if d == 6 {
        '6'
    } else if d == 7 {
        '7'
    } else if d == 8 {
        '8'
    } else {
        '9'
    }
}

/// `n` written in base ten, without leading zeros.
pub open spec fn decimal_digits(n: nat) -> Seq<char>
    decreases n,
{
    if n < 10 {
        seq![digit_char(n)]
    } else {
        decimal_digits(n / 10).push(digit_char(n % 10))
    }
}

/// `n` written in base ten, with a `-` in front where it is negative.
pub open spec fn signed_digits(n: int) -> Seq<char> {
    if n < 0 {
        seq!['-'] + decimal_digits((-n) as nat)
    } else {
        decimal_digits(n as nat)
    }
}

/// Reading back what `decimal_digits` wrote gives the number again.
pub proof fn lemma_decimal_round_trip(n: nat)
    ensures
        all_digits(decimal_digits(n)),
        decimal_digits(n).len() > 0,
        decimal_value(decimal_digits(n)) == n,
    decreases n,
{
    if n < 10 {
        let s = seq![digit_char(n)];
        assert(s.drop_last() =~= Seq::<char>::empty());
        assert(decimal_value(s.drop_last()) == 0);
    } else {
        lemma_decimal_round_trip(n / 10);
        lemma_decimal_value_push(decimal_digits(n / 10), digit_char(n % 10));
    }
}

fn digit_of(d: u64) -> (c: char)
    requires
        d < 10,
    ensures
        c == digit_char(d as nat),
{
    if d == 0 {
        '0'
    } else if d == 1 {
        '1'
    } else if d == 2 {
        '2'
    } else if d == 3 {
        '3'
    } else if d == 4 {
        '4'
    } else if d == 5 {
        '5'
    } else if d == 6 {
        '6'
    } else if d == 7 {
        '7'
    } else if d == 8 {
        '8'
    } else {
        '9'
    }
}

/// Appends `n` in base ten to `out`.
pub fn push_decimal(out: &mut Vec<char>, n: u64)
    ensures
        final(out)@ == old(out)@ + decimal_digits(n as nat),
    decreases n,
{
    if n >= 10 {
        push_decimal(out, n / 10);
    }
    out.push(digit_of(n % 10));
    proof {
        if n >= 10 {
            assert(final(out)@ =~= old(out)@ + decimal_digits(n as nat));
        } else {
            assert(final(out)@ =~= old(out)@ + decimal_digits(n as nat));
        }
    }
}

/// Appends `n` in base ten to `out`, with its sign where it is negative.
pub fn push_signed(out: &mut Vec<char>, n: i64)
    ensures
        final(out)@ == old(out)@ + signed_digits(n as int),
{
    if n < 0 {
        out.push('-');
        let m: u64 = (-(n + 1)) as u64 + 1;
        push_decimal(out, m);
        proof {
            assert(final(out)@ =~= old(out)@ + signed_digits(n as int));
        }
    } else {
        push_decimal(out, n as u64);
    }
}


/// Whether `v` is made of digits only.
pub fn only_digits(v: &Vec<char>) -> (r: bool)
    ensures
        r == all_digits(v@),
{
    let mut i: usize = 0;
    while i < v.len()
        invariant
            i <= v.len(),
            forall|j: int| 0 <= j < i ==> is_digit(#[trigger] v@[j]),
        decreases v.len() - i,
    {
        if !is_ascii_digit(v[i]) {
            return false;
        }
        i += 1;
    }
    true
}

/// The first two decimal places of the fraction digits `frac`, in
/// hundredths; places that are missing count as zero, further ones are
/// dropped.
pub open spec fn frac_hundredths(frac: Seq<char>) -> nat {
    (if frac.len() >= 1 {
        digit_value(frac[0]) * 10
    } else {
        0
    }) + (if frac.len() >= 2 {
        digit_value(frac[1])
    } else {
        0
    })
}

/// The highest rating, in hundredths of a star.
pub const MAX_RATING: u32 = 500;

/// The rating that `s` spells, in hundredths of a star: digits, then
/// optionally a point and more digits, with at least one digit in all.
/// Anything else, and a number above five stars, gives zero.
pub open spec fn rating_spec(s: Seq<char>) -> u32 {
    let point = find_sub(s, seq!['.']);
    let whole = match point {
        Some(i) => s.take(i),
        None => s,
    };
    let frac = match point {
        Some(i) => s.skip(i + 1),
        None => Seq::<char>::empty(),
    };
    let hundredths = decimal_value(whole) * 100 + frac_hundredths(frac);
    if whole.len() + frac.len() > 0 && all_digits(whole) && all_digits(frac) && hundredths
        <= MAX_RATING {
        hundredths as u32
    } else {
        0
    }
}

/// The count that `s` spells: a whole number that is not below zero; zero
/// where `s` spells none.
pub open spec fn count_spec(s: Seq<char>) -> i64 {
    match parse_i64_spec(s) {
        Some(n) => if n >= 0 {
            n
        } else {
            0
        },
        None => 0,
    }
}

/// Parses `v` as a count.
pub fn parse_count(v: &Vec<char>) -> (n: i64)
    ensures
        n == count_spec(v@),
        n >= 0,
{
    match parse_i64(v) {
        Some(n) => if n >= 0 {
            n
        } else {
            0
        },
        None => 0,
    }
}

/// Parses `v` as a rating, in hundredths of a star.
pub fn parse_rating(v: &Vec<char>) -> (r: u32)
    ensures
        r == rating_spec(v@),
        r <= MAX_RATING,
{
    let mut pat: Vec<char> = Vec::new();
    pat.push('.');
    proof {
        assert(pat@ =~= seq!['.']);
        lemma_find_from_is_first(v@, pat@, 0);
    }
    let n = v.len();
    let point = find(v, &pat, 0);
    let whole = match point {
        Some(i) => subvec(v, 0, i),
        None => subvec(v, 0, n),
    };
    let frac = match point {
        Some(i) => subvec(v, i + 1, n),
        None => Vec::new(),
    };
    proof {
        assert(v@.subrange(0, v@.len() as int) =~= v@);
        assert(whole@.skip(0) =~= whole@);
    }
    if whole.len() + frac.len() == 0 || !only_digits(&frac) {
        return 0;
    }
    let units = match read_digits(&whole, 0) {
        Some(n) => n,
        None => {
            return 0;
        },
    };
    let mut part: u64 = 0;
    if frac.len() >= 1 {
        part = (frac[0] as u32 - 0x30) as u64 * 10;
    }
    if frac.len() >= 2 {
        part = part + (frac[1] as u32 - 0x30) as u64;
    }
    if units > 5 {
        return 0;
    }
    let hundredths = units * 100 + part;
    if hundredths > 500 {
        return 0;
    }
    hundredths as u32
}


/// `s` with zeros put in front until it is as long as `n`.
pub open spec fn padded(s: Seq<char>, n: int) -> Seq<char> {
    Seq::new((n - s.len()) as nat, |i: int| '0') + s
}

/// Zeros in front do not change the number.
pub proof fn lemma_padded_value(s: Seq<char>, n: int)
    requires
        s.len() <= n,
    ensures
        decimal_value(padded(s, n)) == decimal_value(s),
    decreases n,
{
    let p = padded(s, n);
    if n == 0 {
        assert(p =~= s);
    } else if s.len() == 0 {
        lemma_padded_value(s, n - 1);
        assert(p.drop_last() =~= padded(s, n - 1));
        assert(p.last() == '0');
    } else {
        lemma_padded_value(s.drop_last(), n - 1);
        assert(p.drop_last() =~= padded(s.drop_last(), n - 1));
        assert(p.last() == s.last());
    }
}

fn digit_at(v: &Vec<char>, n: usize, i: usize) -> (d: u64)
    requires
        v.len() <= n,
        i < n,
    ensures
        d == digit_value(padded(v@, n as int)[i as int]),
        d <= 9,
{
    let lead = n - v.len();
    if i < lead {
        0
    } else {
        let c = v[i - lead];
        if is_ascii_digit(c) {
            (c as u32 - 0x30) as u64
        } else {
            0
        }
    }
}

/// Whether the number that `a` spells is below the number that `b`
/// spells, however long the two are.
pub fn number_less(a: &Vec<char>, b: &Vec<char>) -> (r: bool)
    ensures
        r == (decimal_value(a@) < decimal_value(b@)),
{
    let n = if a.len() > b.len() {
        a.len()
    } else {
        b.len()
    };
    let ghost pa = padded(a@, n as int);
    let ghost pb = padded(b@, n as int);
    let mut below = false;
    let mut above = false;
    let mut i: usize = 0;
    proof {
        assert(pa.take(0) =~= Seq::<char>::empty());
        assert(pb.take(0) =~= Seq::<char>::empty());
    }
    while i < n
        invariant
            i <= n,
            a.len() <= n,
            b.len() <= n,
            pa == padded(a@, n as int),
            pb == padded(b@, n as int),
            below == (decimal_value(pa.take(i as int)) < decimal_value(pb.take(i as int))),
            above == (decimal_value(pa.take(i as int)) > decimal_value(pb.take(i as int))),
        decreases n - i,
    {
        let x = digit_at(a, n, i);
        let y = digit_at(b, n, i);
        proof {
            assert(pa.take(i + 1) =~= pa.take(i as int).push(pa[i as int]));
            assert(pb.take(i + 1) =~= pb.take(i as int).push(pb[i as int]));
            lemma_decimal_value_push(pa.take(i as int), pa[i as int]);
            lemma_decimal_value_push(pb.take(i as int), pb[i as int]);
        }
        if !below && !above {
            below = x < y;
            above = x > y;
        }
        i += 1;
    }
    proof {
        assert(pa.take(n as int) =~= pa);
        assert(pb.take(n as int) =~= pb);
        lemma_padded_value(a@, n as int);
        lemma_padded_value(b@, n as int);
    }
    below
}


} // verus!
