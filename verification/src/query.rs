//! Asking the free-text index.
//!
//! The index over titles and folder names is kept outside the catalog. The
//! text of a search is untrusted: each of its words becomes a quoted phrase
//! of the index's query language, and the whole becomes a quoted literal of
//! the statement that is sent.

use crate::text::{
    chars_of, is_space, is_whitespace, lemma_token_len, lemma_trim_start_skip, string_of, subvec,
    token_len, trim_start,
};
use vstd::prelude::*;

verus! {

/// The words of `s`: its runs of characters that are not white space, in
/// order.
pub open spec fn words_of(s: Seq<char>) -> Seq<Seq<char>>
    decreases s.len(),
{
    let t = trim_start(s);
    let k = token_len(t) as int;
    if 0 < k <= t.len() && t.len() <= s.len() {
        seq![t.take(k)] + words_of(t.skip(k))
    } else {
        seq![]
    }
}

/// `s` with every `q` in it written twice.
pub open spec fn doubled(s: Seq<char>, q: char) -> Seq<char>
    decreases s.len(),
{
    if s.len() == 0 {
        seq![]
    } else if s[0] == q {
        seq![q, q] + doubled(s.drop_first(), q)
    } else {
        seq![s[0]] + doubled(s.drop_first(), q)
    }
}

/// `s` between two `q`, with every `q` in it written twice.
pub open spec fn quoted(s: Seq<char>, q: char) -> Seq<char> {
    seq![q] + doubled(s, q) + seq![q]
}

/// What `body` stands for where every `q` in it must be written twice:
/// nothing where a `q` stands alone.
pub open spec fn undoubled(body: Seq<char>, q: char) -> Option<Seq<char>>
    decreases body.len(),
{
    if body.len() == 0 {
        Some(seq![])
    } else if body[0] != q {
        match undoubled(body.drop_first(), q) {
            Some(rest) => Some(seq![body[0]] + rest),
            None => None,
        }
    } else if body.len() >= 2 && body[1] == q {
        match undoubled(body.skip(2), q) {
            Some(rest) => Some(seq![q] + rest),
            None => None,
        }
    } else {
        None
    }
}

/// What the quoted text `s` stands for: nothing where it is not enclosed
/// in two `q`, or a `q` stands alone in between.
pub open spec fn unquoted(s: Seq<char>, q: char) -> Option<Seq<char>> {
    if s.len() >= 2 && s[0] == q && s.last() == q {
        undoubled(s.subrange(1, s.len() - 1), q)
    } else {
        None
    }
}

/// Doubling never leaves a `q` alone, and what is doubled stands for what
/// it was made from.
pub proof fn lemma_undoubled_doubled(s: Seq<char>, q: char)
    ensures
        undoubled(doubled(s, q), q) == Some(s),
    decreases s.len(),
{
    if s.len() > 0 {
        let rest = s.drop_first();
        lemma_undoubled_doubled(rest, q);
        let d = doubled(s, q);
        if s[0] == q {
            assert(d.skip(2) =~= doubled(rest, q));
            assert(seq![q] + rest =~= s);
        } else {
            assert(d.drop_first() =~= doubled(rest, q));
            assert(seq![s[0]] + rest =~= s);
        }
    } else {
        assert(s =~= Seq::<char>::empty());
    }
}

/// Escaping is sound: whatever the text, its quoted form is one closed
/// literal and stands for that text and nothing else.
pub proof fn lemma_quoted_stands_for_itself(s: Seq<char>, q: char)
    ensures
        unquoted(quoted(s, q), q) == Some(s),
{
    let lit = quoted(s, q);
    assert(lit.subrange(1, lit.len() - 1) =~= doubled(s, q));
    lemma_undoubled_doubled(s, q);
}

/// Doubling goes character by character.
pub proof fn lemma_doubled_push(s: Seq<char>, c: char, q: char)
    ensures
        doubled(s.push(c), q) == doubled(s, q) + (if c == q {
            seq![q, q]
        } else {
            seq![c]
        }),
    decreases s.len(),
{
    let piece = if c == q {
        seq![q, q]
    } else {
        seq![c]
    };
    if s.len() == 0 {
        assert(s.push(c).drop_first() =~= Seq::<char>::empty());
        assert(doubled(s.push(c).drop_first(), q) =~= Seq::<char>::empty());
        assert(s.push(c)[0] == c);
        assert(doubled(s.push(c), q) =~= piece);
        assert(doubled(s, q) + piece =~= piece);
    } else {
        let rest = s.drop_first();
        lemma_doubled_push(rest, c, q);
        assert(s.push(c).drop_first() =~= rest.push(c));
        if s[0] == q {
            assert(doubled(s.push(c), q) =~= seq![q, q] + doubled(rest, q) + piece);
        } else {
            assert(doubled(s.push(c), q) =~= seq![s[0]] + doubled(rest, q) + piece);
        }
    }
}

/// Appends `text` between two `q` to `out`, with every `q` in it written
/// twice.
pub fn push_quoted(out: &mut Vec<char>, text: &Vec<char>, q: char)
    ensures
        final(out)@ == old(out)@ + quoted(text@, q),
{
    let mut lit: Vec<char> = Vec::new();
    lit.push(q);
    let mut i: usize = 0;
    proof {
        assert(text@.take(0) =~= Seq::<char>::empty());
        assert(lit@ =~= seq![q] + doubled(text@.take(0), q));
    }
    while i < text.len()
        invariant
            i <= text.len(),
            lit@ == seq![q] + doubled(text@.take(i as int), q),
        decreases text.len() - i,
    {
        let c = text[i];
        proof {
            lemma_doubled_push(text@.take(i as int), c, q);
            assert(text@.take(i + 1) =~= text@.take(i as int).push(c));
        }
        if c == q {
            lit.push(q);
            lit.push(q);
            proof {
                assert(lit@ =~= seq![q] + (doubled(text@.take(i as int), q) + seq![q, q]));
            }
        } else {
            lit.push(c);
            proof {
                assert(lit@ =~= seq![q] + (doubled(text@.take(i as int), q) + seq![c]));
            }
        }
        i += 1;
    }
    lit.push(q);
    proof {
        assert(text@.take(text@.len() as int) =~= text@);
        assert(lit@ =~= quoted(text@, q));
    }
    out.append(&mut lit);
}

/// The first `n` of `words` as phrases of the index's query language: each
/// between double quotes, joined by a blank.
pub open spec fn phrases(words: Seq<Seq<char>>, n: int) -> Seq<char>
    decreases n,
{
    if n <= 0 {
        seq![]
    } else if n == 1 {
        quoted(words[0], '"')
    } else {
        phrases(words, n - 1) + seq![' '] + quoted(words[n - 1], '"')
    }
}

/// The query that asks the index for every word of `text`; none for a text
/// without a word.
pub open spec fn fts_expression(text: Seq<char>) -> Option<Seq<char>> {
    let words = words_of(text);
    if words.len() == 0 {
        None
    } else {
        Some(phrases(words, words.len() as int))
    }
}

/// The words of `v`.
pub fn words(v: &Vec<char>) -> (out: Vec<Vec<char>>)
    ensures
        crate::text::rows(out@) == words_of(v@),
{
    let n = v.len();
    let mut out: Vec<Vec<char>> = Vec::new();
    let mut i: usize = 0;
    proof {
        assert(v@.skip(0) =~= v@);
        assert(crate::text::rows(out@) + words_of(v@) =~= words_of(v@));
    }
    loop
        invariant_except_break
            words_of(v@) == crate::text::rows(out@) + words_of(v@.skip(i as int)),
        invariant
            i <= n == v.len(),
        ensures
            crate::text::rows(out@) == words_of(v@),
        decreases n - i,
    {
        let ghost rest = v@.skip(i as int);
        let mut lo: usize = i;
        while lo < n && is_whitespace(v[lo])
            invariant
                i <= lo <= n == v.len(),
                forall|j: int| i <= j < lo ==> is_space(#[trigger] v@[j]),
            decreases n - lo,
        {
            lo += 1;
        }
        let mut hi: usize = lo;
        while hi < n && !is_whitespace(v[hi])
            invariant
                lo <= hi <= n == v.len(),
                forall|j: int| lo <= j < hi ==> !is_space(#[trigger] v@[j]),
            decreases n - hi,
        {
            hi += 1;
        }
        let ghost t = v@.skip(lo as int);
        proof {
            assert forall|j: int| 0 <= j < lo - i implies is_space(#[trigger] rest[j]) by {
                assert(rest[j] == v@[j + i]);
            }
            lemma_trim_start_skip(rest, lo - i);
            assert(rest.skip(lo - i) =~= t);
            assert(trim_start(t) == t) by {
                if t.len() > 0 {
                    assert(t[0] == v@[lo as int]);
                }
            }
            assert forall|j: int| 0 <= j < hi - lo implies !is_space(#[trigger] t[j]) by {
                assert(t[j] == v@[j + lo]);
            }
            if hi < n {
                assert(t[hi - lo] == v@[hi as int]);
            }
            lemma_token_len(t, hi - lo);
        }
        if hi == lo {
            proof {
                assert(crate::text::rows(out@) + Seq::<Seq<char>>::empty() =~= crate::text::rows(
                    out@,
                ));
            }
            break ;
        }
        let word = subvec(v, lo, hi);
        let ghost before = crate::text::rows(out@);
        out.push(word);
        proof {
            assert(t.take(hi - lo) =~= word@);
            assert(t.skip(hi - lo) =~= v@.skip(hi as int));
            assert(crate::text::rows(out@) =~= before.push(word@));
            assert(before + (seq![word@] + words_of(v@.skip(hi as int))) =~= before.push(word@)
                + words_of(v@.skip(hi as int)));
        }
        i = hi;
    }
    out
}

/// The query that asks the free-text index for every word of `text`, each
/// as a quoted phrase. A text without a word asks for nothing.
pub fn fts_query(text: &str) -> (r: Option<String>)
    ensures
        crate::models::opt_view(r) == fts_expression(text@),
{
    let all = words(&chars_of(text));
    if all.len() == 0 {
        return None;
    }
    let ghost ws = crate::text::rows(all@);
    let mut out: Vec<char> = Vec::new();
    let mut i: usize = 0;
    while i < all.len()
        invariant
            i <= all.len(),
            ws == crate::text::rows(all@),
            out@ == phrases(ws, i as int),
        decreases all.len() - i,
    {
        proof {
            assert(ws[i as int] == all@[i as int]@);
        }
        let ghost before = out@;
        if i > 0 {
            out.push(' ');
        }
        push_quoted(&mut out, &all[i], '"');
        proof {
            if i > 0 {
                assert(out@ =~= before + seq![' '] + quoted(ws[i as int], '"'));
            } else {
                assert(out@ =~= quoted(ws[0], '"'));
            }
        }
        i += 1;
    }
    Some(string_of(&out))
}

/// The statement that asks the index for the ids of the rows that match
/// `expression`.
pub open spec fn hits_statement(expression: Seq<char>) -> Seq<char> {
    "SELECT rowid FROM galleries_fts WHERE galleries_fts MATCH "@ + quoted(expression, '\'')
}

/// The statement that asks the free-text index for the ids of the
/// galleries that match `text`, with the query as a quoted literal. A text
/// without a word needs no statement.
pub fn text_search_sql(text: &str) -> (r: Option<String>)
    ensures
        crate::models::opt_view(r) == match fts_expression(text@) {
            Some(e) => Some(hits_statement(e)),
            None => None,
        },
{
    match fts_query(text) {
        None => None,
        Some(expression) => {
            let mut out = chars_of("SELECT rowid FROM galleries_fts WHERE galleries_fts MATCH ");
            push_quoted(&mut out, &chars_of(expression.as_str()), '\'');
            Some(string_of(&out))
        },
    }
}

} // verus!
