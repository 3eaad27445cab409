//! The sidecar, written and read again.
//!
//! A record that keeps to the form of a sidecar reads back as itself: its
//! texts are trimmed and hold no line feed, its titles are no addresses,
//! its address is one of a known host or empty, its rating and counts are
//! in range, and its tags hold no separator.

use crate::fetcher::{
    count_line, field_line, field_lines, info_lines, info_text, joined_tags, rating_line,
    rating_text, tag_line, tag_lines, tag_run, unlines,
};
use crate::models::{ParsedInfo, TagPair};
use crate::numbers::{
    all_digits, decimal_digits, decimal_value, digit_char, frac_hundredths, is_digit,
    lemma_decimal_round_trip, rating_spec, MAX_RATING,
};
use crate::parser::{
    ends_fields, is_gallery_url, leading_int, no_fields, parse_info, read_lines, step, tag_pairs,
    tags_from, url_from, Fields,
};
use crate::text::{
    after_prefix, find_from, find_sub, first_token, has_prefix, is_space, lemma_find_from_is_first,
    lemma_token_len, lines_of, matches_at, split_on, strip_cr, trim_end, trim_start, trimmed,
};
use vstd::prelude::*;

verus! {

/// `s` holds no line feed.
pub open spec fn no_newline(s: Seq<char>) -> bool {
    forall|i: int| 0 <= i < s.len() ==> #[trigger] s[i] != '\n'
}

/// `s` holds `pat` nowhere.
pub open spec fn lacks(s: Seq<char>, pat: Seq<char>) -> bool {
    forall|i: int| !#[trigger] matches_at(s, i, pat)
}

/// `s` is on one line and has no white space at either end.
pub open spec fn is_clean(s: Seq<char>) -> bool {
    no_newline(s) && trimmed(s) == s
}

/// Trimming the start makes a text no longer.
pub proof fn lemma_trim_start_len(s: Seq<char>)
    ensures
        trim_start(s).len() <= s.len(),
    decreases s.len(),
{
    if s.len() > 0 && is_space(s[0]) {
        lemma_trim_start_len(s.drop_first());
    }
}

/// Trimming the end makes a text no longer.
pub proof fn lemma_trim_end_len(s: Seq<char>)
    ensures
        trim_end(s).len() <= s.len(),
    decreases s.len(),
{
    if s.len() > 0 && is_space(s.last()) {
        lemma_trim_end_len(s.drop_last());
    }
}

/// A text that trimming leaves as it is has no white space at either end.
pub proof fn lemma_trimmed_ends(s: Seq<char>)
    requires
        trimmed(s) == s,
        s.len() > 0,
    ensures
        !is_space(s[0]),
        !is_space(s.last()),
{
    lemma_trim_start_len(s);
    lemma_trim_end_len(trim_start(s));
    if is_space(s[0]) {
        lemma_trim_start_len(s.drop_first());
    } else if is_space(s.last()) {
        lemma_trim_end_len(s.drop_last());
    }
}

/// Trimming leaves a text as it is that has no white space at either end.
pub proof fn lemma_trimmed_same(s: Seq<char>)
    requires
        s.len() == 0 || (!is_space(s[0]) && !is_space(s.last())),
    ensures
        trimmed(s) == s,
{
}

/// A text that differs from `p` at the place `k` does not begin with `p`.
pub proof fn lemma_no_prefix(s: Seq<char>, p: Seq<char>, k: int)
    requires
        0 <= k < p.len(),
        k >= s.len() || s[k] != p[k],
    ensures
        !has_prefix(s, p),
        s != p,
{
    if has_prefix(s, p) {
        assert(s.subrange(0, p.len() as int)[k] == s[k]);
    }
}

/// A text that lacks `pat` has no first place of it.
pub proof fn lemma_find_none(s: Seq<char>, pat: Seq<char>)
    requires
        lacks(s, pat),
    ensures
        find_sub(s, pat) is None,
{
    lemma_find_from_is_first(s, pat, 0);
}

/// The first place of `pat` at or after `from` is `at`, where `pat` is
/// there and at no place between.
pub proof fn lemma_find_from_at(s: Seq<char>, pat: Seq<char>, from: int, at: int)
    requires
        0 <= from <= at,
        matches_at(s, at, pat),
        forall|j: int| from <= j < at ==> !#[trigger] matches_at(s, j, pat),
    ensures
        find_from(s, pat, from) == Some(at),
    decreases at - from,
{
    if from < at {
        lemma_find_from_at(s, pat, from + 1, at);
    }
}

/// Where `head` lacks the separator `sep`, which is made of two characters
/// that differ, the first place of `sep` in `head`, `sep` and `tail` put
/// together is the end of `head`.
pub proof fn lemma_find_first_sep(head: Seq<char>, sep: Seq<char>, tail: Seq<char>)
    requires
        lacks(head, sep),
        sep.len() == 2,
        sep[0] != sep[1],
    ensures
        find_sub(head + sep + tail, sep) == Some(head.len() as int),
{
    let s = head + sep + tail;
    let n = head.len() as int;
    assert(s.subrange(n, n + 2) =~= sep);
    assert forall|j: int| 0 <= j < n implies !#[trigger] matches_at(s, j, sep) by {
        if matches_at(s, j, sep) {
            let m = s.subrange(j, j + 2);
            assert(m[0] == s[j] && m[1] == s[j + 1]);
            if j + 2 <= n {
                assert(head.subrange(j, j + 2) =~= m);
                assert(matches_at(head, j, sep));
            } else {
                assert(s[j + 1] == sep[0]);
            }
        }
    }
    lemma_find_from_at(s, sep, 0, n);
}

/// The text of a line and of the lines after it.
pub proof fn lemma_unlines_first(line: Seq<char>, rest: Seq<Seq<char>>)
    ensures
        unlines(seq![line] + rest) == line + seq!['\n'] + unlines(rest),
    decreases rest.len(),
{
    let all = seq![line] + rest;
    if rest.len() == 0 {
        assert(all.drop_last() =~= Seq::<Seq<char>>::empty());
        assert(unlines(all.drop_last()) =~= Seq::<char>::empty());
        assert(unlines(all) =~= line + seq!['\n'] + unlines(rest));
    } else {
        lemma_unlines_first(line, rest.drop_last());
        assert(all.drop_last() =~= seq![line] + rest.drop_last());
        assert(all.last() == rest.last());
        assert(unlines(all) =~= line + seq!['\n'] + unlines(rest));
    }
}

/// Lines that are put together come apart again: where no line holds a
/// line feed or ends with a carriage return, the lines of the text that
/// they make are the lines themselves.
pub proof fn lemma_lines_of_unlines(lines: Seq<Seq<char>>)
    requires
        forall|i: int|
            0 <= i < lines.len() ==> no_newline(#[trigger] lines[i]) && (lines[i].len() == 0
                || lines[i].last() != '\r'),
    ensures
        lines_of(unlines(lines)) == lines,
    decreases lines.len(),
{
    if lines.len() == 0 {
        assert(lines =~= Seq::<Seq<char>>::empty());
    } else {
        let line = lines[0];
        let rest = lines.drop_first();
        assert(lines =~= seq![line] + rest);
        lemma_unlines_first(line, rest);
        assert forall|i: int| 0 <= i < rest.len() implies no_newline(#[trigger] rest[i]) && (
        rest[i].len() == 0 || rest[i].last() != '\r') by {
            assert(rest[i] == lines[i + 1]);
        }
        lemma_lines_of_unlines(rest);
        let text = unlines(lines);
        let nl = seq!['\n'];
        let n = line.len() as int;
        assert(text =~= line + nl + unlines(rest));
        assert(text.subrange(n, n + 1) =~= nl);
        assert(matches_at(text, n, nl));
        lemma_find_from_is_first(text, nl, 0);
        match find_sub(text, nl) {
            None => {},
            Some(i) => {
                if i < n {
                    let m = text.subrange(i, i + 1);
                    assert(m == nl);
                    assert(m[0] == text[i]);
                    assert(text[i] == line[i]);
                }
            },
        }
        assert(find_sub(text, nl) == Some(n));
        assert(text.take(n) =~= line);
        assert(text.skip(n + 1) =~= unlines(rest));
        assert(strip_cr(line) == line);
    }
}

/// What the words of the sidecar are made of.
pub proof fn lemma_words()
    ensures
        "Category: "@.len() == 10 && "Category: "@[0] == 'C' && no_newline("Category: "@),
        "Uploader: "@.len() == 10 && "Uploader: "@[0] == 'U' && no_newline("Uploader: "@),
        "Posted: "@.len() == 8 && "Posted: "@[0] == 'P' && "Posted: "@[1] == 'o' && no_newline(
            "Posted: "@,
        ),
        "Language: "@.len() == 10 && "Language: "@[0] == 'L' && "Language: "@[1] == 'a'
            && no_newline("Language: "@),
        "File Size: "@.len() == 11 && "File Size: "@[0] == 'F' && "File Size: "@[1] == 'i'
            && no_newline("File Size: "@),
        "Length: "@.len() == 8 && "Length: "@[0] == 'L' && "Length: "@[1] == 'e' && no_newline(
            "Length: "@,
        ),
        "Rating: "@.len() == 8 && "Rating: "@[0] == 'R' && no_newline("Rating: "@),
        "Favorited: "@.len() == 11 && "Favorited: "@[0] == 'F' && "Favorited: "@[1] == 'a'
            && no_newline("Favorited: "@),
        "Tags:"@.len() == 5 && "Tags:"@[0] == 'T' && "Tags:"@[4] == ':' && no_newline("Tags:"@),
        "> "@.len() == 2 && "> "@[0] == '>' && "> "@[1] == ' ',
        ": "@.len() == 2 && ": "@[0] == ':' && ": "@[1] == ' ',
        ", "@.len() == 2 && ", "@[0] == ',' && ", "@[1] == ' ',
        "Page 1:"@.len() == 7 && "Page 1:"@[0] == 'P' && "Page 1:"@[1] == 'a',
        "Downloaded at"@.len() == 13 && "Downloaded at"@[0] == 'D',
        "https://exhentai.org"@.len() == 20 && "https://exhentai.org"@[0] == 'h',
        "https://e-hentai.org"@.len() == 20 && "https://e-hentai.org"@[0] == 'h',
        " pages"@.len() == 6 && " pages"@[0] == ' ' && " pages"@[5] == 's' && no_newline(
            " pages"@,
        ),
        " times"@.len() == 6 && " times"@[0] == ' ' && " times"@[5] == 's' && no_newline(
            " times"@,
        ),
{
    reveal_strlit("Category: ");
    reveal_strlit("Uploader: ");
    reveal_strlit("Posted: ");
    reveal_strlit("Language: ");
    reveal_strlit("File Size: ");
    reveal_strlit("Length: ");
    reveal_strlit("Rating: ");
    reveal_strlit("Favorited: ");
    reveal_strlit("Tags:");
    reveal_strlit("> ");
    reveal_strlit(": ");
    reveal_strlit(", ");
    reveal_strlit("Page 1:");
    reveal_strlit("Downloaded at");
    reveal_strlit("https://exhentai.org");
    reveal_strlit("https://e-hentai.org");
    reveal_strlit(" pages");
    reveal_strlit(" times");
}


/// The fields after every one of `lines` has been read in state `st`.
pub open spec fn read_all(lines: Seq<Seq<char>>, st: Fields) -> Fields
    decreases lines.len(),
{
    if lines.len() == 0 {
        st
    } else {
        read_all(lines.drop_first(), step(st, trimmed(lines[0])))
    }
}

/// Where no line ends the fields, every line is read.
pub proof fn lemma_read_lines_all(lines: Seq<Seq<char>>, st: Fields)
    requires
        forall|i: int| 0 <= i < lines.len() ==> !ends_fields(trimmed(#[trigger] lines[i])),
    ensures
        read_lines(lines, st) == read_all(lines, st),
    decreases lines.len(),
{
    if lines.len() > 0 {
        let rest = lines.drop_first();
        assert forall|i: int| 0 <= i < rest.len() implies !ends_fields(
            trimmed(#[trigger] rest[i]),
        ) by {
            assert(rest[i] == lines[i + 1]);
        }
        lemma_read_lines_all(rest, step(st, trimmed(lines[0])));
    }
}

/// Reading lines and then more lines is reading them all.
pub proof fn lemma_read_all_add(a: Seq<Seq<char>>, b: Seq<Seq<char>>, st: Fields)
    ensures
        read_all(a + b, st) == read_all(b, read_all(a, st)),
    decreases a.len(),
{
    if a.len() == 0 {
        assert(a + b =~= b);
    } else {
        assert((a + b).drop_first() =~= a.drop_first() + b);
        assert((a + b)[0] == a[0]);
        lemma_read_all_add(a.drop_first(), b, step(st, trimmed(a[0])));
    }
}

/// Reading one line is one step.
pub proof fn lemma_read_one(line: Seq<char>, st: Fields)
    ensures
        read_all(seq![line], st) == step(st, trimmed(line)),
        read_all(Seq::<Seq<char>>::empty(), st) == st,
{
    assert(seq![line].drop_first() =~= Seq::<Seq<char>>::empty());
    assert(read_all(seq![line].drop_first(), step(st, trimmed(line))) == step(st, trimmed(line)));
}

/// The line `l` is a line of fields as it is written: it is not empty, on
/// one line, without white space at either end, no address, and does not
/// end the fields.
pub open spec fn line_ok(l: Seq<char>) -> bool {
    &&& l.len() > 0
    &&& no_newline(l)
    &&& !is_space(l[0])
    &&& !is_space(l.last())
    &&& !is_gallery_url(l)
    &&& !ends_fields(l)
}

/// Every one of `lines` is a line of fields as it is written.
pub open spec fn all_ok(lines: Seq<Seq<char>>) -> bool {
    forall|i: int| 0 <= i < lines.len() ==> line_ok(#[trigger] lines[i])
}

/// Lines as they are written, put together, are lines as they are written.
pub proof fn lemma_all_ok_add(a: Seq<Seq<char>>, b: Seq<Seq<char>>)
    requires
        all_ok(a),
        all_ok(b),
    ensures
        all_ok(a + b),
{
    assert forall|i: int| 0 <= i < (a + b).len() implies line_ok(#[trigger] (a + b)[i]) by {
        if i < a.len() {
            assert((a + b)[i] == a[i]);
        } else {
            assert((a + b)[i] == b[i - a.len()]);
        }
    }
}

/// A line that begins with neither `h` nor `D` nor `Pa` is no address and
/// does not end the fields.
pub proof fn lemma_plain_line(l: Seq<char>)
    requires
        l.len() < 2 || (l[0] != 'h' && l[0] != 'D' && !(l[0] == 'P' && l[1] == 'a')),
        l.len() != 1,
    ensures
        !is_gallery_url(l),
        !ends_fields(l),
{
    lemma_words();
    lemma_no_prefix(l, "https://exhentai.org"@, 0);
    lemma_no_prefix(l, "https://e-hentai.org"@, 0);
    lemma_no_prefix(l, "Downloaded at"@, 0);
    if l.len() >= 2 && l[0] == 'P' {
        lemma_no_prefix(l, "Page 1:"@, 1);
    } else {
        lemma_no_prefix(l, "Page 1:"@, 0);
    }
}

/// A line that begins with the first letter of no label names no field and
/// does not open the tag block.
pub proof fn lemma_unlabelled(l: Seq<char>)
    requires
        l.len() == 0 || (l[0] != 'C' && l[0] != 'U' && l[0] != 'P' && l[0] != 'L' && l[0] != 'F'
            && l[0] != 'R' && l[0] != 'T'),
    ensures
        after_prefix(l, "Category: "@) is None,
        after_prefix(l, "Uploader: "@) is None,
        after_prefix(l, "Posted: "@) is None,
        after_prefix(l, "Language: "@) is None,
        after_prefix(l, "File Size: "@) is None,
        after_prefix(l, "Length: "@) is None,
        after_prefix(l, "Rating: "@) is None,
        after_prefix(l, "Favorited: "@) is None,
        l != "Tags:"@,
{
    lemma_words();
    lemma_no_prefix(l, "Category: "@, 0);
    lemma_no_prefix(l, "Uploader: "@, 0);
    lemma_no_prefix(l, "Posted: "@, 0);
    lemma_no_prefix(l, "Language: "@, 0);
    lemma_no_prefix(l, "File Size: "@, 0);
    lemma_no_prefix(l, "Length: "@, 0);
    lemma_no_prefix(l, "Rating: "@, 0);
    lemma_no_prefix(l, "Favorited: "@, 0);
    lemma_no_prefix(l, "Tags:"@, 0);
}

/// The line made of a label and a value: the value follows the label, and
/// trimming leaves the line as it is.
pub proof fn lemma_label_value(label: Seq<char>, v: Seq<char>)
    requires
        label.len() >= 2,
        no_newline(label),
        !is_space(label[0]),
        is_clean(v),
        v.len() > 0,
    ensures
        ({
            let line = label + v;
            &&& line.len() >= 2
            &&& line[0] == label[0]
            &&& line[1] == label[1]
            &&& no_newline(line)
            &&& !is_space(line[0])
            &&& !is_space(line.last())
            &&& trimmed(line) == line
            &&& after_prefix(line, label) == Some(v)
        }),
{
    let line = label + v;
    lemma_trimmed_ends(v);
    assert(line.last() == v.last());
    lemma_trimmed_same(line);
    assert(line.subrange(0, label.len() as int) =~= label);
    assert(line.skip(label.len() as int) =~= v);
    assert forall|i: int| 0 <= i < line.len() implies #[trigger] line[i] != '\n' by {
        if i < label.len() {
            assert(line[i] == label[i]);
        } else {
            assert(line[i] == v[i - label.len()]);
        }
    }
}


/// The line of the field `category` is read as that field.
pub proof fn lemma_category_line(st: Fields, v: Seq<char>)
    requires
        is_clean(v),
    ensures
        all_ok(field_line("Category: "@, v)),
        read_all(field_line("Category: "@, v), st) == (if v.len() > 0 {
            Fields { category: v, ..st }
        } else {
            st
        }),
{
    lemma_words();
    let line = "Category: "@ + v;
    lemma_read_one(line, st);
    if v.len() > 0 {
        lemma_label_value("Category: "@, v);
        lemma_plain_line(line);
        assert(field_line("Category: "@, v)[0] == line);
    }
}

/// The line of the field `uploader` is read as that field.
pub proof fn lemma_uploader_line(st: Fields, v: Seq<char>)
    requires
        is_clean(v),
    ensures
        all_ok(field_line("Uploader: "@, v)),
        read_all(field_line("Uploader: "@, v), st) == (if v.len() > 0 {
            Fields { uploader: v, ..st }
        } else {
            st
        }),
{
    lemma_words();
    let line = "Uploader: "@ + v;
    lemma_read_one(line, st);
    if v.len() > 0 {
        lemma_label_value("Uploader: "@, v);
        lemma_plain_line(line);
        lemma_no_prefix(line, "Category: "@, 0);
        assert(field_line("Uploader: "@, v)[0] == line);
    }
}

/// The line of the field `posted` is read as that field.
pub proof fn lemma_posted_line(st: Fields, v: Seq<char>)
    requires
        is_clean(v),
    ensures
        all_ok(field_line("Posted: "@, v)),
        read_all(field_line("Posted: "@, v), st) == (if v.len() > 0 {
            Fields { posted: v, ..st }
        } else {
            st
        }),
{
    lemma_words();
    let line = "Posted: "@ + v;
    lemma_read_one(line, st);
    if v.len() > 0 {
        lemma_label_value("Posted: "@, v);
        lemma_plain_line(line);
        lemma_no_prefix(line, "Category: "@, 0);
        lemma_no_prefix(line, "Uploader: "@, 0);
        assert(field_line("Posted: "@, v)[0] == line);
    }
}

/// The line of the field `language` is read as that field.
pub proof fn lemma_language_line(st: Fields, v: Seq<char>)
    requires
        is_clean(v),
    ensures
        all_ok(field_line("Language: "@, v)),
        read_all(field_line("Language: "@, v), st) == (if v.len() > 0 {
            Fields { language: v, ..st }
        } else {
            st
        }),
{
    lemma_words();
    let line = "Language: "@ + v;
    lemma_read_one(line, st);
    if v.len() > 0 {
        lemma_label_value("Language: "@, v);
        lemma_plain_line(line);
        lemma_no_prefix(line, "Category: "@, 0);
        lemma_no_prefix(line, "Uploader: "@, 0);
        lemma_no_prefix(line, "Posted: "@, 0);
        assert(field_line("Language: "@, v)[0] == line);
    }
}

/// The line of the field `file_size` is read as that field.
pub proof fn lemma_file_size_line(st: Fields, v: Seq<char>)
    requires
        is_clean(v),
    ensures
        all_ok(field_line("File Size: "@, v)),
        read_all(field_line("File Size: "@, v), st) == (if v.len() > 0 {
            Fields { file_size: v, ..st }
        } else {
            st
        }),
{
    lemma_words();
    let line = "File Size: "@ + v;
    lemma_read_one(line, st);
    if v.len() > 0 {
        lemma_label_value("File Size: "@, v);
        lemma_plain_line(line);
        lemma_no_prefix(line, "Category: "@, 0);
        lemma_no_prefix(line, "Uploader: "@, 0);
        lemma_no_prefix(line, "Posted: "@, 0);
        lemma_no_prefix(line, "Language: "@, 0);
        assert(field_line("File Size: "@, v)[0] == line);
    }
}

/// The digits of a number above zero, followed by a unit, spell the number
/// as a count.
pub proof fn lemma_count_reads_back(n: i64, unit: Seq<char>)
    requires
        n > 0,
        unit.len() > 0,
        unit[0] == ' ',
    ensures
        leading_int(decimal_digits(n as nat) + unit) == n,
        decimal_digits(n as nat).len() > 0,
        is_digit(decimal_digits(n as nat)[0]),
        no_newline(decimal_digits(n as nat)),
{
    let digits = decimal_digits(n as nat);
    let val = digits + unit;
    lemma_decimal_round_trip(n as nat);
    assert forall|j: int| 0 <= j < digits.len() implies !is_space(#[trigger] val[j]) by {
        assert(val[j] == digits[j]);
        assert(is_digit(digits[j]));
    }
    assert(val[digits.len() as int] == unit[0]);
    assert(is_digit(digits[0]));
    assert(val[0] == digits[0]);
    assert(trim_start(val) == val);
    lemma_token_len(val, digits.len() as int);
    assert(val.take(digits.len() as int) =~= digits);
    assert(first_token(val) == digits);
    assert forall|i: int| 0 <= i < digits.len() implies #[trigger] digits[i] != '\n' by {
        assert(is_digit(digits[i]));
    }
}

/// The line of a count is read as that count.
pub proof fn lemma_count_line(label: Seq<char>, n: i64, unit: Seq<char>)
    requires
        n >= 0,
        label.len() >= 2,
        no_newline(label),
        !is_space(label[0]),
        unit.len() == 6,
        unit[0] == ' ',
        unit[5] == 's',
        no_newline(unit),
    ensures
        n > 0 ==> ({
            let line = label + decimal_digits(n as nat) + unit;
            &&& line.len() >= 2
            &&& line[0] == label[0]
            &&& line[1] == label[1]
            &&& no_newline(line)
            &&& !is_space(line[0])
            &&& !is_space(line.last())
            &&& trimmed(line) == line
            &&& after_prefix(line, label) == Some(decimal_digits(n as nat) + unit)
            &&& leading_int(decimal_digits(n as nat) + unit) == n
        }),
{
    if n > 0 {
        let digits = decimal_digits(n as nat);
        let line = label + digits + unit;
        lemma_count_reads_back(n, unit);
        assert(line.last() == unit[5]);
        lemma_trimmed_same(line);
        assert(line.subrange(0, label.len() as int) =~= label);
        assert(line.skip(label.len() as int) =~= digits + unit);
        assert forall|i: int| 0 <= i < line.len() implies #[trigger] line[i] != '\n' by {
            if i < label.len() {
                assert(line[i] == label[i]);
            } else if i < label.len() + digits.len() {
                assert(line[i] == digits[i - label.len()]);
            } else {
                assert(line[i] == unit[i - label.len() - digits.len()]);
            }
        }
    }
}

/// The line of the page count is read as the page count.
pub proof fn lemma_length_line(st: Fields, n: i64)
    requires
        n >= 0,
    ensures
        all_ok(count_line("Length: "@, n, " pages"@)),
        read_all(count_line("Length: "@, n, " pages"@), st) == (if n > 0 {
            Fields { page_count: n, ..st }
        } else {
            st
        }),
{
    lemma_words();
    let line = "Length: "@ + decimal_digits(n as nat) + " pages"@;
    lemma_read_one(line, st);
    lemma_count_line("Length: "@, n, " pages"@);
    if n > 0 {
        lemma_plain_line(line);
        lemma_no_prefix(line, "Category: "@, 0);
        lemma_no_prefix(line, "Uploader: "@, 0);
        lemma_no_prefix(line, "Posted: "@, 0);
        lemma_no_prefix(line, "Language: "@, 1);
        lemma_no_prefix(line, "File Size: "@, 0);
        assert(count_line("Length: "@, n, " pages"@)[0] == line);
    }
}

/// The line of the count of favourites is read as that count.
pub proof fn lemma_favorited_line(st: Fields, n: i64)
    requires
        n >= 0,
    ensures
        all_ok(count_line("Favorited: "@, n, " times"@)),
        read_all(count_line("Favorited: "@, n, " times"@), st) == (if n > 0 {
            Fields { favorited: n, ..st }
        } else {
            st
        }),
{
    lemma_words();
    let line = "Favorited: "@ + decimal_digits(n as nat) + " times"@;
    lemma_read_one(line, st);
    lemma_count_line("Favorited: "@, n, " times"@);
    if n > 0 {
        lemma_plain_line(line);
        lemma_no_prefix(line, "Category: "@, 0);
        lemma_no_prefix(line, "Uploader: "@, 0);
        lemma_no_prefix(line, "Posted: "@, 0);
        lemma_no_prefix(line, "Language: "@, 0);
        lemma_no_prefix(line, "File Size: "@, 1);
        lemma_no_prefix(line, "Length: "@, 0);
        lemma_no_prefix(line, "Rating: "@, 0);
        assert(count_line("Favorited: "@, n, " times"@)[0] == line);
    }
}


/// A rating of up to five stars, written with two decimal places, spells
/// itself.
pub proof fn lemma_rating_reads_back(r: u32)
    requires
        r <= MAX_RATING,
    ensures
        rating_text(r).len() == 4,
        is_digit(rating_text(r)[0]),
        is_digit(rating_text(r)[3]),
        no_newline(rating_text(r)),
        rating_spec(rating_text(r)) == r,
{
    let q = (r / 100) as nat;
    let a = ((r % 100) / 10) as nat;
    let b = (r % 10) as nat;
    let t = rating_text(r);
    let point = seq!['.'];
    assert(decimal_digits(q) =~= seq![digit_char(q)]);
    assert(t =~= seq![digit_char(q), '.', digit_char(a), digit_char(b)]);
    assert(t.subrange(1, 2) =~= point);
    assert(matches_at(t, 1, point));
    assert forall|j: int| 0 <= j < 1 implies !#[trigger] matches_at(t, j, point) by {
        if matches_at(t, j, point) {
            assert(t.subrange(0, 1)[0] == t[0]);
        }
    }
    lemma_find_from_at(t, point, 0, 1);
    let whole = t.take(1);
    let frac = t.skip(2);
    assert(whole =~= seq![digit_char(q)]);
    assert(frac =~= seq![digit_char(a), digit_char(b)]);
    assert(whole.drop_last() =~= Seq::<char>::empty());
    assert(decimal_value(whole.drop_last()) == 0);
    assert(decimal_value(whole) == q);
    assert(frac_hundredths(frac) == a * 10 + b);
    assert(all_digits(whole));
    assert(all_digits(frac));
}

/// The line of the rating is read as the rating.
pub proof fn lemma_rating_line(st: Fields, r: u32)
    requires
        r <= MAX_RATING,
    ensures
        line_ok(rating_line(r)),
        read_all(seq![rating_line(r)], st) == (Fields { rating: r, ..st }),
{
    lemma_words();
    let v = rating_text(r);
    let line = rating_line(r);
    lemma_rating_reads_back(r);
    lemma_trimmed_same(v);
    lemma_label_value("Rating: "@, v);
    lemma_read_one(line, st);
    lemma_plain_line(line);
    lemma_no_prefix(line, "Category: "@, 0);
    lemma_no_prefix(line, "Uploader: "@, 0);
    lemma_no_prefix(line, "Posted: "@, 0);
    lemma_no_prefix(line, "Language: "@, 0);
    lemma_no_prefix(line, "File Size: "@, 0);
    lemma_no_prefix(line, "Length: "@, 0);
}

/// The line that opens the tag block opens it.
pub proof fn lemma_tags_line(st: Fields)
    ensures
        line_ok("Tags:"@),
        read_all(seq!["Tags:"@], st) == (Fields { in_tags: true, ..st }),
{
    lemma_words();
    let line = "Tags:"@;
    assert(line.last() == line[4]);
    lemma_trimmed_same(line);
    lemma_read_one(line, st);
    lemma_plain_line(line);
    lemma_no_prefix(line, "Category: "@, 0);
    lemma_no_prefix(line, "Uploader: "@, 0);
    lemma_no_prefix(line, "Posted: "@, 0);
    lemma_no_prefix(line, "Language: "@, 0);
    lemma_no_prefix(line, "File Size: "@, 0);
    lemma_no_prefix(line, "Length: "@, 0);
    lemma_no_prefix(line, "Rating: "@, 0);
    lemma_no_prefix(line, "Favorited: "@, 0);
}

/// The tag `t` can be written: namespace and tag are on one line and
/// trimmed, the tag is not empty, the namespace holds no colon with a blank
/// after it and the tag no comma with a blank after it.
pub open spec fn tag_ok(t: TagPair) -> bool {
    &&& is_clean(t.0)
    &&& is_clean(t.1)
    &&& t.1.len() > 0
    &&& lacks(t.0, ": "@)
    &&& lacks(t.1, ", "@)
}

/// The tags of `run`, without their namespaces.
pub open spec fn texts_of(run: Seq<TagPair>) -> Seq<Seq<char>> {
    run.map_values(|t: TagPair| t.1)
}

/// A run of tags is not empty, no longer than the tags, and of one
/// namespace.
pub proof fn lemma_tag_run_is_a_run(tags: Seq<TagPair>)
    requires
        tags.len() > 0,
    ensures
        0 < tag_run(tags) <= tags.len(),
        forall|j: int| 0 <= j < tag_run(tags) ==> (#[trigger] tags[j]).0 == tags[0].0,
    decreases tags.len(),
{
    if tags.len() >= 2 && tags[1].0 == tags[0].0 {
        let rest = tags.drop_first();
        lemma_tag_run_is_a_run(rest);
        assert forall|j: int| 0 <= j < tag_run(tags) implies (#[trigger] tags[j]).0
            == tags[0].0 by {
            if j > 0 {
                assert(rest[j - 1] == tags[j]);
                assert(rest[0] == tags[1]);
            }
        }
    }
}

/// Tags that are joined are on one line, and trimming leaves them as they
/// are.
pub proof fn lemma_joined_clean(run: Seq<TagPair>)
    requires
        run.len() > 0,
        forall|k: int| 0 <= k < run.len() ==> tag_ok(#[trigger] run[k]),
    ensures
        joined_tags(run).len() > 0,
        no_newline(joined_tags(run)),
        !is_space(joined_tags(run).last()),
    decreases run.len(),
{
    lemma_words();
    let t = run[0].1;
    lemma_trimmed_ends(t);
    if run.len() > 1 {
        let rest = run.drop_first();
        assert forall|k: int| 0 <= k < rest.len() implies tag_ok(#[trigger] rest[k]) by {
            assert(rest[k] == run[k + 1]);
        }
        lemma_joined_clean(rest);
        let tail = joined_tags(rest);
        let all = joined_tags(run);
        assert(all == t + ", "@ + tail);
        assert(all.last() == tail.last());
        assert forall|i: int| 0 <= i < all.len() implies #[trigger] all[i] != '\n' by {
            if i < t.len() {
                assert(all[i] == t[i]);
            } else if i < t.len() + 2 {
                assert(all[i] == ", "@[i - t.len()]);
            } else {
                assert(all[i] == tail[i - t.len() - 2]);
            }
        }
    }
}

/// Tags that are joined come apart again.
pub proof fn lemma_split_joined(run: Seq<TagPair>)
    requires
        run.len() > 0,
        forall|k: int| 0 <= k < run.len() ==> tag_ok(#[trigger] run[k]),
    ensures
        split_on(joined_tags(run), ", "@) == texts_of(run),
    decreases run.len(),
{
    lemma_words();
    let t = run[0].1;
    if run.len() == 1 {
        lemma_find_none(t, ", "@);
        assert(texts_of(run) =~= seq![t]);
    } else {
        let rest = run.drop_first();
        assert forall|k: int| 0 <= k < rest.len() implies tag_ok(#[trigger] rest[k]) by {
            assert(rest[k] == run[k + 1]);
        }
        lemma_split_joined(rest);
        let tail = joined_tags(rest);
        let all = joined_tags(run);
        assert(all == t + ", "@ + tail);
        lemma_find_first_sep(t, ", "@, tail);
        assert(all.take(t.len() as int) =~= t);
        assert(all.skip(t.len() as int + 2) =~= tail);
        assert(split_on(all, ", "@) == seq![t] + split_on(tail, ", "@));
        assert(texts_of(run) =~= seq![t] + texts_of(rest));
    }
}

/// Tags of one namespace, read from their texts, are the tags.
pub proof fn lemma_tags_from_texts(ns: Seq<char>, run: Seq<TagPair>)
    requires
        forall|k: int| 0 <= k < run.len() ==> tag_ok(#[trigger] run[k]) && run[k].0 == ns,
    ensures
        tags_from(ns, texts_of(run)) == run,
    decreases run.len(),
{
    let texts = texts_of(run);
    if run.len() == 0 {
        assert(tags_from(ns, texts) =~= run);
    } else {
        let before = run.drop_last();
        assert forall|k: int| 0 <= k < before.len() implies tag_ok(#[trigger] before[k])
            && before[k].0 == ns by {
            assert(before[k] == run[k]);
        }
        lemma_tags_from_texts(ns, before);
        assert(texts.drop_last() =~= texts_of(before));
        assert(texts.last() == run.last().1);
        assert(tag_ok(run.last()));
        assert(before.push((ns, run.last().1)) =~= run);
    }
}

/// The line of a run of tags is read as those tags.
pub proof fn lemma_tag_line(st: Fields, run: Seq<TagPair>)
    requires
        run.len() > 0,
        forall|k: int| 0 <= k < run.len() ==> tag_ok(#[trigger] run[k]) && run[k].0 == run[0].0,
        st.in_tags,
    ensures
        line_ok(tag_line(run)),
        read_all(seq![tag_line(run)], st) == (Fields { tags: st.tags + run, ..st }),
{
    lemma_words();
    let ns = run[0].0;
    let joined = joined_tags(run);
    let line = tag_line(run);
    let body = ns + ": "@ + joined;
    lemma_joined_clean(run);
    assert(tag_ok(run[0]));
    assert(line.last() == joined.last());
    assert(line[0] == '>');
    lemma_trimmed_same(line);
    lemma_read_one(line, st);
    lemma_plain_line(line);
    lemma_unlabelled(line);
    assert(line.subrange(0, 2) =~= "> "@);
    assert(line.skip(2) =~= body);
    assert(after_prefix(line, "> "@) == Some(body));
    assert forall|i: int| 0 <= i < line.len() implies #[trigger] line[i] != '\n' by {
        if i < 2 {
        } else if i < 2 + ns.len() {
            assert(line[i] == ns[i - 2]);
        } else if i < 4 + ns.len() {
            assert(line[i] == ": "@[i - 2 - ns.len()]);
        } else {
            assert(line[i] == joined[i - 4 - ns.len()]);
        }
    }
    lemma_find_first_sep(ns, ": "@, joined);
    assert(body.take(ns.len() as int) =~= ns);
    assert(body.skip(ns.len() as int + 2) =~= joined);
    lemma_split_joined(run);
    lemma_tags_from_texts(ns, run);
    assert(tag_pairs(body) == run);
}

/// The lines of tags are read as those tags, in their order.
pub proof fn lemma_tag_lines(st: Fields, tags: Seq<TagPair>)
    requires
        st.in_tags,
        forall|k: int| 0 <= k < tags.len() ==> tag_ok(#[trigger] tags[k]),
    ensures
        all_ok(tag_lines(tags)),
        read_all(tag_lines(tags), st) == (Fields { tags: st.tags + tags, ..st }),
    decreases tags.len(),
{
    let lines = tag_lines(tags);
    if tags.len() == 0 {
        assert(lines =~= Seq::<Seq<char>>::empty());
        assert(st.tags + tags =~= st.tags);
    } else {
        lemma_tag_run_is_a_run(tags);
        let k = tag_run(tags) as int;
        let run = tags.take(k);
        let rest = tags.skip(k);
        let next = Fields { tags: st.tags + run, ..st };
        assert forall|j: int| 0 <= j < run.len() implies tag_ok(#[trigger] run[j]) && run[j].0
            == run[0].0 by {
            assert(run[j] == tags[j]);
            assert(run[0] == tags[0]);
        }
        lemma_tag_line(st, run);
        assert forall|j: int| 0 <= j < rest.len() implies tag_ok(#[trigger] rest[j]) by {
            assert(rest[j] == tags[j + k]);
        }
        lemma_tag_lines(next, rest);
        assert(lines == seq![tag_line(run)] + tag_lines(rest));
        lemma_read_all_add(seq![tag_line(run)], tag_lines(rest), st);
        assert(st.tags + run + rest =~= st.tags + tags);
        assert forall|i: int| 0 <= i < lines.len() implies line_ok(#[trigger] lines[i]) by {
            if i > 0 {
                assert(lines[i] == tag_lines(rest)[i - 1]);
            }
        }
    }
}

/// The line of the source address names no field.
pub proof fn lemma_url_line(st: Fields, url: Seq<char>)
    requires
        url.len() == 0 || is_gallery_url(url),
        trimmed(url) == url,
        !st.in_tags,
    ensures
        read_all(seq![url], st) == st,
        !ends_fields(trimmed(url)),
{
    lemma_words();
    lemma_read_one(url, st);
    if url.len() > 0 {
        if has_prefix(url, "https://exhentai.org"@) {
            assert(url.subrange(0, 20)[0] == url[0]);
            assert(url.subrange(0, 20)[1] == url[1]);
        } else {
            assert(url.subrange(0, 20)[0] == url[0]);
            assert(url.subrange(0, 20)[1] == url[1]);
        }
        assert(url[0] == 'h');
    }
    lemma_unlabelled(url);
    lemma_no_prefix(url, "Page 1:"@, 0);
    lemma_no_prefix(url, "Downloaded at"@, 0);
}


/// The record `info` keeps to the form of a sidecar. Its titles, address
/// and fields are on one line and trimmed; its titles are no addresses;
/// its address is empty or one of a known host; its counts are not below
/// zero and its rating is not above five stars; and each of its tags can
/// be written.
pub open spec fn is_writable(info: ParsedInfo) -> bool {
    &&& is_clean(info.title_en) && !is_gallery_url(info.title_en)
    &&& is_clean(info.title_jp) && !is_gallery_url(info.title_jp)
    &&& is_clean(info.url) && (info.url.len() == 0 || is_gallery_url(info.url))
    &&& is_clean(info.category)
    &&& is_clean(info.uploader)
    &&& is_clean(info.posted)
    &&& is_clean(info.language)
    &&& is_clean(info.file_size)
    &&& info.page_count >= 0
    &&& info.favorited >= 0
    &&& info.rating <= MAX_RATING
    &&& forall|k: int| 0 <= k < info.tags.len() ==> tag_ok(#[trigger] info.tags[k])
}

/// A text that is on one line and trimmed does not end with a carriage
/// return.
pub proof fn lemma_clean_line(s: Seq<char>)
    requires
        is_clean(s),
    ensures
        s.len() == 0 || s.last() != '\r',
{
    if s.len() > 0 {
        lemma_trimmed_ends(s);
    }
}

/// The lines of the fields are read as the fields: after them the state
/// holds every field of `info`, and the tag block is open.
pub proof fn lemma_field_lines_read_back(info: ParsedInfo)
    requires
        is_writable(info),
    ensures
        all_ok(field_lines(info)),
        field_lines(info).len() >= 2,
        read_all(field_lines(info), no_fields()) == (Fields {
            category: info.category,
            uploader: info.uploader,
            posted: info.posted,
            language: info.language,
            file_size: info.file_size,
            page_count: info.page_count,
            rating: info.rating,
            favorited: info.favorited,
            tags: info.tags,
            in_tags: true,
        }),
{
    lemma_words();
    let s0 = no_fields();
    let part1 = field_line("Category: "@, info.category);
    let part2 = field_line("Uploader: "@, info.uploader);
    let part3 = field_line("Posted: "@, info.posted);
    let part4 = field_line("Language: "@, info.language);
    let part5 = field_line("File Size: "@, info.file_size);
    let part6 = count_line("Length: "@, info.page_count, " pages"@);
    let part7 = seq![rating_line(info.rating)];
    let part8 = count_line("Favorited: "@, info.favorited, " times"@);
    let part9 = seq!["Tags:"@];
    let part10 = tag_lines(info.tags);
    let c2 = part1 + part2;
    let c3 = c2 + part3;
    let c4 = c3 + part4;
    let c5 = c4 + part5;
    let c6 = c5 + part6;
    let c7 = c6 + part7;
    let c8 = c7 + part8;
    let c9 = c8 + part9;
    let c10 = c9 + part10;
    assert(field_lines(info) == c10);

    lemma_category_line(s0, info.category);
    let s1 = read_all(part1, s0);
    assert(s1.category =~= info.category);
    assert(s1 == Fields { category: info.category, ..s0 });

    lemma_uploader_line(s1, info.uploader);
    lemma_read_all_add(part1, part2, s0);
    lemma_all_ok_add(part1, part2);
    let s2 = read_all(c2, s0);
    assert(s2.uploader =~= info.uploader);
    assert(s2 == Fields { uploader: info.uploader, ..s1 });

    lemma_posted_line(s2, info.posted);
    lemma_read_all_add(c2, part3, s0);
    lemma_all_ok_add(c2, part3);
    let s3 = read_all(c3, s0);
    assert(s3.posted =~= info.posted);
    assert(s3 == Fields { posted: info.posted, ..s2 });

    lemma_language_line(s3, info.language);
    lemma_read_all_add(c3, part4, s0);
    lemma_all_ok_add(c3, part4);
    let s4 = read_all(c4, s0);
    assert(s4.language =~= info.language);
    assert(s4 == Fields { language: info.language, ..s3 });

    lemma_file_size_line(s4, info.file_size);
    lemma_read_all_add(c4, part5, s0);
    lemma_all_ok_add(c4, part5);
    let s5 = read_all(c5, s0);
    assert(s5.file_size =~= info.file_size);
    assert(s5 == Fields { file_size: info.file_size, ..s4 });

    lemma_length_line(s5, info.page_count);
    lemma_read_all_add(c5, part6, s0);
    lemma_all_ok_add(c5, part6);
    let s6 = read_all(c6, s0);
    assert(s6 == Fields { page_count: info.page_count, ..s5 });

    lemma_rating_line(s6, info.rating);
    assert(all_ok(part7));
    lemma_read_all_add(c6, part7, s0);
    lemma_all_ok_add(c6, part7);
    let s7 = read_all(c7, s0);
    assert(s7 == Fields { rating: info.rating, ..s6 });

    lemma_favorited_line(s7, info.favorited);
    lemma_read_all_add(c7, part8, s0);
    lemma_all_ok_add(c7, part8);
    let s8 = read_all(c8, s0);
    assert(s8 == Fields { favorited: info.favorited, ..s7 });

    lemma_tags_line(s8);
    assert(all_ok(part9));
    lemma_read_all_add(c8, part9, s0);
    lemma_all_ok_add(c8, part9);
    let s9 = read_all(c9, s0);
    assert(s9 == Fields { in_tags: true, ..s8 });

    lemma_tag_lines(s9, info.tags);
    lemma_read_all_add(c9, part10, s0);
    lemma_all_ok_add(c9, part10);
    let s10 = read_all(c10, s0);
    assert(s9.tags + info.tags =~= info.tags);
    assert(s10 == Fields { tags: info.tags, ..s9 });
    assert(c10.len() >= c7.len() && c7.len() >= 1 && c9.len() == c8.len() + 1 && c8.len()
        >= c7.len());
}

/// A written record reads back as itself: the sidecar text that is written
/// for a record that keeps to the form of a sidecar has five lines or more,
/// and reading it gives the record again, every field and every tag, the
/// tags in their order.
pub proof fn lemma_written_reads_back(info: ParsedInfo)
    requires
        is_writable(info),
    ensures
        lines_of(info_text(info)) == info_lines(info),
        info_lines(info).len() >= 5,
        parse_info(info_text(info)) == Some(info),
{
    lemma_words();
    let fields = field_lines(info);
    let head = seq![info.title_en, info.title_jp, info.url];
    let lines = info_lines(info);
    lemma_field_lines_read_back(info);
    lemma_clean_line(info.title_en);
    lemma_clean_line(info.title_jp);
    lemma_clean_line(info.url);
    assert forall|i: int| 0 <= i < lines.len() implies no_newline(#[trigger] lines[i]) && (
    lines[i].len() == 0 || lines[i].last() != '\r') by {
        if i >= 3 {
            assert(lines[i] == fields[i - 3]);
            assert(line_ok(fields[i - 3]));
        }
    }
    lemma_lines_of_unlines(lines);
    assert(lines[0] == info.title_en && lines[1] == info.title_jp && lines[2] == info.url);
    assert(lines[3] == fields[0] && lines[4] == fields[1]);
    assert(line_ok(fields[0]) && line_ok(fields[1]));
    assert(url_from(lines, 0) == info.url) by {
        if info.url.len() == 0 {
            lemma_no_prefix(info.url, "https://exhentai.org"@, 0);
            lemma_no_prefix(info.url, "https://e-hentai.org"@, 0);
            assert(url_from(lines, 5) =~= info.url);
            assert(url_from(lines, 4) == url_from(lines, 5));
            assert(url_from(lines, 3) == url_from(lines, 4));
            assert(url_from(lines, 2) == url_from(lines, 3));
        } else {
            assert(url_from(lines, 2) == info.url);
        }
        assert(url_from(lines, 1) == url_from(lines, 2));
        assert(url_from(lines, 0) == url_from(lines, 1));
    }
    let body = lines.skip(2);
    assert(body =~= seq![info.url] + fields);
    lemma_url_line(no_fields(), info.url);
    assert forall|i: int| 0 <= i < body.len() implies !ends_fields(trimmed(#[trigger] body[i])) by {
        if i > 0 {
            assert(body[i] == fields[i - 1]);
            assert(line_ok(fields[i - 1]));
            lemma_trimmed_same(body[i]);
        }
    }
    lemma_read_lines_all(body, no_fields());
    lemma_read_all_add(seq![info.url], fields, no_fields());
}

/// Whatever the record, five lines or more are written for it.
pub proof fn lemma_written_has_five_lines(info: ParsedInfo)
    ensures
        info_lines(info).len() >= 5,
{
    let c7 = field_line("Category: "@, info.category) + field_line("Uploader: "@, info.uploader)
        + field_line("Posted: "@, info.posted) + field_line("Language: "@, info.language)
        + field_line("File Size: "@, info.file_size) + count_line(
        "Length: "@,
        info.page_count,
        " pages"@,
    ) + seq![rating_line(info.rating)];
    let c8 = c7 + count_line("Favorited: "@, info.favorited, " times"@);
    let c9 = c8 + seq!["Tags:"@];
    assert(c7.len() >= 1);
    assert(c9.len() >= 2);
    assert(field_lines(info) == c9 + tag_lines(info.tags));
}


/// A text followed by a line feed and more text has at least one line more
/// than what follows the line feed.
pub proof fn lemma_lines_after_line_feed(a: Seq<char>, b: Seq<char>)
    ensures
        lines_of(a + seq!['\n'] + b).len() >= 1 + lines_of(b).len(),
    decreases a.len(),
{
    let nl = seq!['\n'];
    let s = a + nl + b;
    let n = a.len() as int;
    assert(s.subrange(n, n + 1) =~= nl);
    assert(matches_at(s, n, nl));
    lemma_find_from_is_first(s, nl, 0);
    match find_sub(s, nl) {
        None => {},
        Some(i) => {
            assert(0 <= i <= n);
            if i == n {
                assert(s.skip(n + 1) =~= b);
            } else {
                let rest = a.skip(i + 1);
                assert(s.skip(i + 1) =~= rest + nl + b);
                lemma_lines_after_line_feed(rest, b);
            }
        },
    }
}

/// The text of lines has at least as many lines as were put into it.
pub proof fn lemma_unlines_has_the_lines(lines: Seq<Seq<char>>)
    ensures
        lines_of(unlines(lines)).len() >= lines.len(),
    decreases lines.len(),
{
    if lines.len() > 0 {
        let rest = lines.drop_first();
        assert(lines =~= seq![lines[0]] + rest);
        lemma_unlines_first(lines[0], rest);
        lemma_unlines_has_the_lines(rest);
        lemma_lines_after_line_feed(lines[0], unlines(rest));
    }
}

/// What is written can be read: whatever the record, the text that is
/// written for it has five lines or more, and reading it gives a record.
pub proof fn lemma_written_can_be_read(info: ParsedInfo)
    ensures
        lines_of(info_text(info)).len() >= 5,
        parse_info(info_text(info)) is Some,
{
    lemma_written_has_five_lines(info);
    lemma_unlines_has_the_lines(info_lines(info));
}


} // verus!
