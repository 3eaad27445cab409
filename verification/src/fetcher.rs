//! Metadata that comes from the gallery host: the cookie file that opens
//! the host, and the sidecar text that is written from what was fetched.
//!
//! What was fetched is never put into the catalog directly. It is written
//! to the sidecar, and the sidecar is read again. What is written can
//! always be read and, where the record keeps to the form of a sidecar,
//! reads back as itself.

use crate::models::{pairs_view, ParsedGallery, ParsedInfo, TagPair};
use crate::text::followed_by;
use crate::numbers::{decimal_digits, digit_char, push_decimal};
use crate::parser::parse_info;
use crate::sidecar::{is_writable, lemma_written_can_be_read, lemma_written_reads_back};
use crate::text::{
    chars_of, has_prefix, lines, lines_of, rows, same_chars, split, split_on, starts_with,
    string_of, subvec, trim, trimmed,
};
use vstd::prelude::*;

verus! {

/// The rating `r`, which is in hundredths, written with two decimal places.
pub open spec fn rating_text(r: u32) -> Seq<char> {
    decimal_digits((r / 100) as nat) + seq![
        '.',
        digit_char(((r % 100) / 10) as nat),
        digit_char((r % 10) as nat),
    ]
}

/// The text in which each of `lines` is followed by a line feed.
pub open spec fn unlines(lines: Seq<Seq<char>>) -> Seq<char>
    decreases lines.len(),
{
    if lines.len() == 0 {
        seq![]
    } else {
        unlines(lines.drop_last()) + lines.last() + seq!['\n']
    }
}

/// The line `label` and `value`; no line for an empty value.
pub open spec fn field_line(label: Seq<char>, value: Seq<char>) -> Seq<Seq<char>> {
    if value.len() > 0 {
        seq![label + value]
    } else {
        seq![]
    }
}

/// The line `label`, the number `n` and `unit`; no line for a number that
/// is not above zero.
pub open spec fn count_line(label: Seq<char>, n: i64, unit: Seq<char>) -> Seq<Seq<char>> {
    if n > 0 {
        seq![label + decimal_digits(n as nat) + unit]
    } else {
        seq![]
    }
}

/// The line that gives the rating `r`.
pub open spec fn rating_line(r: u32) -> Seq<char> {
    "Rating: "@ + rating_text(r)
}

/// The number of tags at the start of `tags` that have the namespace of the
/// first of them.
pub open spec fn tag_run(tags: Seq<TagPair>) -> nat
    decreases tags.len(),
{
    if tags.len() == 0 {
        0
    } else if tags.len() >= 2 && tags[1].0 == tags[0].0 {
        1 + tag_run(tags.drop_first())
    } else {
        1
    }
}

/// The tags of `run`, joined by a comma and a blank.
pub open spec fn joined_tags(run: Seq<TagPair>) -> Seq<char>
    decreases run.len(),
{
    if run.len() == 0 {
        seq![]
    } else if run.len() == 1 {
        run[0].1
    } else {
        run[0].1 + ", "@ + joined_tags(run.drop_first())
    }
}

/// The line that gives the tags of `run`, which have one namespace.
pub open spec fn tag_line(run: Seq<TagPair>) -> Seq<char> {
    "> "@ + run[0].0 + ": "@ + joined_tags(run)
}

/// The lines that give `tags`, in order: one line for each run of tags
/// that follow one another and have one namespace.
pub open spec fn tag_lines(tags: Seq<TagPair>) -> Seq<Seq<char>>
    decreases tags.len(),
{
    let k = tag_run(tags) as int;
    if 0 < k <= tags.len() {
        seq![tag_line(tags.take(k))] + tag_lines(tags.skip(k))
    } else {
        seq![]
    }
}

/// A run ends where the namespace changes, or the tags end.
pub proof fn lemma_tag_run(tags: Seq<TagPair>, k: int)
    requires
        0 < k <= tags.len(),
        forall|j: int| 0 <= j < k ==> (#[trigger] tags[j]).0 == tags[0].0,
        k == tags.len() || tags[k].0 != tags[0].0,
    ensures
        tag_run(tags) == k,
    decreases k,
{
    if k > 1 {
        let rest = tags.drop_first();
        assert(tags[1].0 == tags[0].0);
        assert forall|j: int| 0 <= j < k - 1 implies (#[trigger] rest[j]).0 == rest[0].0 by {
            assert(rest[j] == tags[j + 1]);
            assert(rest[0] == tags[1]);
        }
        if k < tags.len() {
            assert(rest[k - 1] == tags[k]);
            assert(rest[0] == tags[1]);
        }
        lemma_tag_run(rest, k - 1);
    } else {
        if tags.len() >= 2 {
            assert(tags[1].0 != tags[0].0);
        }
    }
}

/// One more tag is joined with a comma and a blank before it.
pub proof fn lemma_joined_push(run: Seq<TagPair>, t: TagPair)
    requires
        run.len() > 0,
    ensures
        joined_tags(run.push(t)) == joined_tags(run) + ", "@ + t.1,
    decreases run.len(),
{
    let all = run.push(t);
    assert(all.drop_first() =~= run.drop_first().push(t));
    assert(all[0] == run[0]);
    if run.len() == 1 {
        assert(run.drop_first().push(t) =~= seq![t]);
        assert(joined_tags(seq![t]) == t.1);
        assert(joined_tags(all) == run[0].1 + ", "@ + t.1);
    } else {
        lemma_joined_push(run.drop_first(), t);
        assert(joined_tags(all) =~= joined_tags(run) + ", "@ + t.1);
    }
}

/// The lines that follow the titles and the source address: a line for
/// each field that is set, the rating, the line that opens the tag block,
/// and the lines of the tags.
pub open spec fn field_lines(info: ParsedInfo) -> Seq<Seq<char>> {
    field_line("Category: "@, info.category) + field_line("Uploader: "@, info.uploader)
        + field_line("Posted: "@, info.posted) + field_line("Language: "@, info.language)
        + field_line("File Size: "@, info.file_size) + count_line(
        "Length: "@,
        info.page_count,
        " pages"@,
    ) + seq![rating_line(info.rating)] + count_line("Favorited: "@, info.favorited, " times"@)
        + seq!["Tags:"@] + tag_lines(info.tags)
}

/// The lines of the sidecar that holds `info`: the two titles, the source
/// address, and the lines of the fields. There are always five or more.
pub open spec fn info_lines(info: ParsedInfo) -> Seq<Seq<char>> {
    seq![info.title_en, info.title_jp, info.url] + field_lines(info)
}

/// The sidecar text that holds `info`.
pub open spec fn info_text(info: ParsedInfo) -> Seq<char> {
    unlines(info_lines(info))
}

fn push_text(out: &mut Vec<char>, text: &str)
    ensures
        final(out)@ == old(out)@ + text@,
{
    let mut chars = chars_of(text);
    out.append(&mut chars);
}

fn push_field(lines: &mut Vec<Vec<char>>, label: &str, value: &String)
    ensures
        rows(final(lines)@) == rows(old(lines)@) + field_line(label@, value@),
{
    let ghost before = rows(lines@);
    if !value.as_str().is_empty() {
        let mut line = chars_of(label);
        push_text(&mut line, value.as_str());
        lines.push(line);
        proof {
            assert(rows(lines@) =~= before + seq![label@ + value@]);
        }
    } else {
        proof {
            assert(before + Seq::<Seq<char>>::empty() =~= before);
        }
    }
}

fn push_count(lines: &mut Vec<Vec<char>>, label: &str, n: i64, unit: &str)
    ensures
        rows(final(lines)@) == rows(old(lines)@) + count_line(label@, n, unit@),
{
    let ghost before = rows(lines@);
    if n > 0 {
        let mut line = chars_of(label);
        push_decimal(&mut line, n as u64);
        push_text(&mut line, unit);
        lines.push(line);
        proof {
            assert(rows(lines@) =~= before + seq![label@ + decimal_digits(n as nat) + unit@]);
        }
    } else {
        proof {
            assert(before + Seq::<Seq<char>>::empty() =~= before);
        }
    }
}

fn rating_chars(r: u32) -> (line: Vec<char>)
    ensures
        line@ == rating_line(r),
{
    let mut line = chars_of("Rating: ");
    push_decimal(&mut line, (r / 100) as u64);
    let mut tail: Vec<char> = Vec::new();
    tail.push('.');
    push_decimal(&mut tail, ((r % 100) / 10) as u64);
    push_decimal(&mut tail, (r % 10) as u64);
    proof {
        assert(tail@ =~= seq![
            '.',
            digit_char(((r % 100) / 10) as nat),
            digit_char((r % 10) as nat),
        ]);
    }
    line.append(&mut tail);
    proof {
        assert(line@ =~= rating_line(r));
    }
    line
}

fn push_tag_lines(lines: &mut Vec<Vec<char>>, tags: &Vec<(String, String)>)
    ensures
        rows(final(lines)@) == rows(old(lines)@) + tag_lines(pairs_view(tags@)),
{
    let ghost before = rows(lines@);
    let ghost tv = pairs_view(tags@);
    let n = tags.len();
    let mut i: usize = 0;
    proof {
        assert(tv.skip(0) =~= tv);
    }
    while i < n
        invariant
            i <= n == tags.len(),
            tv == pairs_view(tags@),
            rows(lines@) + tag_lines(tv.skip(i as int)) == before + tag_lines(tv),
        decreases n - i,
    {
        let ghost rest = tv.skip(i as int);
        proof {
            assert(tv[i as int] == (tags@[i as int].0@, tags@[i as int].1@));
            assert(rest[0] == tv[i as int]);
        }
        let mut line = chars_of("> ");
        push_text(&mut line, tags[i].0.as_str());
        push_text(&mut line, ": ");
        push_text(&mut line, tags[i].1.as_str());
        let ghost head = "> "@ + tv[i as int].0 + ": "@;
        let mut j: usize = i + 1;
        proof {
            assert(rest.take(1) =~= seq![tv[i as int]]);
            assert(joined_tags(rest.take(1)) == tv[i as int].1);
            assert(line@ =~= head + joined_tags(rest.take(1)));
        }
        while j < n && tags[j].0 == tags[i].0
            invariant
                i < j <= n == tags.len(),
                tv == pairs_view(tags@),
                rest == tv.skip(i as int),
                head == "> "@ + tv[i as int].0 + ": "@,
                forall|k: int| 0 <= k < j - i ==> (#[trigger] rest[k]).0 == rest[0].0,
                line@ == head + joined_tags(rest.take(j - i)),
            decreases n - j,
        {
            proof {
                assert(tv[j as int] == (tags@[j as int].0@, tags@[j as int].1@));
                assert(tv[i as int] == (tags@[i as int].0@, tags@[i as int].1@));
                assert(rest[j - i] == tv[j as int]);
                assert(rest.take(j - i + 1) =~= rest.take(j - i).push(tv[j as int]));
                lemma_joined_push(rest.take(j - i), tv[j as int]);
            }
            let ghost so_far = line@;
            push_text(&mut line, ", ");
            push_text(&mut line, tags[j].1.as_str());
            proof {
                assert(line@ =~= head + (joined_tags(rest.take(j - i)) + ", "@ + tv[j as int].1));
            }
            j += 1;
        }
        proof {
            if j < n {
                assert(tv[j as int] == (tags@[j as int].0@, tags@[j as int].1@));
                assert(tv[i as int] == (tags@[i as int].0@, tags@[i as int].1@));
                assert(rest[j - i] == tv[j as int]);
            }
            lemma_tag_run(rest, j - i);
            assert(rest.take(j - i)[0] == rest[0]);
            assert(line@ == tag_line(rest.take(j - i)));
            assert(rest.skip(j - i) =~= tv.skip(j as int));
        }
        let ghost shown = rows(lines@);
        lines.push(line);
        proof {
            assert(rows(lines@) =~= shown.push(line@));
            assert(shown + (seq![line@] + tag_lines(tv.skip(j as int))) =~= shown.push(line@)
                + tag_lines(tv.skip(j as int)));
        }
        i = j;
    }
    proof {
        assert(tv.skip(n as int).len() == 0);
        assert(rows(lines@) + tag_lines(tv.skip(n as int)) =~= rows(lines@));
    }
}

fn join_lines(lines: &Vec<Vec<char>>) -> (out: Vec<char>)
    ensures
        out@ == unlines(rows(lines@)),
{
    let ghost ls = rows(lines@);
    let mut out: Vec<char> = Vec::new();
    let mut i: usize = 0;
    proof {
        assert(out@ =~= unlines(ls.take(0)));
    }
    while i < lines.len()
        invariant
            i <= lines.len(),
            ls == rows(lines@),
            out@ == unlines(ls.take(i as int)),
        decreases lines.len() - i,
    {
        let ghost before = out@;
        let mut line = subvec(&lines[i], 0, lines[i].len());
        out.append(&mut line);
        out.push('\n');
        proof {
            assert(ls[i as int] == lines@[i as int]@);
            assert(lines@[i as int]@.subrange(0, lines@[i as int]@.len() as int)
                =~= lines@[i as int]@);
            assert(ls.take(i + 1).drop_last() =~= ls.take(i as int));
            assert(ls.take(i + 1).last() == ls[i as int]);
            assert(out@ =~= before + ls[i as int] + seq!['\n']);
        }
        i += 1;
    }
    proof {
        assert(ls.take(lines@.len() as int) =~= ls);
    }
    out
}

/// The sidecar text for `info`, in the form that the sidecar reader takes:
/// the two titles and the source address on three lines, then a line for
/// each field that is set, the rating, the line that opens the tag block,
/// and a line for each run of tags that have one namespace. The text has
/// five lines or more, so that it can always be read again; and where the
/// record keeps to the form of a sidecar, reading the text gives the record
/// again.
pub fn write_info_txt(info: &ParsedGallery) -> (content: String)
    ensures
        content@ == info_text(info@),
        parse_info(content@) is Some,
        is_writable(info@) ==> parse_info(content@) == Some(info@),
{
    let mut fields: Vec<Vec<char>> = Vec::new();
    proof {
        assert(rows(fields@) =~= Seq::<Seq<char>>::empty());
        lemma_written_can_be_read(info@);
        if is_writable(info@) {
            lemma_written_reads_back(info@);
        }
    }
    push_field(&mut fields, "Category: ", &info.category);
    proof {
        assert(Seq::<Seq<char>>::empty() + field_line("Category: "@, info@.category)
            =~= field_line("Category: "@, info@.category));
    }
    push_field(&mut fields, "Uploader: ", &info.uploader);
    push_field(&mut fields, "Posted: ", &info.posted);
    push_field(&mut fields, "Language: ", &info.language);
    push_field(&mut fields, "File Size: ", &info.file_size);
    push_count(&mut fields, "Length: ", info.page_count, " pages");
    let ghost before = rows(fields@);
    let rating = rating_chars(info.rating);
    fields.push(rating);
    proof {
        assert(rows(fields@) =~= before + seq![rating_line(info.rating)]);
    }
    push_count(&mut fields, "Favorited: ", info.favorited, " times");
    let ghost before = rows(fields@);
    fields.push(chars_of("Tags:"));
    proof {
        assert(rows(fields@) =~= before + seq!["Tags:"@]);
    }
    push_tag_lines(&mut fields, &info.tags);
    let mut lines: Vec<Vec<char>> = Vec::new();
    lines.push(chars_of(info.title_en.as_str()));
    lines.push(chars_of(info.title_jp.as_str()));
    lines.push(chars_of(info.url.as_str()));
    let ghost body = rows(fields@);
    lines.append(&mut fields);
    proof {
        assert(rows(lines@) =~= seq![info@.title_en, info@.title_jp, info@.url] + body);
    }
    string_of(&join_lines(&lines))
}

/// Why metadata could not be fetched.
#[derive(Debug, Clone)]
pub enum FetchError {
    /// The cookie file could not be read; the reason is given.
    CookieFile(String),
    /// The cookie file holds no cookie.
    NoCookies,
    /// The host gave no response; the reason is given.
    Request(String),
    /// The host answered with this status, which is no success.
    Status(String),
    /// The body of the answer could not be read; the reason is given.
    Body(String),
    /// The page is blocked or empty.
    Blocked,
    /// The page holds no title.
    NoTitles,
}

impl FetchError {
    /// What is said of this failure.
    pub open spec fn text(&self) -> Seq<char> {
        match *self {
            FetchError::CookieFile(e) => "Failed to read cookie file: "@ + e@,
            FetchError::NoCookies => "No cookies found in cookie file"@,
            FetchError::Request(e) => "HTTP request failed: "@ + e@,
            FetchError::Status(s) => "HTTP "@ + s@,
            FetchError::Body(e) => "Failed to read response body: "@ + e@,
            FetchError::Blocked => "Received sad panda or empty page — check cookies"@,
            FetchError::NoTitles => "Failed to parse gallery page — no titles found"@,
        }
    }

    /// What is said of this failure.
    pub fn message(&self) -> (text: String)
        ensures
            text@ == self.text(),
    {
        match self {
            FetchError::CookieFile(e) => followed_by("Failed to read cookie file: ", e.as_str()),
            FetchError::NoCookies => "No cookies found in cookie file".to_owned(),
            FetchError::Request(e) => followed_by("HTTP request failed: ", e.as_str()),
            FetchError::Status(s) => followed_by("HTTP ", s.as_str()),
            FetchError::Body(e) => followed_by("Failed to read response body: ", e.as_str()),
            FetchError::Blocked => "Received sad panda or empty page — check cookies".to_owned(),
            FetchError::NoTitles => "Failed to parse gallery page — no titles found".to_owned(),
        }
    }
}

/// The place of the cookie named `name` among the first `n` of `cookies`,
/// counted from `from`.
pub open spec fn cookie_place(cookies: Seq<TagPair>, name: Seq<char>, from: int) -> Option<int>
    decreases cookies.len() - from,
{
    if from < 0 || from >= cookies.len() {
        None
    } else if cookies[from].0 == name {
        Some(from)
    } else {
        cookie_place(cookies, name, from + 1)
    }
}

/// `cookies` with the cookie `name` set to `value`: in the place of a
/// cookie of that name, or last.
pub open spec fn with_cookie(cookies: Seq<TagPair>, name: Seq<char>, value: Seq<char>) -> Seq<
    TagPair,
> {
    match cookie_place(cookies, name, 0) {
        Some(i) => cookies.update(i, (name, value)),
        None => cookies.push((name, value)),
    }
}

/// The cookies after the line `line` of a cookie file has been read: a
/// line that is blank or begins with `#` is passed over; of any other line
/// with seven or more fields between tabs, the sixth is a cookie's name
/// and the seventh its value.
pub open spec fn after_cookie_line(cookies: Seq<TagPair>, line: Seq<char>) -> Seq<TagPair> {
    let l = trimmed(line);
    if l.len() == 0 || has_prefix(l, "#"@) {
        cookies
    } else {
        let parts = split_on(l, "\t"@);
        if parts.len() >= 7 {
            with_cookie(cookies, parts[5], parts[6])
        } else {
            cookies
        }
    }
}

/// The cookies that the first `n` of `lines` hold.
pub open spec fn cookies_of(lines: Seq<Seq<char>>, n: int) -> Seq<TagPair>
    decreases n,
{
    if n <= 0 {
        seq![]
    } else {
        after_cookie_line(cookies_of(lines, n - 1), lines[n - 1])
    }
}

fn set_cookie(cookies: &mut Vec<(String, String)>, name: &Vec<char>, value: &Vec<char>)
    ensures
        pairs_view(final(cookies)@) == with_cookie(pairs_view(old(cookies)@), name@, value@),
{
    let ghost all = pairs_view(cookies@);
    let mut i: usize = 0;
    while i < cookies.len()
        invariant
            i <= cookies.len(),
            cookies@ == old(cookies)@,
            all == pairs_view(cookies@),
            cookie_place(all, name@, 0) == cookie_place(all, name@, i as int),
        decreases cookies.len() - i,
    {
        let held = chars_of(cookies[i].0.as_str());
        proof {
            assert(all[i as int] == (cookies@[i as int].0@, cookies@[i as int].1@));
        }
        if same_chars(&held, name) {
            cookies.remove(i);
            cookies.insert(i, (string_of(name), string_of(value)));
            proof {
                assert(pairs_view(cookies@) =~= all.update(i as int, (name@, value@)));
            }
            return ;
        }
        i += 1;
    }
    cookies.push((string_of(name), string_of(value)));
    proof {
        assert(pairs_view(cookies@) =~= all.push((name@, value@)));
    }
}

/// The cookies that a cookie file with the text `content` holds, each name
/// once, with the value that the file gives it last. A file without a
/// cookie is a failure.
pub fn load_cookies(content: &str) -> (r: Result<Vec<(String, String)>, FetchError>)
    ensures
        match r {
            Ok(cookies) => pairs_view(cookies@) == cookies_of(
                lines_of(content@),
                lines_of(content@).len() as int,
            ) && cookies@.len() > 0,
            Err(e) => e is NoCookies && cookies_of(
                lines_of(content@),
                lines_of(content@).len() as int,
            ).len() == 0,
        },
{
    let text = chars_of(content);
    let all = lines(&text);
    let ghost ls = rows(all@);
    let mut cookies: Vec<(String, String)> = Vec::new();
    let mut i: usize = 0;
    proof {
        assert(pairs_view(cookies@) =~= cookies_of(ls, 0));
        reveal_strlit("\t");
    }
    while i < all.len()
        invariant
            i <= all.len(),
            ls == rows(all@),
            "\t"@.len() > 0,
            pairs_view(cookies@) == cookies_of(ls, i as int),
        decreases all.len() - i,
    {
        let line = trim(&all[i]);
        proof {
            assert(ls[i as int] == all@[i as int]@);
        }
        if line.len() > 0 && !starts_with(&line, "#") {
            let parts = split(&line, "\t");
            if parts.len() >= 7 {
                proof {
                    assert(rows(parts@)[5] == parts@[5]@);
                    assert(rows(parts@)[6] == parts@[6]@);
                }
                set_cookie(&mut cookies, &parts[5], &parts[6]);
            }
        }
        i += 1;
    }
    if cookies.len() == 0 {
        return Err(FetchError::NoCookies);
    }
    Ok(cookies)
}

/// The first `n` of `cookies` as the value of a `Cookie` header: each as
/// `name=value`, joined by a semicolon and a blank.
pub open spec fn cookie_text(cookies: Seq<TagPair>, n: int) -> Seq<char>
    decreases n,
{
    if n <= 0 {
        seq![]
    } else if n == 1 {
        cookies[0].0 + seq!['='] + cookies[0].1
    } else {
        cookie_text(cookies, n - 1) + "; "@ + (cookies[n - 1].0 + seq!['='] + cookies[n - 1].1)
    }
}

/// The value of the `Cookie` header that sends `cookies`.
pub fn cookie_header(cookies: &Vec<(String, String)>) -> (header: String)
    ensures
        header@ == cookie_text(pairs_view(cookies@), cookies@.len() as int),
{
    let ghost cv = pairs_view(cookies@);
    let mut out: Vec<char> = Vec::new();
    let mut i: usize = 0;
    while i < cookies.len()
        invariant
            i <= cookies.len(),
            cv == pairs_view(cookies@),
            out@ == cookie_text(cv, i as int),
        decreases cookies.len() - i,
    {
        proof {
            assert(cv[i as int] == (cookies@[i as int].0@, cookies@[i as int].1@));
        }
        let ghost before = out@;
        if i > 0 {
            push_text(&mut out, "; ");
        }
        push_text(&mut out, cookies[i].0.as_str());
        out.push('=');
        push_text(&mut out, cookies[i].1.as_str());
        proof {
            if i > 0 {
                assert(out@ =~= before + "; "@ + (cv[i as int].0 + seq!['='] + cv[i as int].1));
            } else {
                assert(out@ =~= cv[0].0 + seq!['='] + cv[0].1);
            }
        }
        i += 1;
    }
    string_of(&out)
}


} // verus!
