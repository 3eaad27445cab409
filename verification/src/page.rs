//! The gallery page of the host: what it says of a gallery.
//!
//! The page is taken apart by an HTML parser and by patterns; what they
//! find is named here and read by the functions below. A page that is
//! blocked or empty, or that holds no title, is a failure.

use crate::fetcher::FetchError;
use crate::models::{opt_view, pairs_view, strings_view, ParsedGallery, ParsedInfo, TagPair};
use crate::numbers::{count_spec, parse_count, parse_rating, rating_spec};
use crate::text::{
    chars_of, find, find_sub, first_token, leading_token, lemma_find_from_is_first, same_text,
    string_of, subvec, trim, trimmed,
};
use regex::Regex;
use scraper::{Html, Selector};
use vstd::prelude::*;

verus! {

/// The text of each element of the document `html` that `selector`
/// selects, in the order in which `Html::select` gives them; none where
/// `selector` is no selector.
pub uninterp spec fn selected_texts(html: Seq<char>, selector: Seq<char>) -> Seq<Seq<char>>;

/// Parses `html` with `Html::parse_document`, selects with
/// `Selector::parse` and `Html::select`, and collects `ElementRef::text`
/// of each element. The contract names the result and says no more of it.
#[verifier::external_body]
fn select_texts(html: &str, selector: &str) -> (texts: Vec<String>)
    ensures
        strings_view(texts@) == selected_texts(html@, selector@),
{
    let document = Html::parse_document(html);
    let mut texts: Vec<String> = Vec::new();
    if let Ok(s) = Selector::parse(selector) {
        for element in document.select(&s) {
            texts.push(element.text().collect::<String>());
        }
    }
    texts
}

/// One row of a table: the texts of its cells, and the texts of the links
/// in one of them.
#[derive(Debug, Clone)]
pub struct TableRow {
    pub cells: Vec<String>,
    pub links: Vec<String>,
}

/// A row of a table, as plain text.
pub struct RowTexts {
    pub cells: Seq<Seq<char>>,
    pub links: Seq<Seq<char>>,
}

impl View for TableRow {
    type V = RowTexts;

    open spec fn view(&self) -> RowTexts {
        RowTexts { cells: strings_view(self.cells@), links: strings_view(self.links@) }
    }
}

/// The rows held in `v`, as plain text.
pub open spec fn table_view(v: Seq<TableRow>) -> Seq<RowTexts> {
    v.map_values(|r: TableRow| r@)
}

/// For each element of the document `html` that `rows` selects: the texts
/// of the elements in it that `cells` selects, and the texts of the
/// elements that `links` selects in the cell at the place `at`, if there
/// is one. None where one of the three is no selector.
pub uninterp spec fn selected_rows(
    html: Seq<char>,
    rows: Seq<char>,
    cells: Seq<char>,
    at: usize,
    links: Seq<char>,
) -> Seq<RowTexts>;

/// Parses `html` with `Html::parse_document`, selects rows, cells and
/// links with `Selector::parse`, `Html::select` and `ElementRef::select`,
/// and collects `ElementRef::text`. The contract names the result and says
/// no more of it.
#[verifier::external_body]
fn select_rows(html: &str, rows: &str, cells: &str, at: usize, links: &str) -> (table: Vec<TableRow>)
    ensures
        table_view(table@) == selected_rows(html@, rows@, cells@, at, links@),
{
    let document = Html::parse_document(html);
    let mut table = Vec::new();
    if let (Ok(r), Ok(c), Ok(l)) = (Selector::parse(rows), Selector::parse(cells), Selector::parse(links)) {
        for row in document.select(&r) {
            let cells = row.select(&c).map(|e| e.text().collect()).collect();
            let links = match row.select(&c).nth(at) {
                Some(cell) => cell.select(&l).map(|e| e.text().collect()).collect(),
                None => Vec::new(),
            };
            table.push(TableRow { cells, links });
        }
    }
    table
}

/// What the first group of the pattern `pattern` holds in the first match
/// in `text`; none where there is no match, the group took no part in it,
/// or `pattern` is no pattern.
pub uninterp spec fn first_group_of(pattern: Seq<char>, text: Seq<char>) -> Option<Seq<char>>;

/// Compiles `pattern` with `Regex::new`, calls `Regex::captures` and takes
/// group 1 with `Captures::get`. The contract names the result and says no
/// more of it.
#[verifier::external_body]
fn first_group(pattern: &str, text: &str) -> (found: Option<String>)
    ensures
        opt_view(found) == first_group_of(pattern@, text@),
{
    match Regex::new(pattern) {
        Ok(re) => match re.captures(text) {
            Some(caps) => match caps.get(1) {
                Some(m) => Some(m.as_str().to_owned()),
                None => None,
            },
            None => None,
        },
        Err(_) => None,
    }
}

/// The fields that the table of a gallery page gives.
#[derive(Debug, Clone)]
pub struct PageFields {
    pub category: String,
    pub uploader: String,
    pub posted: String,
    pub language: String,
    pub file_size: String,
    pub page_count: i64,
    pub favorited: i64,
}

/// The fields of a gallery page, as plain text.
pub struct FieldTexts {
    pub category: Seq<char>,
    pub uploader: Seq<char>,
    pub posted: Seq<char>,
    pub language: Seq<char>,
    pub file_size: Seq<char>,
    pub page_count: i64,
    pub favorited: i64,
}

impl View for PageFields {
    type V = FieldTexts;

    open spec fn view(&self) -> FieldTexts {
        FieldTexts {
            category: self.category@,
            uploader: self.uploader@,
            posted: self.posted@,
            language: self.language@,
            file_size: self.file_size@,
            page_count: self.page_count,
            favorited: self.favorited,
        }
    }
}

/// No field set.
pub open spec fn no_fields() -> FieldTexts {
    FieldTexts {
        category: Seq::empty(),
        uploader: Seq::empty(),
        posted: Seq::empty(),
        language: Seq::empty(),
        file_size: Seq::empty(),
        page_count: 0,
        favorited: 0,
    }
}

/// The fields `f` after a row of the table with the label `label` and the
/// value `value`, both trimmed, has been read; `pages` and `times` are the
/// numbers found in the value before `pages` and before `times`. A label
/// that is not known leaves the fields as they are; so does a length or a
/// count of favourites in which no number is found.
pub open spec fn after_row(
    f: FieldTexts,
    label: Seq<char>,
    value: Seq<char>,
    pages: Option<Seq<char>>,
    times: Option<Seq<char>>,
) -> FieldTexts {
    if label == "Category:"@ {
        FieldTexts { category: value, ..f }
    } else if label == "Uploader:"@ {
        FieldTexts { uploader: value, ..f }
    } else if label == "Posted:"@ {
        FieldTexts { posted: value, ..f }
    } else if label == "Language:"@ {
        FieldTexts { language: first_token(value), ..f }
    } else if label == "File Size:"@ {
        FieldTexts { file_size: value, ..f }
    } else if label == "Length:"@ {
        match pages {
            Some(digits) => FieldTexts { page_count: count_spec(digits), ..f },
            None => f,
        }
    } else if label == "Favorited:"@ {
        match times {
            Some(digits) => FieldTexts { favorited: count_spec(digits), ..f },
            None => f,
        }
    } else {
        f
    }
}

fn to_number(digits: &String) -> (n: i64)
    ensures
        n == count_spec(digits@),
{
    parse_count(&chars_of(digits.as_str()))
}

/// Reads one row of the table of a gallery page into `f`. `label` and
/// `value` are the trimmed texts of its two cells; `pages` and `times` are
/// the numbers found in the value before `pages` and before `times`.
pub fn apply_row(
    f: &mut PageFields,
    label: &str,
    value: &str,
    pages: &Option<String>,
    times: &Option<String>,
)
    ensures
        final(f)@ == after_row(old(f)@, label@, value@, opt_view(*pages), opt_view(*times)),
{
    if same_text(label, "Category:") {
        f.category = value.to_owned();
    } else if same_text(label, "Uploader:") {
        f.uploader = value.to_owned();
    } else if same_text(label, "Posted:") {
        f.posted = value.to_owned();
    } else if same_text(label, "Language:") {
        f.language = string_of(&leading_token(&chars_of(value)));
    } else if same_text(label, "File Size:") {
        f.file_size = value.to_owned();
    } else if same_text(label, "Length:") {
        match pages {
            Some(digits) => {
                f.page_count = to_number(digits);
            },
            None => {},
        }
    } else if same_text(label, "Favorited:") {
        match times {
            Some(digits) => {
                f.favorited = to_number(digits);
            },
            None => {},
        }
    }
}

/// The fields after the first `n` rows of the table, whose label cells
/// hold `labels` and whose value cells hold `values`, have been read.
pub open spec fn fields_of(labels: Seq<Seq<char>>, values: Seq<Seq<char>>, n: int) -> FieldTexts
    decreases n,
{
    if n <= 0 {
        no_fields()
    } else {
        let value = trimmed(values[n - 1]);
        after_row(
            fields_of(labels, values, n - 1),
            trimmed(labels[n - 1]),
            value,
            first_group_of("(\\d+)\\s*pages?"@, value),
            first_group_of("(\\d+)\\s*times?"@, value),
        )
    }
}

/// The smaller of two lengths.
pub open spec fn shorter(a: int, b: int) -> int {
    if a < b {
        a
    } else {
        b
    }
}

/// Reads the table of a gallery page: the rows are the label cells paired
/// with the value cells, as far as both go.
pub fn read_rows(labels: &Vec<String>, values: &Vec<String>) -> (f: PageFields)
    ensures
        f@ == fields_of(
            strings_view(labels@),
            strings_view(values@),
            shorter(labels@.len() as int, values@.len() as int),
        ),
{
    let ghost ls = strings_view(labels@);
    let ghost vs = strings_view(values@);
    let mut f = PageFields {
        category: String::new(),
        uploader: String::new(),
        posted: String::new(),
        language: String::new(),
        file_size: String::new(),
        page_count: 0,
        favorited: 0,
    };
    let mut i: usize = 0;
    while i < labels.len() && i < values.len()
        invariant
            i <= labels.len(),
            i <= values.len(),
            ls == strings_view(labels@),
            vs == strings_view(values@),
            f@ == fields_of(ls, vs, i as int),
        decreases labels.len() - i,
    {
        proof {
            assert(ls[i as int] == labels@[i as int]@);
            assert(vs[i as int] == values@[i as int]@);
        }
        let label = string_of(&trim(&chars_of(labels[i].as_str())));
        let value = string_of(&trim(&chars_of(values[i].as_str())));
        let pages = first_group("(\\d+)\\s*pages?", value.as_str());
        let times = first_group("(\\d+)\\s*times?", value.as_str());
        apply_row(&mut f, label.as_str(), value.as_str(), &pages, &times);
        i += 1;
    }
    f
}

/// `s` without the `c` at its end, however many there are.
pub open spec fn without_trailing(s: Seq<char>, c: char) -> Seq<char>
    decreases s.len(),
{
    if s.len() > 0 && s.last() == c {
        without_trailing(s.drop_last(), c)
    } else {
        s
    }
}

fn strip_trailing(v: &Vec<char>, c: char) -> (out: Vec<char>)
    ensures
        out@ == without_trailing(v@, c),
{
    let mut hi: usize = v.len();
    proof {
        assert(v@.take(hi as int) =~= v@);
    }
    while hi > 0 && v[hi - 1] == c
        invariant
            hi <= v.len(),
            without_trailing(v@, c) == without_trailing(v@.take(hi as int), c),
        decreases hi,
    {
        proof {
            assert(v@.take(hi as int).last() == v@[hi - 1]);
            assert(v@.take(hi as int).drop_last() =~= v@.take(hi - 1));
        }
        hi -= 1;
    }
    proof {
        if hi > 0 {
            assert(v@.take(hi as int).last() == v@[hi - 1]);
        }
        assert(v@.take(hi as int) =~= v@.subrange(0, hi as int));
    }
    subvec(v, 0, hi)
}

/// The pairs of `namespace` with each of the first `n` of `links` that is
/// not blank, each trimmed.
pub open spec fn linked_tags(namespace: Seq<char>, links: Seq<Seq<char>>, n: int) -> Seq<TagPair>
    decreases n,
{
    if n <= 0 {
        seq![]
    } else {
        let before = linked_tags(namespace, links, n - 1);
        let tag = trimmed(links[n - 1]);
        if tag.len() > 0 {
            before.push((namespace, tag))
        } else {
            before
        }
    }
}

/// The tags that the row `row` of the tag table gives: none where it has
/// fewer than two cells; else its first cell, trimmed and without the
/// colons at its end, is the namespace of each link.
pub open spec fn row_tags(row: RowTexts) -> Seq<TagPair> {
    if row.cells.len() >= 2 {
        linked_tags(
            without_trailing(trimmed(row.cells[0]), ':'),
            row.links,
            row.links.len() as int,
        )
    } else {
        seq![]
    }
}

/// The tags that the first `n` rows of the tag table give.
pub open spec fn table_tags(table: Seq<RowTexts>, n: int) -> Seq<TagPair>
    decreases n,
{
    if n <= 0 {
        seq![]
    } else {
        table_tags(table, n - 1) + row_tags(table[n - 1])
    }
}

/// The tags that the tag table `table` of a gallery page gives, row by
/// row.
pub fn read_tags(table: &Vec<TableRow>) -> (tags: Vec<(String, String)>)
    ensures
        pairs_view(tags@) == table_tags(table_view(table@), table@.len() as int),
{
    let ghost tv = table_view(table@);
    let mut tags: Vec<(String, String)> = Vec::new();
    let mut i: usize = 0;
    proof {
        assert(pairs_view(tags@) =~= table_tags(tv, 0));
    }
    while i < table.len()
        invariant
            i <= table.len(),
            tv == table_view(table@),
            pairs_view(tags@) == table_tags(tv, i as int),
        decreases table.len() - i,
    {
        let row = &table[i];
        proof {
            assert(tv[i as int] == row@);
        }
        let ghost done = pairs_view(tags@);
        if row.cells.len() >= 2 {
            proof {
                assert(row@.cells[0] == row.cells@[0]@);
            }
            let namespace = string_of(&strip_trailing(&trim(&chars_of(row.cells[0].as_str())), ':'));
            let ghost ns = namespace@;
            let ghost links = row@.links;
            let mut k: usize = 0;
            proof {
                assert(done + linked_tags(ns, links, 0) =~= done);
            }
            while k < row.links.len()
                invariant
                    k <= row.links.len(),
                    ns == namespace@,
                    links == strings_view(row.links@),
                    pairs_view(tags@) == done + linked_tags(ns, links, k as int),
                decreases row.links.len() - k,
            {
                proof {
                    assert(links[k as int] == row.links@[k as int]@);
                }
                let tag = trim(&chars_of(row.links[k].as_str()));
                if tag.len() > 0 {
                    let ghost before = pairs_view(tags@);
                    tags.push((namespace.clone(), string_of(&tag)));
                    proof {
                        assert(pairs_view(tags@) =~= before.push((ns, tag@)));
                        assert(done + linked_tags(ns, links, k as int).push((ns, tag@))
                            =~= before.push((ns, tag@)));
                    }
                }
                k += 1;
            }
        } else {
            proof {
                assert(done + Seq::<TagPair>::empty() =~= done);
            }
        }
        i += 1;
    }
    tags
}

/// The first of `texts`, trimmed; empty where there is none.
pub open spec fn first_trimmed(texts: Seq<Seq<char>>) -> Seq<char> {
    if texts.len() > 0 {
        trimmed(texts[0])
    } else {
        Seq::empty()
    }
}

fn first_text(texts: &Vec<String>) -> (t: String)
    ensures
        t@ == first_trimmed(strings_view(texts@)),
{
    if texts.len() > 0 {
        proof {
            assert(strings_view(texts@)[0] == texts@[0]@);
        }
        string_of(&trim(&chars_of(texts[0].as_str())))
    } else {
        String::new()
    }
}

/// The rating that the rating label gives, in hundredths of a star: the
/// number that `found`, the first run of digits and points in the label,
/// spells; zero where there is no label, no such run, or no number.
pub open spec fn label_rating(found: Option<Seq<char>>) -> u32 {
    match found {
        Some(text) => rating_spec(text),
        None => 0,
    }
}

/// The rating that the rating label gives, from the first run of digits
/// and points in it.
pub fn rating_from(found: &Option<String>) -> (r: u32)
    ensures
        r == label_rating(opt_view(*found)),
{
    match found {
        Some(text) => parse_rating(&chars_of(text.as_str())),
        None => 0,
    }
}

/// The page is blocked or empty: it is short and lacks the mark of a
/// title.
pub open spec fn is_blocked(byte_len: int, has_mark: bool) -> bool {
    byte_len < 1000 && !has_mark
}

/// What a gallery page says, from what was found in it; the source address
/// is the one that was asked.
pub open spec fn gallery_of(
    byte_len: int,
    has_mark: bool,
    title_en: Seq<char>,
    title_jp: Seq<char>,
    fields: FieldTexts,
    rating: u32,
    tags: Seq<TagPair>,
    url: Seq<char>,
) -> Option<ParsedInfo> {
    if is_blocked(byte_len, has_mark) || (title_en.len() == 0 && title_jp.len() == 0) {
        None
    } else {
        Some(
            ParsedInfo {
                title_en,
                title_jp,
                url,
                category: fields.category,
                uploader: fields.uploader,
                posted: fields.posted,
                language: fields.language,
                file_size: fields.file_size,
                page_count: fields.page_count,
                rating,
                favorited: fields.favorited,
                tags,
            },
        )
    }
}

/// Puts together what a gallery page says. A page that is short and lacks
/// the mark of a title is blocked or empty; a page without either title
/// could not be read. Both are failures, the first before the second.
pub fn build_gallery(
    byte_len: usize,
    has_mark: bool,
    title_en: String,
    title_jp: String,
    fields: PageFields,
    rating: u32,
    tags: Vec<(String, String)>,
    url: &str,
) -> (r: Result<ParsedGallery, FetchError>)
    ensures
        match r {
            Ok(g) => gallery_of(
                byte_len as int,
                has_mark,
                title_en@,
                title_jp@,
                fields@,
                rating,
                pairs_view(tags@),
                url@,
            ) == Some(g@),
            Err(e) => gallery_of(
                byte_len as int,
                has_mark,
                title_en@,
                title_jp@,
                fields@,
                rating,
                pairs_view(tags@),
                url@,
            ) is None && (if is_blocked(byte_len as int, has_mark) {
                e is Blocked
            } else {
                e is NoTitles
            }),
        },
{
    if byte_len < 1000 && !has_mark {
        return Err(FetchError::Blocked);
    }
    if title_en.as_str().is_empty() && title_jp.as_str().is_empty() {
        return Err(FetchError::NoTitles);
    }
    Ok(
        ParsedGallery {
            title_en,
            title_jp,
            url: url.to_owned(),
            category: fields.category,
            uploader: fields.uploader,
            posted: fields.posted,
            language: fields.language,
            file_size: fields.file_size,
            page_count: fields.page_count,
            rating,
            favorited: fields.favorited,
            tags,
        },
    )
}

/// What the gallery page `html` says, in terms of what the parser and the
/// patterns find in it.
pub open spec fn page_info(html: Seq<char>, url: Seq<char>) -> Option<ParsedInfo> {
    let labels = selected_texts(html, "td.gdt1"@);
    let values = selected_texts(html, "td.gdt2"@);
    let ratings = selected_texts(html, "#rating_label"@);
    let table = selected_rows(html, "#taglist tr"@, "td"@, 1, "a"@);
    gallery_of(
        vstd::utf8::encode_utf8(html).len() as int,
        find_sub(html, "gn"@) is Some,
        first_trimmed(selected_texts(html, "#gn"@)),
        first_trimmed(selected_texts(html, "#gj"@)),
        fields_of(labels, values, shorter(labels.len() as int, values.len() as int)),
        label_rating(
            if ratings.len() > 0 {
                first_group_of("([\\d.]+)"@, ratings[0])
            } else {
                None
            },
        ),
        table_tags(table, table.len() as int),
        url,
    )
}

/// The gallery page `html` is blocked or empty.
pub open spec fn page_is_blocked(html: Seq<char>) -> bool {
    is_blocked(vstd::utf8::encode_utf8(html).len() as int, find_sub(html, "gn"@) is Some)
}

/// Reads the gallery page `html` that was fetched from `url`. A page that
/// is blocked or empty is a failure, and so is one without a title.
pub fn parse_gallery_html(html: &str, url: &str) -> (r: Result<ParsedGallery, FetchError>)
    ensures
        match r {
            Ok(g) => page_info(html@, url@) == Some(g@),
            Err(e) => page_info(html@, url@) is None && (if page_is_blocked(html@) {
                e is Blocked
            } else {
                e is NoTitles
            }),
        },
{
    let mark = chars_of("gn");
    proof {
        reveal_strlit("gn");
        lemma_find_from_is_first(html@, mark@, 0);
    }
    let has_mark = find(&chars_of(html), &mark, 0).is_some();
    let title_en = first_text(&select_texts(html, "#gn"));
    let title_jp = first_text(&select_texts(html, "#gj"));
    let labels = select_texts(html, "td.gdt1");
    let values = select_texts(html, "td.gdt2");
    let fields = read_rows(&labels, &values);
    let ratings = select_texts(html, "#rating_label");
    let found = if ratings.len() > 0 {
        proof {
            assert(strings_view(ratings@)[0] == ratings@[0]@);
        }
        first_group("([\\d.]+)", ratings[0].as_str())
    } else {
        None
    };
    let rating = rating_from(&found);
    let table = select_rows(html, "#taglist tr", "td", 1, "a");
    let tags = read_tags(&table);
    build_gallery(html.as_bytes().len(), has_mark, title_en, title_jp, fields, rating, tags, url)
}

} // verus!
