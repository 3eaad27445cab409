//! The sidecar file of a gallery: reading it.
//!
//! The first two lines are the titles. Among the first five lines the first
//! one that begins with a known gallery host is the source address. Every
//! line after the titles is then read once, in order, as a `Label: value`
//! field, as the opening of the tag block or as a line of tags, until a line
//! opens the page listing or the footer. A rating lies between zero and five
//! stars and a count is not below zero; what is out of range reads as zero.

use crate::models::{pairs_view, ParsedGallery, ParsedInfo, TagPair};
use crate::numbers::{count_spec, parse_count, parse_rating, rating_spec, MAX_RATING};
use crate::text::{
    after_prefix, chars_of, equals, find, find_sub, first_token, has_prefix, leading_token,
    lemma_find_from_is_first, lines, lines_of, rows, split, split_on, starts_with, string_of,
    strip_prefix, subvec, trim, trimmed,
};
use vstd::prelude::*;

verus! {

/// What has been read of the fields so far, and whether a tag block is open.
pub struct Fields {
    pub category: Seq<char>,
    pub uploader: Seq<char>,
    pub posted: Seq<char>,
    pub language: Seq<char>,
    pub file_size: Seq<char>,
    pub page_count: i64,
    pub rating: u32,
    pub favorited: i64,
    pub tags: Seq<TagPair>,
    pub in_tags: bool,
}

/// Nothing read yet: every text empty, every number zero, no tag block.
pub open spec fn no_fields() -> Fields {
    Fields {
        category: Seq::empty(),
        uploader: Seq::empty(),
        posted: Seq::empty(),
        language: Seq::empty(),
        file_size: Seq::empty(),
        page_count: 0,
        rating: 0,
        favorited: 0,
        tags: Seq::empty(),
        in_tags: false,
    }
}

/// The count that the first word of `val` spells; zero where there is no
/// word, or it spells no whole number, or one below zero.
pub open spec fn leading_int(val: Seq<char>) -> i64 {
    count_spec(first_token(val))
}

/// The pairs of `namespace` with each of `pieces` that is not blank, each
/// trimmed, in order.
pub open spec fn tags_from(namespace: Seq<char>, pieces: Seq<Seq<char>>) -> Seq<TagPair>
    decreases pieces.len(),
{
    if pieces.len() == 0 {
        seq![]
    } else {
        let before = tags_from(namespace, pieces.drop_last());
        let tag = trimmed(pieces.last());
        if tag.len() > 0 {
            before.push((namespace, tag))
        } else {
            before
        }
    }
}

/// The tags that the line `namespace: tag, tag, ..` names; none where the
/// line has no `: `.
pub open spec fn tag_pairs(tag_line: Seq<char>) -> Seq<TagPair> {
    match find_sub(tag_line, ": "@) {
        Some(at) => tags_from(
            trimmed(tag_line.take(at)),
            split_on(tag_line.skip(at + ": "@.len()), ", "@),
        ),
        None => seq![],
    }
}

/// The fields after the trimmed line `line` has been read in state `st`.
pub open spec fn step(st: Fields, line: Seq<char>) -> Fields {
    if let Some(val) = after_prefix(line, "Category: "@) {
        Fields { category: trimmed(val), ..st }
    } else if let Some(val) = after_prefix(line, "Uploader: "@) {
        Fields { uploader: trimmed(val), ..st }
    } else if let Some(val) = after_prefix(line, "Posted: "@) {
        Fields { posted: trimmed(val), ..st }
    } else if let Some(val) = after_prefix(line, "Language: "@) {
        Fields { language: trimmed(val), ..st }
    } else if let Some(val) = after_prefix(line, "File Size: "@) {
        Fields { file_size: trimmed(val), ..st }
    } else if let Some(val) = after_prefix(line, "Length: "@) {
        Fields { page_count: leading_int(val), ..st }
    } else if let Some(val) = after_prefix(line, "Rating: "@) {
        Fields { rating: rating_spec(trimmed(val)), ..st }
    } else if let Some(val) = after_prefix(line, "Favorited: "@) {
        Fields { favorited: leading_int(val), ..st }
    } else if line == "Tags:"@ {
        Fields { in_tags: true, ..st }
    } else if st.in_tags {
        if let Some(tag_line) = after_prefix(line, "> "@) {
            Fields { tags: st.tags + tag_pairs(tag_line), ..st }
        } else if line.len() > 0 {
            Fields { in_tags: false, ..st }
        } else {
            st
        }
    } else {
        st
    }
}

/// The trimmed line `line` opens the page listing or the footer.
pub open spec fn ends_fields(line: Seq<char>) -> bool {
    has_prefix(line, "Page 1:"@) || has_prefix(line, "Downloaded at"@)
}

/// The fields after `lines` have been read in state `st`, one by one, up to
/// and with the first line that ends the fields.
pub open spec fn read_lines(lines: Seq<Seq<char>>, st: Fields) -> Fields
    decreases lines.len(),
{
    if lines.len() == 0 {
        st
    } else {
        let line = trimmed(lines[0]);
        let next = step(st, line);
        if ends_fields(line) {
            next
        } else {
            read_lines(lines.drop_first(), next)
        }
    }
}

/// `line` begins with the address of a known gallery host.
pub open spec fn is_gallery_url(line: Seq<char>) -> bool {
    has_prefix(line, "https://exhentai.org"@) || has_prefix(line, "https://e-hentai.org"@)
}

/// The first of `lines[from..5]` that is a gallery address, trimmed; empty
/// where there is none.
pub open spec fn url_from(lines: Seq<Seq<char>>, from: int) -> Seq<char>
    decreases 5 - from,
{
    if from < 0 || from >= 5 || from >= lines.len() {
        Seq::empty()
    } else if is_gallery_url(lines[from]) {
        trimmed(lines[from])
    } else {
        url_from(lines, from + 1)
    }
}

/// The rating lies between zero and five stars, and no count is below
/// zero.
pub open spec fn in_range(f: Fields) -> bool {
    f.rating <= MAX_RATING && f.page_count >= 0 && f.favorited >= 0
}

/// Reading lines keeps rating and counts in range.
pub proof fn lemma_read_lines_in_range(lines: Seq<Seq<char>>, st: Fields)
    requires
        in_range(st),
    ensures
        in_range(read_lines(lines, st)),
    decreases lines.len(),
{
    if lines.len() > 0 {
        let next = step(st, trimmed(lines[0]));
        assert(in_range(next));
        lemma_read_lines_in_range(lines.drop_first(), next);
    }
}

/// What the sidecar text `content` says: nothing where it has fewer than
/// five lines. The first two lines are the titles; the fields are read from
/// the lines after them.
pub open spec fn parse_info(content: Seq<char>) -> Option<ParsedInfo> {
    let lines = lines_of(content);
    if lines.len() < 5 {
        None
    } else {
        let f = read_lines(lines.skip(2), no_fields());
        Some(
            ParsedInfo {
                title_en: trimmed(lines[0]),
                title_jp: trimmed(lines[1]),
                url: url_from(lines, 0),
                category: f.category,
                uploader: f.uploader,
                posted: f.posted,
                language: f.language,
                file_size: f.file_size,
                page_count: f.page_count,
                rating: f.rating,
                favorited: f.favorited,
                tags: f.tags,
            },
        )
    }
}

/// Whatever the text, what is read from it has its rating between zero and
/// five stars and its counts not below zero.
pub proof fn lemma_parse_info_in_range(content: Seq<char>)
    ensures
        parse_info(content) matches Some(p) ==> p.rating <= MAX_RATING && p.page_count >= 0
            && p.favorited >= 0,
{
    lemma_read_lines_in_range(lines_of(content).skip(2), no_fields());
}

struct Draft {
    category: String,
    uploader: String,
    posted: String,
    language: String,
    file_size: String,
    page_count: i64,
    rating: u32,
    favorited: i64,
    tags: Vec<(String, String)>,
    in_tags: bool,
}

impl View for Draft {
    type V = Fields;

    closed spec fn view(&self) -> Fields {
        Fields {
            category: self.category@,
            uploader: self.uploader@,
            posted: self.posted@,
            language: self.language@,
            file_size: self.file_size@,
            page_count: self.page_count,
            rating: self.rating,
            favorited: self.favorited,
            tags: pairs_view(self.tags@),
            in_tags: self.in_tags,
        }
    }
}

fn first_int(val: &Vec<char>) -> (n: i64)
    ensures
        n == leading_int(val@),
{
    let token = leading_token(val);
    parse_count(&token)
}

fn push_tags(tags: &mut Vec<(String, String)>, tag_line: &Vec<char>)
    ensures
        pairs_view(final(tags)@) == pairs_view(old(tags)@) + tag_pairs(tag_line@),
{
    let sep = chars_of(": ");
    proof {
        reveal_strlit(": ");
        reveal_strlit(", ");
        lemma_find_from_is_first(tag_line@, sep@, 0);
    }
    let n = tag_line.len();
    match find(tag_line, &sep, 0) {
        None => {
            proof {
                assert(pairs_view(tags@) + Seq::<TagPair>::empty() =~= pairs_view(tags@));
            }
        },
        Some(at) => {
            let namespace = string_of(&trim(&subvec(tag_line, 0, at)));
            let rest = subvec(tag_line, at + sep.len(), n);
            let pieces = split(&rest, ", ");
            let ghost ns = namespace@;
            let ghost all = rows(pieces@);
            proof {
                assert(all.take(0) =~= Seq::<Seq<char>>::empty());
                assert(pairs_view(tags@) + tags_from(ns, all.take(0)) =~= pairs_view(tags@));
            }
            let mut i: usize = 0;
            while i < pieces.len()
                invariant
                    i <= pieces.len(),
                    all == rows(pieces@),
                    ns == namespace@,
                    pairs_view(tags@) == pairs_view(old(tags)@) + tags_from(ns, all.take(i as int)),
                decreases pieces.len() - i,
            {
                let tag = trim(&pieces[i]);
                let ghost before = pairs_view(tags@);
                proof {
                    assert(all.take(i + 1).drop_last() =~= all.take(i as int));
                    assert(all.take(i + 1).last() == pieces@[i as int]@);
                }
                if tag.len() > 0 {
                    let pair = (namespace.clone(), string_of(&tag));
                    tags.push(pair);
                    proof {
                        assert(pairs_view(tags@) =~= before.push((ns, tag@)));
                        assert(pairs_view(old(tags)@) + tags_from(ns, all.take(i as int)).push(
                            (ns, tag@),
                        ) =~= before.push((ns, tag@)));
                    }
                }
                i += 1;
            }
            proof {
                assert(all.take(pieces@.len() as int) =~= all);
            }
        },
    }
}

fn read_line(d: &mut Draft, line: &Vec<char>)
    ensures
        final(d)@ == step(old(d)@, line@),
{
    if let Some(val) = strip_prefix(line, "Category: ") {
        d.category = string_of(&trim(&val));
    } else if let Some(val) = strip_prefix(line, "Uploader: ") {
        d.uploader = string_of(&trim(&val));
    } else if let Some(val) = strip_prefix(line, "Posted: ") {
        d.posted = string_of(&trim(&val));
    } else if let Some(val) = strip_prefix(line, "Language: ") {
        d.language = string_of(&trim(&val));
    } else if let Some(val) = strip_prefix(line, "File Size: ") {
        d.file_size = string_of(&trim(&val));
    } else if let Some(val) = strip_prefix(line, "Length: ") {
        d.page_count = first_int(&val);
    } else if let Some(val) = strip_prefix(line, "Rating: ") {
        d.rating = parse_rating(&trim(&val));
    } else if let Some(val) = strip_prefix(line, "Favorited: ") {
        d.favorited = first_int(&val);
    } else if equals(line, "Tags:") {
        d.in_tags = true;
    } else if d.in_tags {
        if let Some(tag_line) = strip_prefix(line, "> ") {
            push_tags(&mut d.tags, &tag_line);
        } else if line.len() > 0 {
            d.in_tags = false;
        }
    }
}

fn find_url(all: &Vec<Vec<char>>) -> (url: Vec<char>)
    ensures
        url@ == url_from(rows(all@), 0),
{
    let mut i: usize = 0;
    while i < 5 && i < all.len()
        invariant
            i <= 5,
            i <= all.len(),
            url_from(rows(all@), 0) == url_from(rows(all@), i as int),
        decreases 5 - i,
    {
        if starts_with(&all[i], "https://exhentai.org") || starts_with(
            &all[i],
            "https://e-hentai.org",
        ) {
            return trim(&all[i]);
        }
        i += 1;
    }
    Vec::new()
}

/// Reads the sidecar text `content`. There is no result where it has fewer
/// than five lines; fields that it does not name are empty or zero, and so
/// are a rating above five stars and a count below zero.
pub fn parse_info_txt(content: &str) -> (r: Option<ParsedGallery>)
    ensures
        match r {
            Some(p) => parse_info(content@) == Some(p@),
            None => parse_info(content@).is_none(),
        },
        r matches Some(p) ==> p.rating <= MAX_RATING && p.page_count >= 0 && p.favorited >= 0,
{
    let text = chars_of(content);
    let all = lines(&text);
    if all.len() < 5 {
        return None;
    }
    let ghost ls = rows(all@);
    let title_en = string_of(&trim(&all[0]));
    let title_jp = string_of(&trim(&all[1]));
    let url = string_of(&find_url(&all));
    let mut d = Draft {
        category: String::new(),
        uploader: String::new(),
        posted: String::new(),
        language: String::new(),
        file_size: String::new(),
        page_count: 0,
        rating: 0,
        favorited: 0,
        tags: Vec::new(),
        in_tags: false,
    };
    proof {
        assert(pairs_view(d.tags@) =~= Seq::<TagPair>::empty());
        lemma_parse_info_in_range(content@);
    }
    let mut i: usize = 2;
    let mut done = false;
    while i < all.len() && !done
        invariant
            2 <= i <= all.len(),
            ls == rows(all@),
            !done ==> read_lines(ls.skip(2), no_fields()) == read_lines(ls.skip(i as int), d@),
            done ==> read_lines(ls.skip(2), no_fields()) == d@,
        decreases all.len() - i + (if done { 0int } else { 1int }),
    {
        let line = trim(&all[i]);
        proof {
            assert(ls.skip(i as int)[0] == all@[i as int]@);
            assert(ls.skip(i as int).drop_first() =~= ls.skip(i + 1));
        }
        read_line(&mut d, &line);
        if starts_with(&line, "Page 1:") || starts_with(&line, "Downloaded at") {
            done = true;
        } else {
            i += 1;
        }
    }
    Some(
        ParsedGallery {
            title_en,
            title_jp,
            url,
            category: d.category,
            uploader: d.uploader,
            posted: d.posted,
            language: d.language,
            file_size: d.file_size,
            page_count: d.page_count,
            rating: d.rating,
            favorited: d.favorited,
            tags: d.tags,
        },
    )
}

} // verus!
