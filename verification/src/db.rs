//! The catalog: one record for each gallery folder, with its tags.
//!
//! A record is keyed by the path of its folder. Its id is given once, when
//! the path is first seen, and stays with it however often the record is
//! written again. Writing a record replaces its tags as a whole. Every
//! record has a rating between zero and five stars and counts that are not
//! below zero; what is handed in out of range is written as zero.

use crate::models::{
    opt_view, pairs_view, strings_view, summaries_view, summary_of, tags_view, Gallery,
    GallerySummary, GalleryView, ParsedGallery, ParsedInfo, QueryView, SearchQuery, SearchResult,
    SummaryView, TagEntry, TagFilter, TagPair,
};
use crate::order::{
    codes, indices_view, lemma_text_order, keys_view, lemma_sorted_prefix_in_order,
    lemma_sorted_prefix_indices, nocase_codes, nocase_key, number_key, placed_before, signed_key,
    sorted_order, stable_order, text_key,
};
use crate::numbers::MAX_RATING;
use crate::paths::{file_name, file_name_of, is_under, parent, parent_of, starts_with_path};
use crate::text::{
    chars_of, lowercase, lowercase_of, same_chars, same_text, text_less, text_lt, trim, trimmed,
};
use vstd::prelude::*;

verus! {

/// Why the catalog could not take a record.
#[derive(Debug, Clone, Copy, PartialEq, Eq, Structural)]
pub enum DbError {
    /// Every id has been given out.
    IdsExhausted,
}

/// A record of the catalog, as it is stored.
pub struct Row {
    pub gallery: Gallery,
    pub tags: Vec<TagEntry>,
    pub info_modified: String,
    pub scanned_at: u64,
}

/// A record of the catalog: the gallery, its tags in order, the marker of
/// its sidecar when it was read, and when it was written.
pub struct RowView {
    pub gallery: GalleryView,
    pub tags: Seq<TagPair>,
    pub info_modified: Seq<char>,
    pub scanned_at: u64,
}

impl View for Row {
    type V = RowView;

    open spec fn view(&self) -> RowView {
        RowView {
            gallery: self.gallery@,
            tags: tags_view(self.tags@),
            info_modified: self.info_modified@,
            scanned_at: self.scanned_at,
        }
    }
}

/// The records held in `v`, as views.
pub open spec fn rows_view(v: Seq<Row>) -> Seq<RowView> {
    v.map_values(|r: Row| r@)
}

/// The pair `a` comes before the pair `b`: by namespace, then by tag.
pub open spec fn pair_lt(a: TagPair, b: TagPair) -> bool {
    text_lt(a.0, b.0) || (a.0 == b.0 && text_lt(a.1, b.1))
}

/// The first place at or after `from` in `sorted` whose pair does not come
/// before `t`; the length of `sorted` where there is none.
pub open spec fn tag_place(sorted: Seq<TagPair>, t: TagPair, from: int) -> int
    decreases sorted.len() - from,
{
    if from < 0 || from >= sorted.len() {
        sorted.len() as int
    } else if !pair_lt(sorted[from], t) {
        from
    } else {
        tag_place(sorted, t, from + 1)
    }
}

/// `sorted` with the pair `t` in its place, unless it is already there.
pub open spec fn with_tag(sorted: Seq<TagPair>, t: TagPair) -> Seq<TagPair> {
    let at = tag_place(sorted, t, 0);
    if 0 <= at < sorted.len() && sorted[at] == t {
        sorted
    } else {
        sorted.insert(at, t)
    }
}

/// The pairs of `pairs`, each once, in order.
pub open spec fn tag_set(pairs: Seq<TagPair>) -> Seq<TagPair>
    decreases pairs.len(),
{
    if pairs.len() == 0 {
        seq![]
    } else {
        with_tag(tag_set(pairs.drop_last()), pairs.last())
    }
}

/// The order of pairs is a strict total order.
pub proof fn lemma_pair_order(a: TagPair, b: TagPair, c: TagPair)
    ensures
        !pair_lt(a, a),
        pair_lt(a, b) && pair_lt(b, c) ==> pair_lt(a, c),
        !pair_lt(a, b) && !pair_lt(b, a) ==> a == b,
{
    lemma_text_order(a.0, b.0, c.0);
    lemma_text_order(a.1, b.1, c.1);
    lemma_text_order(b.0, a.0, c.0);
    lemma_text_order(b.0, c.0, a.0);
    lemma_text_order(a.0, a.0, a.0);
    lemma_text_order(a.1, a.1, a.1);
}

/// The place that `tag_place` gives lies after every pair that comes
/// before `t`, and at a pair that does not, if there is one.
pub proof fn lemma_tag_place(sorted: Seq<TagPair>, t: TagPair, from: int)
    requires
        0 <= from <= sorted.len(),
    ensures
        from <= tag_place(sorted, t, from) <= sorted.len(),
        forall|i: int| from <= i < tag_place(sorted, t, from) ==> pair_lt(#[trigger] sorted[i], t),
        tag_place(sorted, t, from) < sorted.len() ==> !pair_lt(
            sorted[tag_place(sorted, t, from)],
            t,
        ),
    decreases sorted.len() - from,
{
    if from < sorted.len() && pair_lt(sorted[from], t) {
        lemma_tag_place(sorted, t, from + 1);
    }
}

/// The pairs stand in strict order: each comes before the next, so none
/// occurs twice.
pub open spec fn strictly_ordered(tags: Seq<TagPair>) -> bool {
    forall|i: int, j: int| 0 <= i < j < tags.len() ==> pair_lt(#[trigger] tags[i], #[trigger] tags[j])
}

/// The tags of a record are unique and in order, and they are the tags
/// that were given: `tag_set` holds each pair of `pairs` once, by
/// namespace and then by tag, and nothing else.
pub proof fn lemma_tag_set(pairs: Seq<TagPair>)
    ensures
        strictly_ordered(tag_set(pairs)),
        forall|p: TagPair| tag_set(pairs).contains(p) <==> pairs.contains(p),
    decreases pairs.len(),
{
    if pairs.len() > 0 {
        let rest = pairs.drop_last();
        let t = pairs.last();
        let before = tag_set(rest);
        let now = tag_set(pairs);
        let at = tag_place(before, t, 0);
        lemma_tag_set(rest);
        lemma_tag_place(before, t, 0);
        if 0 <= at < before.len() && before[at] == t {
            assert forall|p: TagPair| now.contains(p) <==> pairs.contains(p) by {
                if pairs.contains(p) {
                    let k = choose|k: int| 0 <= k < pairs.len() && pairs[k] == p;
                    if k < rest.len() {
                        assert(rest[k] == p);
                        assert(rest.contains(p));
                    } else {
                        assert(before[at] == p);
                    }
                }
                if before.contains(p) {
                    assert(rest.contains(p));
                    let k = choose|k: int| 0 <= k < rest.len() && rest[k] == p;
                    assert(pairs[k] == p);
                }
            }
        } else {
            assert(now == before.insert(at, t));
            assert forall|i: int, j: int| 0 <= i < j < now.len() implies pair_lt(
                #[trigger] now[i],
                #[trigger] now[j],
            ) by {
                if j < at {
                    assert(now[i] == before[i] && now[j] == before[j]);
                } else if j == at {
                    assert(now[i] == before[i] && now[j] == t);
                } else if i == at {
                    assert(now[i] == t && now[j] == before[j - 1]);
                    lemma_pair_order(t, before[at], before[j - 1]);
                    lemma_pair_order(before[at], t, before[at]);
                } else if i < at {
                    assert(now[i] == before[i] && now[j] == before[j - 1]);
                } else {
                    assert(now[i] == before[i - 1] && now[j] == before[j - 1]);
                }
            }
            assert forall|p: TagPair| now.contains(p) <==> pairs.contains(p) by {
                if pairs.contains(p) {
                    let k = choose|k: int| 0 <= k < pairs.len() && pairs[k] == p;
                    if k < rest.len() {
                        assert(rest[k] == p);
                        assert(rest.contains(p));
                        assert(before.contains(p));
                        let m = choose|m: int| 0 <= m < before.len() && before[m] == p;
                        if m < at {
                            assert(now[m] == p);
                        } else {
                            assert(now[m + 1] == p);
                        }
                    } else {
                        assert(now[at] == p);
                    }
                }
                if now.contains(p) {
                    let m = choose|m: int| 0 <= m < now.len() && now[m] == p;
                    if m == at {
                        assert(pairs[pairs.len() - 1] == p);
                    } else {
                        if m < at {
                            assert(before[m] == p);
                        } else {
                            assert(before[m - 1] == p);
                        }
                        assert(before.contains(p));
                        assert(rest.contains(p));
                        let k = choose|k: int| 0 <= k < rest.len() && rest[k] == p;
                        assert(pairs[k] == p);
                    }
                }
            }
        }
    } else {
        assert forall|p: TagPair| tag_set(pairs).contains(p) <==> pairs.contains(p) by {}
    }
}

/// The rating `r` where it is not above five stars, else zero.
pub open spec fn rating_in_range(r: u32) -> u32 {
    if r <= MAX_RATING {
        r
    } else {
        0
    }
}

/// The count `n` where it is not below zero, else zero.
pub open spec fn count_in_range(n: i64) -> i64 {
    if n >= 0 {
        n
    } else {
        0
    }
}

/// The record that is written for the folder `path` under the id `id`.
pub open spec fn row_for(
    id: i64,
    path: Seq<char>,
    parsed: ParsedInfo,
    thumb_path: Seq<char>,
    info_modified: Seq<char>,
    now: u64,
) -> RowView {
    RowView {
        gallery: GalleryView {
            id,
            path,
            title_en: parsed.title_en,
            title_jp: parsed.title_jp,
            url: parsed.url,
            category: parsed.category,
            uploader: parsed.uploader,
            posted: parsed.posted,
            language: parsed.language,
            file_size: parsed.file_size,
            page_count: count_in_range(parsed.page_count),
            rating: rating_in_range(parsed.rating),
            favorited: count_in_range(parsed.favorited),
            thumb_path,
            folder_name: file_name_of(path),
            parent_path: parent_of(path),
        },
        tags: tag_set(parsed.tags),
        info_modified,
        scanned_at: now,
    }
}

/// The first place at or after `from` of a record of `rows` for the folder
/// `path`.
pub open spec fn path_from(rows: Seq<RowView>, path: Seq<char>, from: int) -> Option<int>
    decreases rows.len() - from,
{
    if from < 0 || from >= rows.len() {
        None
    } else if rows[from].gallery.path == path {
        Some(from)
    } else {
        path_from(rows, path, from + 1)
    }
}

/// The place of the record of the folder `path` in `rows`, if there is one.
pub open spec fn place_of_path(rows: Seq<RowView>, path: Seq<char>) -> Option<int> {
    path_from(rows, path, 0)
}

/// The first place at or after `from` of a record of `rows` with the id
/// `id`.
pub open spec fn id_from(rows: Seq<RowView>, id: i64, from: int) -> Option<int>
    decreases rows.len() - from,
{
    if from < 0 || from >= rows.len() {
        None
    } else if rows[from].gallery.id == id {
        Some(from)
    } else {
        id_from(rows, id, from + 1)
    }
}

/// The place of the record with the id `id` in `rows`, if there is one.
pub open spec fn place_of_id(rows: Seq<RowView>, id: i64) -> Option<int> {
    id_from(rows, id, 0)
}

/// What `path_from` finds is a record for the path, and the first one.
pub proof fn lemma_path_from(rows: Seq<RowView>, path: Seq<char>, from: int)
    requires
        0 <= from,
    ensures
        match path_from(rows, path, from) {
            Some(i) => from <= i < rows.len() && rows[i].gallery.path == path && forall|j: int|
                from <= j < i ==> (#[trigger] rows[j]).gallery.path != path,
            None => forall|j: int|
                from <= j < rows.len() ==> (#[trigger] rows[j]).gallery.path != path,
        },
    decreases rows.len() - from,
{
    if from < rows.len() && rows[from].gallery.path != path {
        lemma_path_from(rows, path, from + 1);
    }
}

/// What `id_from` finds is a record with the id, and the first one.
pub proof fn lemma_id_from(rows: Seq<RowView>, id: i64, from: int)
    requires
        0 <= from,
    ensures
        match id_from(rows, id, from) {
            Some(i) => from <= i < rows.len() && rows[i].gallery.id == id && forall|j: int|
                from <= j < i ==> (#[trigger] rows[j]).gallery.id != id,
            None => forall|j: int| from <= j < rows.len() ==> (#[trigger] rows[j]).gallery.id != id,
        },
    decreases rows.len() - from,
{
    if from < rows.len() && rows[from].gallery.id != id {
        lemma_id_from(rows, id, from + 1);
    }
}

/// The rating of `g` lies between zero and five stars, and its counts are
/// not below zero.
pub open spec fn gallery_in_range(g: GalleryView) -> bool {
    g.rating <= MAX_RATING && g.page_count >= 0 && g.favorited >= 0
}

/// No two records of `rows` are for one folder, ids grow along `rows`
/// from 1 up to, but not reaching, `next_id`, and every record has its
/// rating and counts in range.
pub open spec fn well_formed(rows: Seq<RowView>, next_id: i64) -> bool {
    &&& 1 <= next_id
    &&& forall|i: int|
        0 <= i < rows.len() ==> 1 <= (#[trigger] rows[i]).gallery.id < next_id && gallery_in_range(
            rows[i].gallery,
        )
    &&& forall|i: int, j: int|
        0 <= i < j < rows.len() ==> (#[trigger] rows[i]).gallery.id < (#[trigger] rows[j]).gallery.id
    &&& forall|i: int, j: int|
        0 <= i < j < rows.len() ==> (#[trigger] rows[i]).gallery.path != (#[trigger] rows[j]).gallery.path
}


/// Whether the pair `(a_ns, a_tag)` comes before the pair `(b_ns, b_tag)`.
fn pair_less(a_ns: &str, a_tag: &str, b_ns: &str, b_tag: &str) -> (r: bool)
    ensures
        r == pair_lt((a_ns@, a_tag@), (b_ns@, b_tag@)),
{
    let an = chars_of(a_ns);
    let bn = chars_of(b_ns);
    if text_less(&an, &bn) {
        return true;
    }
    if !same_chars(&an, &bn) {
        return false;
    }
    let at = chars_of(a_tag);
    let bt = chars_of(b_tag);
    text_less(&at, &bt)
}

/// The pairs of `pairs`, each once, in order.
pub fn sorted_tags(pairs: &Vec<(String, String)>) -> (out: Vec<TagEntry>)
    ensures
        tags_view(out@) == tag_set(pairs_view(pairs@)),
{
    let ghost all = pairs_view(pairs@);
    let mut out: Vec<TagEntry> = Vec::new();
    let mut i: usize = 0;
    proof {
        assert(all.take(0) =~= Seq::<TagPair>::empty());
        assert(tags_view(out@) =~= Seq::<TagPair>::empty());
    }
    while i < pairs.len()
        invariant
            i <= pairs.len(),
            all == pairs_view(pairs@),
            tags_view(out@) == tag_set(all.take(i as int)),
        decreases pairs.len() - i,
    {
        let ns = pairs[i].0.clone();
        let tag = pairs[i].1.clone();
        let ghost t = (ns@, tag@);
        let ghost sorted = tags_view(out@);
        let mut at: usize = 0;
        while at < out.len() && pair_less(
            out[at].namespace.as_str(),
            out[at].tag.as_str(),
            ns.as_str(),
            tag.as_str(),
        )
            invariant
                at <= out.len(),
                sorted == tags_view(out@),
                t == (ns@, tag@),
                tag_place(sorted, t, 0) == tag_place(sorted, t, at as int),
            decreases out.len() - at,
        {
            proof {
                assert(sorted[at as int] == out@[at as int]@);
            }
            at += 1;
        }
        proof {
            assert(all.take(i + 1).drop_last() =~= all.take(i as int));
            assert(all.take(i + 1).last() == t);
            if at < out.len() {
                assert(sorted[at as int] == out@[at as int]@);
            }
            assert(tag_place(sorted, t, 0) == at);
        }
        if at < out.len() && out[at].namespace == ns && out[at].tag == tag {
        } else {
            out.insert(at, TagEntry { namespace: ns, tag });
            proof {
                assert(tags_view(out@) =~= sorted.insert(at as int, t));
            }
        }
        i += 1;
    }
    proof {
        assert(all.take(pairs@.len() as int) =~= all);
    }
    out
}

/// A copy of `tags`.
pub fn copy_tags(tags: &Vec<TagEntry>) -> (out: Vec<TagEntry>)
    ensures
        tags_view(out@) == tags_view(tags@),
{
    let mut out: Vec<TagEntry> = Vec::new();
    let mut i: usize = 0;
    while i < tags.len()
        invariant
            i <= tags.len(),
            tags_view(out@) == tags_view(tags@).take(i as int),
        decreases tags.len() - i,
    {
        out.push(TagEntry { namespace: tags[i].namespace.clone(), tag: tags[i].tag.clone() });
        proof {
            assert(tags_view(out@) =~= tags_view(tags@).take(i as int).push(tags@[i as int]@));
            assert(tags_view(tags@).take(i + 1) =~= tags_view(tags@).take(i as int).push(
                tags@[i as int]@,
            ));
        }
        i += 1;
    }
    proof {
        assert(tags_view(tags@).take(tags@.len() as int) =~= tags_view(tags@));
    }
    out
}

impl Gallery {
    /// A copy of this gallery.
    pub fn duplicate(&self) -> (g: Gallery)
        ensures
            g@ == self@,
    {
        Gallery {
            id: self.id,
            path: self.path.clone(),
            title_en: self.title_en.clone(),
            title_jp: self.title_jp.clone(),
            url: self.url.clone(),
            category: self.category.clone(),
            uploader: self.uploader.clone(),
            posted: self.posted.clone(),
            language: self.language.clone(),
            file_size: self.file_size.clone(),
            page_count: self.page_count,
            rating: self.rating,
            favorited: self.favorited,
            thumb_path: self.thumb_path.clone(),
            folder_name: self.folder_name.clone(),
            parent_path: self.parent_path.clone(),
        }
    }
}

/// The record for the folder `path` under the id `id`.
fn make_row(
    id: i64,
    path: &str,
    parsed: &ParsedGallery,
    thumb_path: &str,
    info_modified: &str,
    now: u64,
) -> (row: Row)
    ensures
        row@ == row_for(id, path@, parsed@, thumb_path@, info_modified@, now),
{
    Row {
        gallery: Gallery {
            id,
            path: path.to_owned(),
            title_en: parsed.title_en.clone(),
            title_jp: parsed.title_jp.clone(),
            url: parsed.url.clone(),
            category: parsed.category.clone(),
            uploader: parsed.uploader.clone(),
            posted: parsed.posted.clone(),
            language: parsed.language.clone(),
            file_size: parsed.file_size.clone(),
            page_count: if parsed.page_count >= 0 {
                parsed.page_count
            } else {
                0
            },
            rating: if parsed.rating <= MAX_RATING {
                parsed.rating
            } else {
                0
            },
            favorited: if parsed.favorited >= 0 {
                parsed.favorited
            } else {
                0
            },
            thumb_path: thumb_path.to_owned(),
            folder_name: file_name(path),
            parent_path: parent(path),
        },
        tags: sorted_tags(&parsed.tags),
        info_modified: info_modified.to_owned(),
        scanned_at: now,
    }
}


/// The paths of the folders of `rows`, in order.
pub open spec fn paths_of(rows: Seq<RowView>) -> Seq<Seq<char>> {
    rows.map_values(|r: RowView| r.gallery.path)
}

/// The record `row` with `thumb_path` as its thumbnail.
pub open spec fn with_thumb(row: RowView, thumb_path: Seq<char>) -> RowView {
    RowView { gallery: GalleryView { thumb_path, ..row.gallery }, ..row }
}

/// A catalog in order holds fewer records than ids have been given out.
pub proof fn lemma_fewer_rows_than_ids(rows: Seq<RowView>, next_id: i64)
    requires
        well_formed(rows, next_id),
    ensures
        rows.len() < next_id,
        forall|i: int| 0 <= i < rows.len() ==> i < (#[trigger] rows[i]).gallery.id,
    decreases rows.len(),
{
    if rows.len() > 0 {
        let before = rows.drop_last();
        lemma_fewer_rows_than_ids(before, next_id);
        let n = rows.len() - 1;
        if n > 0 {
            assert(before[n - 1] == rows[n - 1]);
            assert(rows[n - 1].gallery.id < rows[n].gallery.id);
        }
        assert forall|i: int| 0 <= i < rows.len() implies i < (#[trigger] rows[i]).gallery.id by {
            if i < n {
                assert(before[i] == rows[i]);
            }
        }
    }
}


/// The places below `n` of the records of `rows` that `keep` holds of, in
/// order.
pub open spec fn selected(rows: Seq<RowView>, keep: spec_fn(RowView) -> bool, n: int) -> Seq<int>
    decreases n,
{
    if n <= 0 {
        seq![]
    } else {
        let before = selected(rows, keep, n - 1);
        if keep(rows[n - 1]) {
            before.push(n - 1)
        } else {
            before
        }
    }
}

/// The keys of the records of `rows` at the places `picked`.
pub open spec fn keys_at(rows: Seq<RowView>, picked: Seq<int>, key: spec_fn(RowView) -> Seq<u64>) -> Seq<
    Seq<u64>,
> {
    picked.map_values(|i: int| key(rows[i]))
}

/// The places `picked` sorted by the keys `keys`; places with keys of which
/// neither comes before the other stay in the order of `picked`.
pub open spec fn ranked(picked: Seq<int>, keys: Seq<Seq<u64>>, descending: bool) -> Seq<int> {
    sorted_order(keys, descending).map_values(|k: int| picked[k])
}

/// What a listing shows of the records of `rows` at the places `at`.
pub open spec fn summaries_at(rows: Seq<RowView>, at: Seq<int>) -> Seq<SummaryView> {
    at.map_values(|i: int| summary_of(rows[i].gallery))
}

/// The galleries of `rows` that lie directly in the folder `parent`, by
/// the names of their folders without regard to the case of `A` to `Z`.
pub open spec fn folder_listing(rows: Seq<RowView>, parent: Seq<char>) -> Seq<SummaryView> {
    let picked = selected(rows, |r: RowView| r.gallery.parent_path == parent, rows.len() as int);
    let keys = keys_at(rows, picked, |r: RowView| nocase_codes(r.gallery.folder_name));
    summaries_at(rows, ranked(picked, keys, false))
}

/// The query asks for a free-text match: it has a text that is not blank.
pub open spec fn has_text(q: QueryView) -> bool {
    q.text matches Some(t) && trimmed(t).len() > 0
}

/// The record `row` passes the query `q`, where `hits` are the ids that the
/// free-text index matched for the query's text: it is among the hits if
/// the query has a text, it carries every tag asked for, and its category
/// and language are the ones asked for, if any is.
pub open spec fn row_matches(row: RowView, q: QueryView, hits: Option<Seq<i64>>) -> bool {
    &&& has_text(q) ==> hits is Some && hits->0.contains(row.gallery.id)
    &&& forall|k: int| 0 <= k < q.tags.len() ==> row.tags.contains(#[trigger] q.tags[k])
    &&& q.category matches Some(c) ==> c.len() == 0 || row.gallery.category == c
    &&& q.language matches Some(l) ==> l.len() == 0 || row.gallery.language == l
}

/// The key by which `sort_by` orders the record `row`: rating, page count,
/// posting date or title where it names one, else the time of writing.
pub open spec fn sort_key_of(row: RowView, sort_by: Option<Seq<char>>) -> Seq<u64> {
    if sort_by == Some("rating"@) {
        seq![row.gallery.rating as u64]
    } else if sort_by == Some("pages"@) {
        signed_key(row.gallery.page_count)
    } else if sort_by == Some("posted"@) {
        codes(row.gallery.posted)
    } else if sort_by == Some("title"@) {
        codes(row.gallery.title_en)
    } else {
        seq![row.scanned_at]
    }
}

/// Results come highest first unless the query asks for `asc`.
pub open spec fn is_descending(sort_order: Option<Seq<char>>) -> bool {
    sort_order != Some("asc"@)
}

/// The places of the records of `rows` that pass the query.
pub open spec fn search_hits(rows: Seq<RowView>, q: QueryView, hits: Option<Seq<i64>>) -> Seq<int> {
    selected(rows, |r: RowView| row_matches(r, q, hits), rows.len() as int)
}

/// The places of the records of `rows` that pass the query, in the order
/// that the query asks for.
pub open spec fn search_listing(rows: Seq<RowView>, q: QueryView, hits: Option<Seq<i64>>) -> Seq<
    int,
> {
    let picked = search_hits(rows, q, hits);
    let keys = keys_at(rows, picked, |r: RowView| sort_key_of(r, q.sort_by));
    ranked(picked, keys, is_descending(q.sort_order))
}

/// Where the page that starts `offset` places into `len` places begins: an
/// offset below zero counts as zero.
pub open spec fn window_start(len: int, offset: i64) -> int {
    if offset <= 0 {
        0
    } else if offset >= len {
        len
    } else {
        offset as int
    }
}

/// How many places the page holds: `limit` of them or what is left; a limit
/// below zero is none.
pub open spec fn window_len(len: int, offset: i64, limit: i64) -> int {
    let left = len - window_start(len, offset);
    if limit < 0 || limit > left {
        left
    } else {
        limit as int
    }
}

/// The page of `listing` that `offset` and `limit` cut out.
pub open spec fn window_of(listing: Seq<int>, offset: i64, limit: i64) -> Seq<int> {
    let from = window_start(listing.len() as int, offset);
    listing.subrange(from, from + window_len(listing.len() as int, offset, limit))
}

/// What the query `q` shows of `rows`.
pub open spec fn search_page(rows: Seq<RowView>, q: QueryView, hits: Option<Seq<i64>>) -> Seq<
    SummaryView,
> {
    summaries_at(rows, window_of(search_listing(rows, q, hits), q.offset, q.limit))
}

/// The places that are selected are places of records, below `n`.
pub proof fn lemma_selected_bounds(rows: Seq<RowView>, keep: spec_fn(RowView) -> bool, n: int)
    requires
        0 <= n <= rows.len(),
    ensures
        selected(rows, keep, n).len() <= n,
        forall|k: int|
            0 <= k < selected(rows, keep, n).len() ==> 0 <= #[trigger] selected(rows, keep, n)[k]
                < n,
    decreases n,
{
    if n > 0 {
        lemma_selected_bounds(rows, keep, n - 1);
    }
}


/// The ids held in `hits`, if any are given.
pub open spec fn hits_view(hits: Option<&Vec<i64>>) -> Option<Seq<i64>> {
    match hits {
        Some(v) => Some(v@),
        None => None,
    }
}

/// Whether `ids` holds `id`.
fn holds_id(ids: &Vec<i64>, id: i64) -> (r: bool)
    ensures
        r == ids@.contains(id),
{
    let mut i: usize = 0;
    while i < ids.len()
        invariant
            i <= ids.len(),
            forall|j: int| 0 <= j < i ==> ids@[j] != id,
        decreases ids.len() - i,
    {
        if ids[i] == id {
            return true;
        }
        i += 1;
    }
    false
}

/// Whether `tags` holds the pair that `filter` asks for.
fn holds_tag(tags: &Vec<TagEntry>, filter: &TagFilter) -> (r: bool)
    ensures
        r == tags_view(tags@).contains(filter@),
{
    let mut i: usize = 0;
    while i < tags.len()
        invariant
            i <= tags.len(),
            forall|j: int| 0 <= j < i ==> tags_view(tags@)[j] != filter@,
        decreases tags.len() - i,
    {
        proof {
            assert(tags_view(tags@)[i as int] == tags@[i as int]@);
        }
        if tags[i].namespace == filter.namespace && tags[i].tag == filter.tag {
            return true;
        }
        i += 1;
    }
    false
}

/// Whether the text of the query is not blank.
fn asks_for_text(query: &SearchQuery) -> (r: bool)
    ensures
        r == has_text(query@),
{
    match &query.text {
        Some(t) => {
            let chars = chars_of(t.as_str());
            trim(&chars).len() > 0
        },
        None => false,
    }
}

/// Whether `wanted` is absent or empty or spells `actual`.
fn passes_exact(wanted: &Option<String>, actual: &String) -> (r: bool)
    ensures
        r == (opt_view(*wanted) matches Some(c) ==> c.len() == 0 || actual@ == c),
{
    match wanted {
        Some(c) => c.as_str().is_empty() || *actual == *c,
        None => true,
    }
}

/// Whether the record `row` passes the query.
fn row_passes(row: &Row, query: &SearchQuery, with_text: bool, hits: Option<&Vec<i64>>) -> (r: bool)
    requires
        with_text == has_text(query@),
    ensures
        r == row_matches(row@, query@, hits_view(hits)),
{
    if with_text {
        match hits {
            Some(ids) => {
                if !holds_id(ids, row.gallery.id) {
                    return false;
                }
            },
            None => {
                return false;
            },
        }
    }
    let mut k: usize = 0;
    while k < query.tags.len()
        invariant
            k <= query.tags.len(),
            forall|j: int| 0 <= j < k ==> row@.tags.contains(#[trigger] query@.tags[j]),
        decreases query.tags.len() - k,
    {
        proof {
            assert(query@.tags[k as int] == query.tags@[k as int]@);
        }
        if !holds_tag(&row.tags, &query.tags[k]) {
            return false;
        }
        k += 1;
    }
    passes_exact(&query.category, &row.gallery.category) && passes_exact(
        &query.language,
        &row.gallery.language,
    )
}

/// Whether `wanted` spells `word`.
fn names(wanted: &Option<String>, word: &str) -> (r: bool)
    ensures
        r == (opt_view(*wanted) == Some(word@)),
{
    match wanted {
        Some(s) => same_text(s.as_str(), word),
        None => false,
    }
}

/// The key by which `sort_by` orders the record `row`.
fn row_key(row: &Row, sort_by: &Option<String>) -> (key: Vec<u64>)
    ensures
        key@ == sort_key_of(row@, opt_view(*sort_by)),
{
    if names(sort_by, "rating") {
        let mut key: Vec<u64> = Vec::new();
        key.push(row.gallery.rating as u64);
        proof {
            assert(key@ =~= seq![row.gallery.rating as u64]);
        }
        key
    } else if names(sort_by, "pages") {
        number_key(row.gallery.page_count)
    } else if names(sort_by, "posted") {
        text_key(row.gallery.posted.as_str())
    } else if names(sort_by, "title") {
        text_key(row.gallery.title_en.as_str())
    } else {
        let mut key: Vec<u64> = Vec::new();
        key.push(row.scanned_at);
        proof {
            assert(key@ =~= seq![row.scanned_at]);
        }
        key
    }
}


/// The places below `n` at which `keys` holds `key`, in order.
pub open spec fn members(keys: Seq<Seq<char>>, key: Seq<char>, n: int) -> Seq<int>
    decreases n,
{
    if n <= 0 {
        seq![]
    } else {
        let before = members(keys, key, n - 1);
        if keys[n - 1] == key {
            before.push(n - 1)
        } else {
            before
        }
    }
}

/// No place before `i` holds the key that `keys` holds at `i`.
pub open spec fn is_first(keys: Seq<Seq<char>>, i: int) -> bool {
    forall|j: int| 0 <= j < i ==> #[trigger] keys[j] != keys[i]
}

/// The groups of two or more places that hold one key, for the keys that
/// first occur below `n`, in the order in which the keys first occur. With
/// `skip_empty` the empty key forms no group.
pub open spec fn duplicate_groups(keys: Seq<Seq<char>>, skip_empty: bool, n: int) -> Seq<Seq<int>>
    decreases n,
{
    if n <= 0 {
        seq![]
    } else {
        let before = duplicate_groups(keys, skip_empty, n - 1);
        let group = members(keys, keys[n - 1], keys.len() as int);
        if is_first(keys, n - 1) && !(skip_empty && keys[n - 1].len() == 0) && group.len() >= 2 {
            before.push(group)
        } else {
            before
        }
    }
}

/// The source addresses of `rows`, in order.
pub open spec fn url_keys(rows: Seq<RowView>) -> Seq<Seq<char>> {
    rows.map_values(|r: RowView| r.gallery.url)
}

/// The folder names of `rows` in lower case, in order.
pub open spec fn name_keys(rows: Seq<RowView>) -> Seq<Seq<char>> {
    rows.map_values(|r: RowView| lowercase_of(r.gallery.folder_name))
}

/// The groups held in `v`, as views.
pub open spec fn groups_view(v: Seq<Vec<GallerySummary>>) -> Seq<Seq<SummaryView>> {
    v.map_values(|g: Vec<GallerySummary>| summaries_view(g@))
}

/// What a listing shows of each of the groups `groups` of places in
/// `rows`.
pub open spec fn shown_groups(rows: Seq<RowView>, groups: Seq<Seq<int>>) -> Seq<Seq<SummaryView>> {
    groups.map_values(|g: Seq<int>| summaries_at(rows, g))
}

/// The places that are members are places below `n` that hold the key.
pub proof fn lemma_members_bounds(keys: Seq<Seq<char>>, key: Seq<char>, n: int)
    requires
        0 <= n <= keys.len(),
    ensures
        members(keys, key, n).len() <= n,
        forall|k: int|
            0 <= k < members(keys, key, n).len() ==> 0 <= #[trigger] members(keys, key, n)[k] < n
                && keys[members(keys, key, n)[k]] == key,
    decreases n,
{
    if n > 0 {
        lemma_members_bounds(keys, key, n - 1);
    }
}


/// The records of a catalog and the id that its next new folder gets.
pub struct Catalog {
    pub rows: Seq<RowView>,
    pub next_id: i64,
}

/// The answer to writing the record of the folder `path` into `c`: the id
/// that the folder has, or the next id for a new folder, or the failure
/// where a new folder finds no id left.
pub open spec fn upsert_answer(c: Catalog, path: Seq<char>) -> Result<i64, DbError> {
    match place_of_path(c.rows, path) {
        Some(i) => Ok(c.rows[i].gallery.id),
        None => if c.next_id < i64::MAX {
            Ok(c.next_id)
        } else {
            Err(DbError::IdsExhausted)
        },
    }
}

/// The catalog `c` after the record of the folder `path` has been written:
/// a folder that is catalogued keeps its id and its place, a new one gets
/// the next id and comes last, and nothing changes where a new folder
/// finds no id left.
pub open spec fn after_upsert(
    c: Catalog,
    path: Seq<char>,
    parsed: ParsedInfo,
    thumb_path: Seq<char>,
    info_modified: Seq<char>,
    now: u64,
) -> Catalog {
    match place_of_path(c.rows, path) {
        Some(i) => Catalog {
            rows: c.rows.update(
                i,
                row_for(c.rows[i].gallery.id, path, parsed, thumb_path, info_modified, now),
            ),
            next_id: c.next_id,
        },
        None => if c.next_id < i64::MAX {
            Catalog {
                rows: c.rows.push(
                    row_for(c.next_id, path, parsed, thumb_path, info_modified, now),
                ),
                next_id: (c.next_id + 1) as i64,
            }
        } else {
            c
        },
    }
}

/// The records below `n` of `rows` that `keep` holds of, in order.
pub open spec fn retained(rows: Seq<RowView>, keep: spec_fn(RowView) -> bool, n: int) -> Seq<
    RowView,
>
    decreases n,
{
    if n <= 0 {
        seq![]
    } else {
        let before = retained(rows, keep, n - 1);
        if keep(rows[n - 1]) {
            before.push(rows[n - 1])
        } else {
            before
        }
    }
}

/// Every record that is retained is one of the records, and the retained
/// records stand in the order that they had.
pub proof fn lemma_retained_from(rows: Seq<RowView>, keep: spec_fn(RowView) -> bool, n: int)
    requires
        0 <= n <= rows.len(),
    ensures
        retained(rows, keep, n).len() <= n,
        forall|k: int|
            0 <= k < retained(rows, keep, n).len() ==> exists|j: int|
                k <= j < n && rows[j] == #[trigger] retained(rows, keep, n)[k] && keep(rows[j]),
        forall|j: int|
            0 <= j < n && keep(rows[j]) ==> retained(rows, keep, n).contains(#[trigger] rows[j]),
    decreases n,
{
    if n > 0 {
        lemma_retained_from(rows, keep, n - 1);
        let before = retained(rows, keep, n - 1);
        let now = retained(rows, keep, n);
        assert forall|k: int| 0 <= k < now.len() implies exists|j: int|
            k <= j < n && rows[j] == #[trigger] now[k] && keep(rows[j]) by {
            if k < before.len() {
                let j = choose|j: int| k <= j < n - 1 && rows[j] == before[k] && keep(rows[j]);
                assert(rows[j] == now[k]);
            } else {
                assert(rows[n - 1] == now[k]);
            }
        }
        assert forall|j: int| 0 <= j < n && keep(rows[j]) implies now.contains(
            #[trigger] rows[j],
        ) by {
            if j < n - 1 {
                assert(before.contains(rows[j]));
                let k = choose|k: int| 0 <= k < before.len() && before[k] == rows[j];
                assert(now[k] == rows[j]);
            } else {
                assert(now[now.len() - 1] == rows[j]);
            }
        }
    }
}

/// What is retained of a catalog in order is a catalog in order.
pub proof fn lemma_retained_well_formed(
    rows: Seq<RowView>,
    keep: spec_fn(RowView) -> bool,
    n: int,
    next_id: i64,
)
    requires
        0 <= n <= rows.len(),
        well_formed(rows, next_id),
    ensures
        well_formed(retained(rows, keep, n), next_id),
        forall|k: int|
            0 <= k < retained(rows, keep, n).len() ==> exists|j: int|
                0 <= j < n && rows[j] == #[trigger] retained(rows, keep, n)[k],
    decreases n,
{
    if n > 0 {
        lemma_retained_well_formed(rows, keep, n - 1, next_id);
        let before = retained(rows, keep, n - 1);
        let now = retained(rows, keep, n);
        assert forall|k: int| 0 <= k < now.len() implies exists|j: int|
            0 <= j < n && rows[j] == #[trigger] now[k] by {
            if k < before.len() {
                let j = choose|j: int| 0 <= j < n - 1 && rows[j] == before[k];
                assert(rows[j] == now[k]);
            } else {
                assert(rows[n - 1] == now[k]);
            }
        }
        if keep(rows[n - 1]) {
            assert forall|a: int, b: int| 0 <= a < b < now.len() implies (#[trigger] now[a]).gallery.id
                < (#[trigger] now[b]).gallery.id && now[a].gallery.path != now[b].gallery.path by {
                if b < before.len() {
                    assert(now[a] == before[a] && now[b] == before[b]);
                } else {
                    let j = choose|j: int| 0 <= j < n - 1 && rows[j] == before[a];
                    assert(now[a] == rows[j]);
                    assert(now[b] == rows[n - 1]);
                }
            }
            assert forall|a: int| 0 <= a < now.len() implies 1 <= (#[trigger] now[a]).gallery.id
                < next_id by {
                if a < before.len() {
                    assert(now[a] == before[a]);
                }
            }
        }
    }
}


/// The record `row` outlives a sweep of `root`: its folder was seen, or
/// does not lie under `root`.
pub open spec fn survives(row: RowView, root: Seq<char>, seen: Seq<Seq<char>>) -> bool {
    seen.contains(row.gallery.path) || !is_under(row.gallery.path, root)
}

/// The records of `rows` that outlive a sweep of `root`, in order.
pub open spec fn swept(rows: Seq<RowView>, root: Seq<char>, seen: Seq<Seq<char>>) -> Seq<RowView> {
    retained(rows, |r: RowView| survives(r, root, seen), rows.len() as int)
}

/// Whether `texts` holds `text`.
pub fn holds_text(texts: &Vec<String>, text: &str) -> (r: bool)
    ensures
        r == strings_view(texts@).contains(text@),
{
    let mut i: usize = 0;
    while i < texts.len()
        invariant
            i <= texts.len(),
            forall|j: int| 0 <= j < i ==> strings_view(texts@)[j] != text@,
        decreases texts.len() - i,
    {
        proof {
            assert(strings_view(texts@)[i as int] == texts@[i as int]@);
        }
        if same_text(texts[i].as_str(), text) {
            return true;
        }
        i += 1;
    }
    false
}


/// The query `q` asks for nothing in particular: it has no text, no tag,
/// and neither category nor language.
pub open spec fn is_unfiltered(q: QueryView) -> bool {
    &&& !has_text(q)
    &&& q.tags.len() == 0
    &&& q.category matches Some(c) ==> c.len() == 0
    &&& q.language matches Some(l) ==> l.len() == 0
}

/// The query `q` with another window.
pub open spec fn with_window(q: QueryView, offset: i64, limit: i64) -> QueryView {
    QueryView { offset, limit, ..q }
}

/// Two tests that agree on the records select the same places.
pub proof fn lemma_selected_agree(
    rows: Seq<RowView>,
    keep: spec_fn(RowView) -> bool,
    other: spec_fn(RowView) -> bool,
    n: int,
)
    requires
        0 <= n <= rows.len(),
        forall|i: int| 0 <= i < n ==> keep(#[trigger] rows[i]) == other(rows[i]),
    ensures
        selected(rows, keep, n) == selected(rows, other, n),
    decreases n,
{
    if n > 0 {
        lemma_selected_agree(rows, keep, other, n - 1);
    }
}

/// A test that holds of every record selects every place.
pub proof fn lemma_selected_all(rows: Seq<RowView>, keep: spec_fn(RowView) -> bool, n: int)
    requires
        0 <= n <= rows.len(),
        forall|i: int| 0 <= i < n ==> keep(#[trigger] rows[i]),
    ensures
        selected(rows, keep, n).len() == n,
    decreases n,
{
    if n > 0 {
        lemma_selected_all(rows, keep, n - 1);
    }
}

/// Pagination. The matches of a query and their order do not depend on the
/// window, so the number of all matches is the same for every page, and
/// the pages are cut from one listing. The listing stands in the order
/// asked for. A page holds as many records as the limit says, or as are
/// left after the offset. A query that asks for nothing in particular
/// matches every record.
pub proof fn lemma_search_pages(
    rows: Seq<RowView>,
    q: QueryView,
    hits: Option<Seq<i64>>,
    offset: i64,
    limit: i64,
)
    ensures
        search_hits(rows, with_window(q, offset, limit), hits) == search_hits(rows, q, hits),
        search_listing(rows, with_window(q, offset, limit), hits) == search_listing(rows, q, hits),
        search_listing(rows, q, hits).len() == search_hits(rows, q, hits).len(),
        forall|i: int, j: int|
            0 <= i < j < search_listing(rows, q, hits).len() ==> !placed_before(
                sort_key_of(rows[#[trigger] search_listing(rows, q, hits)[j]], q.sort_by),
                sort_key_of(rows[#[trigger] search_listing(rows, q, hits)[i]], q.sort_by),
                is_descending(q.sort_order),
            ),
        search_page(rows, with_window(q, offset, limit), hits) == summaries_at(
            rows,
            window_of(search_listing(rows, q, hits), offset, limit),
        ),
        0 <= offset && 0 <= limit ==> search_page(
            rows,
            with_window(q, offset, limit),
            hits,
        ).len() == (if search_hits(rows, q, hits).len() - offset <= 0 {
            0
        } else if limit < search_hits(rows, q, hits).len() - offset {
            limit as int
        } else {
            search_hits(rows, q, hits).len() - offset
        }),
        is_unfiltered(q) ==> search_hits(rows, q, hits).len() == rows.len(),
{
    let w = with_window(q, offset, limit);
    let n = rows.len() as int;
    let keep = |r: RowView| row_matches(r, q, hits);
    let keep_w = |r: RowView| row_matches(r, w, hits);
    assert forall|i: int| 0 <= i < n implies keep_w(#[trigger] rows[i]) == keep(rows[i]) by {
        assert(w.text == q.text && w.tags == q.tags && w.category == q.category && w.language
            == q.language);
        assert(has_text(w) == has_text(q));
        assert(row_matches(rows[i], w, hits) == row_matches(rows[i], q, hits));
    }
    lemma_selected_agree(rows, keep_w, keep, n);
    let picked = search_hits(rows, q, hits);
    let keys = keys_at(rows, picked, |r: RowView| sort_key_of(r, q.sort_by));
    let keys_w = keys_at(rows, picked, |r: RowView| sort_key_of(r, w.sort_by));
    assert(keys_w =~= keys);
    let descending = is_descending(q.sort_order);
    let order = sorted_order(keys, descending);
    let listing = search_listing(rows, q, hits);
    lemma_sorted_prefix_indices(keys, descending, keys.len() as int);
    lemma_sorted_prefix_in_order(keys, descending, keys.len() as int);
    lemma_selected_bounds(rows, keep, n);
    assert forall|i: int, j: int| 0 <= i < j < listing.len() implies !placed_before(
        sort_key_of(rows[#[trigger] listing[j]], q.sort_by),
        sort_key_of(rows[#[trigger] listing[i]], q.sort_by),
        descending,
    ) by {
        assert(listing[i] == picked[order[i]]);
        assert(listing[j] == picked[order[j]]);
        assert(keys[order[i]] == sort_key_of(rows[picked[order[i]]], q.sort_by));
        assert(keys[order[j]] == sort_key_of(rows[picked[order[j]]], q.sort_by));
    }
    if is_unfiltered(q) {
        assert forall|i: int| 0 <= i < n implies keep(#[trigger] rows[i]) by {}
        lemma_selected_all(rows, keep, n);
    }
}


/// Duplicate detection. Every group that is reported holds two or more
/// places; they are the places of one key, and every place that the group
/// names holds that key. With `skip_empty` the key is not empty. So a key
/// that only one record has forms no group.
pub proof fn lemma_groups_hold_duplicates(keys: Seq<Seq<char>>, skip_empty: bool, n: int)
    requires
        0 <= n <= keys.len(),
    ensures
        forall|g: int|
            0 <= g < duplicate_groups(keys, skip_empty, n).len() ==> {
                let group = #[trigger] duplicate_groups(keys, skip_empty, n)[g];
                &&& group.len() >= 2
                &&& exists|i: int|
                    {
                        &&& 0 <= i < n
                        &&& group == members(keys, #[trigger] keys[i], keys.len() as int)
                        &&& is_first(keys, i)
                        &&& !(skip_empty && keys[i].len() == 0)
                        &&& forall|k: int|
                            0 <= k < group.len() ==> 0 <= #[trigger] group[k] < keys.len()
                                && keys[group[k]] == keys[i]
                    }
            },
    decreases n,
{
    if n > 0 {
        lemma_groups_hold_duplicates(keys, skip_empty, n - 1);
        let before = duplicate_groups(keys, skip_empty, n - 1);
        let now = duplicate_groups(keys, skip_empty, n);
        assert forall|g: int| 0 <= g < now.len() implies {
            let group = #[trigger] now[g];
            &&& group.len() >= 2
            &&& exists|i: int|
                {
                    &&& 0 <= i < n
                    &&& group == members(keys, #[trigger] keys[i], keys.len() as int)
                    &&& is_first(keys, i)
                    &&& !(skip_empty && keys[i].len() == 0)
                    &&& forall|k: int|
                        0 <= k < group.len() ==> 0 <= #[trigger] group[k] < keys.len()
                            && keys[group[k]] == keys[i]
                }
        } by {
            if g < before.len() {
                assert(now[g] == before[g]);
                let group = before[g];
                let i = choose|i: int|
                    {
                        &&& 0 <= i < n - 1
                        &&& group == members(keys, #[trigger] keys[i], keys.len() as int)
                        &&& is_first(keys, i)
                        &&& !(skip_empty && keys[i].len() == 0)
                        &&& forall|k: int|
                            0 <= k < group.len() ==> 0 <= #[trigger] group[k] < keys.len()
                                && keys[group[k]] == keys[i]
                    };
                assert(0 <= i < n && now[g] == members(keys, keys[i], keys.len() as int));
            } else {
                lemma_members_bounds(keys, keys[n - 1], keys.len() as int);
                assert(now[g] == members(keys, keys[n - 1], keys.len() as int));
            }
        }
    }
}

/// The record with which the stored gallery `g` comes back into the
/// catalog.
pub open spec fn restored_row(
    g: GalleryView,
    tags: Seq<TagPair>,
    info_modified: Seq<char>,
    scanned_at: u64,
) -> RowView {
    RowView { gallery: g, tags: tag_set(tags), info_modified, scanned_at }
}

/// The stored gallery `g` can come back into the catalog `c`: its id is
/// not below the next id and leaves a next id, its folder has no record,
/// and its rating and counts are in range.
pub open spec fn can_restore(c: Catalog, g: GalleryView) -> bool {
    c.next_id <= g.id < i64::MAX && place_of_path(c.rows, g.path) is None && gallery_in_range(g)
}


/// The catalog.
pub struct Database {
    rows: Vec<Row>,
    next_id: i64,
}

impl View for Database {
    type V = Seq<RowView>;

    closed spec fn view(&self) -> Seq<RowView> {
        rows_view(self.rows@)
    }
}

impl Database {
    /// The id that the next new folder gets.
    pub closed spec fn next_id(&self) -> i64 {
        self.next_id
    }

    /// The records and the next id.
    pub open spec fn catalog(&self) -> Catalog {
        Catalog { rows: self@, next_id: self.next_id() }
    }

    /// The catalog is in order.
    pub open spec fn wf(&self) -> bool {
        well_formed(self@, self.next_id())
    }

    /// An empty catalog.
    pub fn new() -> (db: Database)
        ensures
            db@ == Seq::<RowView>::empty(),
            db.next_id() == 1,
            db.wf(),
    {
        let db = Database { rows: Vec::new(), next_id: 1 };
        proof {
            assert(db@ =~= Seq::<RowView>::empty());
        }
        db
    }


    /// Writes the record of the folder `path`: the fields that `parsed`
    /// gives, the folder's name and parent taken from the path, the tags
    /// of `parsed` in place of any earlier ones, the thumbnail, the
    /// sidecar's marker and the time `now`. A folder that is already
    /// catalogued keeps its id and its place; a new one gets the next id
    /// and comes last. Only a new folder can fail, when no id is left.
    pub fn upsert_gallery(
        &mut self,
        path: &str,
        parsed: &ParsedGallery,
        thumb_path: &str,
        info_modified: &str,
        now: u64,
    ) -> (r: Result<i64, DbError>)
        requires
            old(self).wf(),
        ensures
            final(self).wf(),
            r == upsert_answer(old(self).catalog(), path@),
            final(self).catalog() == after_upsert(
                old(self).catalog(),
                path@,
                parsed@,
                thumb_path@,
                info_modified@,
                now,
            ),
    {
        proof {
            lemma_path_from(self@, path@, 0);
        }
        match self.find_path(path) {
            Some(i) => {
                let id = self.rows[i].gallery.id;
                let row = make_row(id, path, parsed, thumb_path, info_modified, now);
                let ghost before = self@;
                proof {
                    assert(before[i as int] == self.rows@[i as int]@);
                }
                self.rows.remove(i);
                self.rows.insert(i, row);
                proof {
                    assert(self@ =~= before.update(i as int, row@));
                }
                Ok(id)
            },
            None => {
                if self.next_id == i64::MAX {
                    return Err(DbError::IdsExhausted);
                }
                let id = self.next_id;
                let row = make_row(id, path, parsed, thumb_path, info_modified, now);
                let ghost before = self@;
                self.rows.push(row);
                self.next_id = id + 1;
                proof {
                    assert(self@ =~= before.push(row@));
                }
                Ok(id)
            },
        }
    }

    /// Removes the record of the folder `path`, if there is one, and says
    /// whether there was.
    pub fn delete_gallery_by_path(&mut self, path: &str) -> (removed: bool)
        requires
            old(self).wf(),
        ensures
            final(self).wf(),
            final(self).next_id() == old(self).next_id(),
            match place_of_path(old(self)@, path@) {
                Some(i) => removed && final(self)@ == old(self)@.remove(i),
                None => !removed && final(self)@ == old(self)@,
            },
    {
        proof {
            lemma_path_from(self@, path@, 0);
        }
        match self.find_path(path) {
            Some(i) => {
                let ghost before = self@;
                self.rows.remove(i);
                proof {
                    assert(self@ =~= before.remove(i as int));
                }
                true
            },
            None => false,
        }
    }


    /// The gallery with the id `id`.
    pub fn get_gallery_by_id(&self, id: i64) -> (r: Option<Gallery>)
        ensures
            match place_of_id(self@, id) {
                Some(i) => r is Some && r->0@ == self@[i].gallery,
                None => r is None,
            },
    {
        proof {
            lemma_id_from(self@, id, 0);
        }
        match self.find_id(id) {
            Some(i) => {
                proof {
                    assert(self@[i as int] == self.rows@[i as int]@);
                }
                Some(self.rows[i].gallery.duplicate())
            },
            None => None,
        }
    }

    /// What a listing shows of the gallery in the folder `path`.
    pub fn get_gallery_by_path(&self, path: &str) -> (r: Option<GallerySummary>)
        ensures
            match place_of_path(self@, path@) {
                Some(i) => r is Some && r->0@ == summary_of(self@[i].gallery),
                None => r is None,
            },
    {
        proof {
            lemma_path_from(self@, path@, 0);
        }
        match self.find_path(path) {
            Some(i) => {
                proof {
                    assert(self@[i as int] == self.rows@[i as int]@);
                }
                Some(self.rows[i].gallery.summary())
            },
            None => None,
        }
    }

    /// The tags of the gallery with the id `gallery_id`, by namespace and
    /// then by tag; none where there is no such gallery.
    pub fn get_tags_for_gallery(&self, gallery_id: i64) -> (r: Vec<TagEntry>)
        ensures
            tags_view(r@) == match place_of_id(self@, gallery_id) {
                Some(i) => self@[i].tags,
                None => Seq::<TagPair>::empty(),
            },
    {
        proof {
            lemma_id_from(self@, gallery_id, 0);
        }
        match self.find_id(gallery_id) {
            Some(i) => {
                proof {
                    assert(self@[i as int] == self.rows@[i as int]@);
                }
                copy_tags(&self.rows[i].tags)
            },
            None => {
                let r: Vec<TagEntry> = Vec::new();
                proof {
                    assert(tags_view(r@) =~= Seq::<TagPair>::empty());
                }
                r
            },
        }
    }

    /// The marker that the sidecar of the folder `path` had when its record
    /// was written.
    pub fn get_info_modified(&self, path: &str) -> (r: Option<String>)
        ensures
            opt_view(r) == match place_of_path(self@, path@) {
                Some(i) => Some(self@[i].info_modified),
                None => None,
            },
    {
        proof {
            lemma_path_from(self@, path@, 0);
        }
        match self.find_path(path) {
            Some(i) => {
                proof {
                    assert(self@[i as int] == self.rows@[i as int]@);
                }
                Some(self.rows[i].info_modified.clone())
            },
            None => None,
        }
    }

    /// The paths of all catalogued folders, in the order of their ids.
    pub fn get_all_gallery_paths(&self) -> (r: Vec<String>)
        ensures
            strings_view(r@) == paths_of(self@),
    {
        let mut out: Vec<String> = Vec::new();
        let mut i: usize = 0;
        while i < self.rows.len()
            invariant
                i <= self.rows.len(),
                strings_view(out@) == paths_of(self@).take(i as int),
            decreases self.rows.len() - i,
        {
            proof {
                assert(self@[i as int] == self.rows@[i as int]@);
            }
            out.push(self.rows[i].gallery.path.clone());
            proof {
                assert(strings_view(out@) =~= paths_of(self@).take(i as int).push(
                    self@[i as int].gallery.path,
                ));
                assert(paths_of(self@).take(i + 1) =~= paths_of(self@).take(i as int).push(
                    self@[i as int].gallery.path,
                ));
            }
            i += 1;
        }
        proof {
            assert(paths_of(self@).take(self@.len() as int) =~= paths_of(self@));
        }
        out
    }

    /// Gives the gallery with the id `gallery_id` the thumbnail
    /// `thumb_path`; nothing changes where there is no such gallery.
    pub fn update_thumb_path(&mut self, gallery_id: i64, thumb_path: &str)
        requires
            old(self).wf(),
        ensures
            final(self).wf(),
            final(self).next_id() == old(self).next_id(),
            final(self)@ == match place_of_id(old(self)@, gallery_id) {
                Some(i) => old(self)@.update(i, with_thumb(old(self)@[i], thumb_path@)),
                None => old(self)@,
            },
    {
        proof {
            lemma_id_from(self@, gallery_id, 0);
        }
        match self.find_id(gallery_id) {
            Some(i) => {
                let ghost before = self@;
                proof {
                    assert(before[i as int] == self.rows@[i as int]@);
                }
                let row = self.rows.remove(i);
                let mut gallery = row.gallery;
                gallery.thumb_path = thumb_path.to_owned();
                let row = Row {
                    gallery,
                    tags: row.tags,
                    info_modified: row.info_modified,
                    scanned_at: row.scanned_at,
                };
                self.rows.insert(i, row);
                proof {
                    assert(self@ =~= before.update(i as int, with_thumb(before[i as int], thumb_path@)));
                }
            },
            None => {},
        }
    }


    /// What a listing shows of the records at `picked[order[from..to]]`.
    fn summaries(&self, picked: &Vec<usize>, order: &Vec<usize>, from: usize, to: usize) -> (out:
        Vec<GallerySummary>)
        requires
            from <= to <= order.len(),
            forall|k: int| 0 <= k < order.len() ==> #[trigger] order@[k] < picked.len(),
            forall|k: int| 0 <= k < picked.len() ==> #[trigger] picked@[k] < self.rows.len(),
        ensures
            summaries_view(out@) == summaries_at(
                self@,
                indices_view(order@).map_values(|k: int| indices_view(picked@)[k]).subrange(
                    from as int,
                    to as int,
                ),
            ),
    {
        let ghost at = indices_view(order@).map_values(|k: int| indices_view(picked@)[k]).subrange(
            from as int,
            to as int,
        );
        let mut out: Vec<GallerySummary> = Vec::new();
        let mut k: usize = from;
        while k < to
            invariant
                from <= k <= to <= order.len(),
                forall|k: int| 0 <= k < order.len() ==> #[trigger] order@[k] < picked.len(),
                forall|k: int| 0 <= k < picked.len() ==> #[trigger] picked@[k] < self.rows.len(),
                at == indices_view(order@).map_values(|k: int| indices_view(picked@)[k]).subrange(
                    from as int,
                    to as int,
                ),
                summaries_view(out@) == summaries_at(self@, at.take(k - from)),
            decreases to - k,
        {
            let i = picked[order[k]];
            proof {
                assert(self@[i as int] == self.rows@[i as int]@);
                assert(at[k - from] == i);
            }
            let ghost shown = summaries_view(out@);
            let summary = self.rows[i].gallery.summary();
            out.push(summary);
            proof {
                assert(summaries_view(out@) =~= shown.push(summary@));
                assert(at.take(k - from + 1) =~= at.take(k - from).push(i as int));
                assert(summaries_at(self@, at.take(k - from).push(i as int)) =~= shown.push(
                    summary@,
                ));
            }
            k += 1;
        }
        proof {
            assert(at.take(to - from) =~= at);
        }
        out
    }

    /// The galleries that lie directly in the folder `parent_path`, by the
    /// names of their folders without regard to the case of `A` to `Z`.
    pub fn get_galleries_in_folder(&self, parent_path: &str) -> (r: Vec<GallerySummary>)
        ensures
            summaries_view(r@) == folder_listing(self@, parent_path@),
    {
        let ghost keep = |r: RowView| r.gallery.parent_path == parent_path@;
        let ghost key = |r: RowView| nocase_codes(r.gallery.folder_name);
        let mut picked: Vec<usize> = Vec::new();
        let mut keys: Vec<Vec<u64>> = Vec::new();
        let mut i: usize = 0;
        proof {
            assert(indices_view(picked@) =~= selected(self@, keep, 0));
            assert(keys_view(keys@) =~= keys_at(self@, selected(self@, keep, 0), key));
        }
        while i < self.rows.len()
            invariant
                i <= self.rows.len(),
                keep == |r: RowView| r.gallery.parent_path == parent_path@,
                key == |r: RowView| nocase_codes(r.gallery.folder_name),
                indices_view(picked@) == selected(self@, keep, i as int),
                keys_view(keys@) == keys_at(self@, indices_view(picked@), key),
                forall|k: int| 0 <= k < picked.len() ==> #[trigger] picked@[k] < self.rows.len(),
            decreases self.rows.len() - i,
        {
            proof {
                assert(self@[i as int] == self.rows@[i as int]@);
            }
            if same_text(self.rows[i].gallery.parent_path.as_str(), parent_path) {
                let ghost before = indices_view(picked@);
                let ghost keys_before = keys_view(keys@);
                picked.push(i);
                keys.push(nocase_key(self.rows[i].gallery.folder_name.as_str()));
                proof {
                    assert(indices_view(picked@) =~= before.push(i as int));
                    assert(keys_view(keys@) =~= keys_before.push(key(self@[i as int])));
                    assert(keys_at(self@, before.push(i as int), key) =~= keys_before.push(
                        key(self@[i as int]),
                    ));
                }
            }
            i += 1;
        }
        let order = stable_order(&keys, false);
        let out = self.summaries(&picked, &order, 0, order.len());
        proof {
            let at = indices_view(order@).map_values(|k: int| indices_view(picked@)[k]);
            assert(at.subrange(0, order@.len() as int) =~= at);
            assert(at =~= ranked(indices_view(picked@), keys_view(keys@), false));
        }
        out
    }


    /// Searches the catalog. `text_hits` are the ids that the free-text
    /// index matched for the query's text; without them a query with a text
    /// finds nothing. The result holds one page of the matches, in the
    /// order asked for, and the number of all matches.
    pub fn search_galleries(&self, query: &SearchQuery, text_hits: Option<&Vec<i64>>) -> (r:
        SearchResult)
        requires
            self.wf(),
        ensures
            summaries_view(r.galleries@) == search_page(self@, query@, hits_view(text_hits)),
            r.total_count == search_hits(self@, query@, hits_view(text_hits)).len(),
    {
        let ghost q = query@;
        let ghost hv = hits_view(text_hits);
        let ghost keep = |r: RowView| row_matches(r, q, hv);
        let ghost key = |r: RowView| sort_key_of(r, q.sort_by);
        let with_text = asks_for_text(query);
        let mut picked: Vec<usize> = Vec::new();
        let mut keys: Vec<Vec<u64>> = Vec::new();
        let mut i: usize = 0;
        proof {
            assert(indices_view(picked@) =~= selected(self@, keep, 0));
            assert(keys_view(keys@) =~= keys_at(self@, selected(self@, keep, 0), key));
        }
        while i < self.rows.len()
            invariant
                i <= self.rows.len(),
                q == query@,
                hv == hits_view(text_hits),
                with_text == has_text(q),
                keep == |r: RowView| row_matches(r, q, hv),
                key == |r: RowView| sort_key_of(r, q.sort_by),
                indices_view(picked@) == selected(self@, keep, i as int),
                keys_view(keys@) == keys_at(self@, indices_view(picked@), key),
                picked.len() == keys.len(),
                forall|k: int| 0 <= k < picked.len() ==> #[trigger] picked@[k] < self.rows.len(),
            decreases self.rows.len() - i,
        {
            proof {
                assert(self@[i as int] == self.rows@[i as int]@);
            }
            if row_passes(&self.rows[i], query, with_text, text_hits) {
                let ghost before = indices_view(picked@);
                let ghost keys_before = keys_view(keys@);
                picked.push(i);
                keys.push(row_key(&self.rows[i], &query.sort_by));
                proof {
                    assert(indices_view(picked@) =~= before.push(i as int));
                    assert(keys_view(keys@) =~= keys_before.push(key(self@[i as int])));
                    assert(keys_at(self@, before.push(i as int), key) =~= keys_before.push(
                        key(self@[i as int]),
                    ));
                }
            }
            i += 1;
        }
        let descending = !names(&query.sort_order, "asc");
        let order = stable_order(&keys, descending);
        let len = order.len();
        proof {
            lemma_fewer_rows_than_ids(self@, self.next_id());
            lemma_selected_bounds(self@, keep, self@.len() as int);
            assert(indices_view(picked@).len() == picked@.len());
        }
        let from: usize = if query.offset <= 0 {
            0
        } else if query.offset as u64 >= len as u64 {
            len
        } else {
            query.offset as usize
        };
        let left: usize = len - from;
        let count: usize = if query.limit < 0 || query.limit as u64 > left as u64 {
            left
        } else {
            query.limit as usize
        };
        let galleries = self.summaries(&picked, &order, from, from + count);
        proof {
            let at = indices_view(order@).map_values(|k: int| indices_view(picked@)[k]);
            assert(at =~= ranked(indices_view(picked@), keys_view(keys@), descending));
            assert(at == search_listing(self@, q, hv));
        }
        SearchResult { galleries, total_count: picked.len() as i64 }
    }


    /// What a listing shows of the records at the places `at`.
    fn summaries_of(&self, at: &Vec<usize>) -> (out: Vec<GallerySummary>)
        requires
            forall|k: int| 0 <= k < at.len() ==> #[trigger] at@[k] < self.rows.len(),
        ensures
            summaries_view(out@) == summaries_at(self@, indices_view(at@)),
    {
        let ghost places = indices_view(at@);
        let mut out: Vec<GallerySummary> = Vec::new();
        let mut k: usize = 0;
        while k < at.len()
            invariant
                k <= at.len(),
                places == indices_view(at@),
                forall|k: int| 0 <= k < at.len() ==> #[trigger] at@[k] < self.rows.len(),
                summaries_view(out@) == summaries_at(self@, places.take(k as int)),
            decreases at.len() - k,
        {
            let i = at[k];
            proof {
                assert(self@[i as int] == self.rows@[i as int]@);
            }
            let ghost shown = summaries_view(out@);
            let summary = self.rows[i].gallery.summary();
            out.push(summary);
            proof {
                assert(summaries_view(out@) =~= shown.push(summary@));
                assert(places.take(k + 1) =~= places.take(k as int).push(i as int));
                assert(summaries_at(self@, places.take(k as int).push(i as int)) =~= shown.push(
                    summary@,
                ));
            }
            k += 1;
        }
        proof {
            assert(places.take(at@.len() as int) =~= places);
        }
        out
    }

    /// The groups of two or more records that share a key, where `keys`
    /// holds the key of each record.
    fn duplicates(&self, keys: &Vec<String>, skip_empty: bool) -> (out: Vec<Vec<GallerySummary>>)
        requires
            keys.len() == self.rows.len(),
        ensures
            groups_view(out@) == shown_groups(
                self@,
                duplicate_groups(strings_view(keys@), skip_empty, keys.len() as int),
            ),
    {
        let ghost ks = strings_view(keys@);
        let n = keys.len();
        let mut out: Vec<Vec<GallerySummary>> = Vec::new();
        let mut i: usize = 0;
        proof {
            assert(groups_view(out@) =~= shown_groups(self@, duplicate_groups(ks, skip_empty, 0)));
        }
        while i < n
            invariant
                i <= n == keys.len() == self.rows.len(),
                ks == strings_view(keys@),
                groups_view(out@) == shown_groups(self@, duplicate_groups(ks, skip_empty, i as int)),
            decreases n - i,
        {
            let mut first = true;
            let mut j: usize = 0;
            while j < i
                invariant
                    j <= i < n == keys.len(),
                    ks == strings_view(keys@),
                    first == (forall|k: int| 0 <= k < j ==> #[trigger] ks[k] != ks[i as int]),
                decreases i - j,
            {
                proof {
                    assert(ks[j as int] == keys@[j as int]@);
                    assert(ks[i as int] == keys@[i as int]@);
                }
                if keys[j] == keys[i] {
                    first = false;
                }
                j += 1;
            }
            let mut group: Vec<usize> = Vec::new();
            let mut j: usize = 0;
            proof {
                assert(indices_view(group@) =~= members(ks, ks[i as int], 0));
            }
            while j < n
                invariant
                    j <= n == keys.len() == self.rows.len(),
                    i < n,
                    ks == strings_view(keys@),
                    indices_view(group@) == members(ks, ks[i as int], j as int),
                    forall|k: int| 0 <= k < group.len() ==> #[trigger] group@[k] < self.rows.len(),
                decreases n - j,
            {
                proof {
                    assert(ks[j as int] == keys@[j as int]@);
                    assert(ks[i as int] == keys@[i as int]@);
                }
                if keys[j] == keys[i] {
                    let ghost before = indices_view(group@);
                    group.push(j);
                    proof {
                        assert(indices_view(group@) =~= before.push(j as int));
                    }
                }
                j += 1;
            }
            proof {
                assert(ks[i as int] == keys@[i as int]@);
            }
            let ghost shown = groups_view(out@);
            if first && !(skip_empty && keys[i].as_str().is_empty()) && group.len() >= 2 {
                let summaries = self.summaries_of(&group);
                out.push(summaries);
                proof {
                    let g = members(ks, ks[i as int], n as int);
                    assert(groups_view(out@) =~= shown.push(summaries_at(self@, g)));
                    assert(shown_groups(self@, duplicate_groups(ks, skip_empty, i as int).push(g))
                        =~= shown.push(summaries_at(self@, g)));
                }
            }
            i += 1;
        }
        out
    }

    /// The groups of two or more galleries that have one source address
    /// that is not empty, in the order in which the addresses first occur.
    pub fn find_duplicates_by_url(&self) -> (r: Vec<Vec<GallerySummary>>)
        ensures
            groups_view(r@) == shown_groups(
                self@,
                duplicate_groups(url_keys(self@), true, self@.len() as int),
            ),
    {
        let mut keys: Vec<String> = Vec::new();
        let mut i: usize = 0;
        while i < self.rows.len()
            invariant
                i <= self.rows.len(),
                strings_view(keys@) == url_keys(self@).take(i as int),
            decreases self.rows.len() - i,
        {
            proof {
                assert(self@[i as int] == self.rows@[i as int]@);
            }
            let ghost before = strings_view(keys@);
            keys.push(self.rows[i].gallery.url.clone());
            proof {
                assert(strings_view(keys@) =~= before.push(self@[i as int].gallery.url));
                assert(url_keys(self@).take(i + 1) =~= before.push(self@[i as int].gallery.url));
            }
            i += 1;
        }
        proof {
            assert(url_keys(self@).take(self@.len() as int) =~= url_keys(self@));
        }
        self.duplicates(&keys, true)
    }

    /// The groups of two or more galleries whose folders have one name
    /// when case is set aside, in the order in which the names first occur.
    pub fn find_duplicates_by_name(&self) -> (r: Vec<Vec<GallerySummary>>)
        ensures
            groups_view(r@) == shown_groups(
                self@,
                duplicate_groups(name_keys(self@), false, self@.len() as int),
            ),
    {
        let mut keys: Vec<String> = Vec::new();
        let mut i: usize = 0;
        while i < self.rows.len()
            invariant
                i <= self.rows.len(),
                strings_view(keys@) == name_keys(self@).take(i as int),
            decreases self.rows.len() - i,
        {
            proof {
                assert(self@[i as int] == self.rows@[i as int]@);
            }
            let ghost before = strings_view(keys@);
            let ghost key = lowercase_of(self@[i as int].gallery.folder_name);
            keys.push(lowercase(self.rows[i].gallery.folder_name.as_str()));
            proof {
                assert(strings_view(keys@) =~= before.push(key));
                assert(name_keys(self@).take(i + 1) =~= before.push(key));
            }
            i += 1;
        }
        proof {
            assert(name_keys(self@).take(self@.len() as int) =~= name_keys(self@));
        }
        self.duplicates(&keys, false)
    }


    /// Removes the records that `keep` does not hold of and says how many
    /// they were. `wanted` says of each record whether `keep` holds of it.
    fn retain(&mut self, wanted: &Vec<bool>, Ghost(keep): Ghost<spec_fn(RowView) -> bool>) -> (removed:
        usize)
        requires
            old(self).wf(),
            wanted.len() == old(self)@.len(),
            forall|i: int| 0 <= i < wanted.len() ==> wanted@[i] == keep(#[trigger] old(self)@[i]),
        ensures
            final(self).wf(),
            final(self).next_id() == old(self).next_id(),
            final(self)@ == retained(old(self)@, keep, old(self)@.len() as int),
            removed == old(self)@.len() - final(self)@.len(),
    {
        let ghost all = self@;
        let n = self.rows.len();
        let mut kept: Vec<Row> = Vec::new();
        let mut k: usize = 0;
        proof {
            assert(rows_view(kept@) =~= retained(all, keep, 0));
            assert(all.skip(0) =~= all);
        }
        while k < n
            invariant
                k <= n == all.len() == wanted.len(),
                self.rows.len() == n - k,
                self@ == all.skip(k as int),
                self.next_id() == old(self).next_id(),
                forall|i: int| 0 <= i < wanted.len() ==> wanted@[i] == keep(#[trigger] all[i]),
                rows_view(kept@) == retained(all, keep, k as int),
            decreases n - k,
        {
            let ghost before = rows_view(kept@);
            let ghost rest = self@;
            proof {
                assert(rest[0] == self.rows@[0]@);
                assert(rest[0] == all[k as int]);
            }
            let row = self.rows.remove(0);
            proof {
                assert(self@ =~= rest.remove(0));
                assert(rest.remove(0) =~= all.skip(k + 1));
            }
            if wanted[k] {
                kept.push(row);
                proof {
                    assert(rows_view(kept@) =~= before.push(all[k as int]));
                }
            }
            k += 1;
        }
        proof {
            lemma_retained_well_formed(all, keep, n as int, self.next_id());
            lemma_retained_from(all, keep, n as int);
        }
        let removed = n - kept.len();
        self.rows = kept;
        removed
    }

    /// Removes the records of the folders under `root` that are not among
    /// `seen`, and says how many they were. Records of folders that are
    /// not under `root` stay.
    pub fn sweep(&mut self, root: &str, seen: &Vec<String>) -> (removed: usize)
        requires
            old(self).wf(),
        ensures
            final(self).wf(),
            final(self).next_id() == old(self).next_id(),
            final(self)@ == swept(old(self)@, root@, strings_view(seen@)),
            removed == old(self)@.len() - final(self)@.len(),
    {
        let ghost keep = |r: RowView| survives(r, root@, strings_view(seen@));
        let mut wanted: Vec<bool> = Vec::new();
        let mut i: usize = 0;
        while i < self.rows.len()
            invariant
                i <= self.rows.len(),
                wanted.len() == i,
                keep == |r: RowView| survives(r, root@, strings_view(seen@)),
                forall|j: int| 0 <= j < i ==> wanted@[j] == keep(#[trigger] self@[j]),
            decreases self.rows.len() - i,
        {
            proof {
                assert(self@[i as int] == self.rows@[i as int]@);
            }
            let path = self.rows[i].gallery.path.as_str();
            let stays = holds_text(seen, path) || !starts_with_path(path, root);
            wanted.push(stays);
            i += 1;
        }
        self.retain(&wanted, Ghost(keep))
    }


    /// Takes back a gallery that was stored when the catalog was last
    /// closed, with the id that it had. Galleries come back in the order of
    /// their ids; one that does not fit is turned away and nothing changes.
    pub fn restore_row(
        &mut self,
        gallery: Gallery,
        tags: &Vec<(String, String)>,
        info_modified: String,
        scanned_at: u64,
    ) -> (taken: bool)
        requires
            old(self).wf(),
        ensures
            final(self).wf(),
            taken == can_restore(old(self).catalog(), gallery@),
            taken ==> final(self)@ == old(self)@.push(
                restored_row(gallery@, pairs_view(tags@), info_modified@, scanned_at),
            ) && final(self).next_id() == gallery.id + 1,
            !taken ==> final(self).catalog() == old(self).catalog(),
    {
        proof {
            lemma_path_from(self@, gallery@.path, 0);
        }
        if gallery.id < self.next_id || gallery.id == i64::MAX {
            return false;
        }
        if gallery.rating > MAX_RATING || gallery.page_count < 0 || gallery.favorited < 0 {
            return false;
        }
        if self.find_path(gallery.path.as_str()).is_some() {
            return false;
        }
        let id = gallery.id;
        let ghost before = self@;
        let row = Row { gallery, tags: sorted_tags(tags), info_modified, scanned_at };
        self.rows.push(row);
        self.next_id = id + 1;
        proof {
            assert(self@ =~= before.push(row@));
        }
        true
    }

    /// Sets ids aside: the next new folder gets an id that is not below
    /// `next_id`.
    pub fn reserve_ids(&mut self, next_id: i64)
        requires
            old(self).wf(),
        ensures
            final(self).wf(),
            final(self)@ == old(self)@,
            final(self).next_id() == (if next_id > old(self).next_id() {
                next_id
            } else {
                old(self).next_id()
            }),
    {
        if next_id > self.next_id {
            self.next_id = next_id;
        }
    }


    /// When the record of the folder `path` was written.
    pub fn get_scanned_at(&self, path: &str) -> (r: Option<u64>)
        ensures
            r == match place_of_path(self@, path@) {
                Some(i) => Some(self@[i].scanned_at),
                None => None,
            },
    {
        proof {
            lemma_path_from(self@, path@, 0);
        }
        match self.find_path(path) {
            Some(i) => {
                proof {
                    assert(self@[i as int] == self.rows@[i as int]@);
                }
                Some(self.rows[i].scanned_at)
            },
            None => None,
        }
    }

    /// The place of the record of `path`.
    fn find_path(&self, path: &str) -> (r: Option<usize>)
        ensures
            match r {
                Some(i) => place_of_path(self@, path@) == Some(i as int) && i < self.rows.len(),
                None => place_of_path(self@, path@).is_none(),
            },
    {
        let mut i: usize = 0;
        while i < self.rows.len()
            invariant
                i <= self.rows.len(),
                place_of_path(self@, path@) == path_from(self@, path@, i as int),
            decreases self.rows.len() - i,
        {
            proof {
                assert(self@[i as int] == self.rows@[i as int]@);
            }
            if same_text(self.rows[i].gallery.path.as_str(), path) {
                return Some(i);
            }
            i += 1;
        }
        None
    }

    /// The place of the record with the id `id`.
    fn find_id(&self, id: i64) -> (r: Option<usize>)
        ensures
            match r {
                Some(i) => place_of_id(self@, id) == Some(i as int) && i < self.rows.len(),
                None => place_of_id(self@, id).is_none(),
            },
    {
        let mut i: usize = 0;
        while i < self.rows.len()
            invariant
                i <= self.rows.len(),
                place_of_id(self@, id) == id_from(self@, id, i as int),
            decreases self.rows.len() - i,
        {
            proof {
                assert(self@[i as int] == self.rows@[i as int]@);
            }
            if self.rows[i].gallery.id == id {
                return Some(i);
            }
            i += 1;
        }
        None
    }
}

} // verus!
