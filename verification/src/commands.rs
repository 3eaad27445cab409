//! What the requests of a front end compute: addresses of assets, inline
//! images, the children of a directory, the pages of a gallery.
//!
//! Nothing here touches the disk; the caller reads what is needed and
//! hands it in.

use crate::db::{
    after_upsert, holds_text, lemma_id_from, place_of_id, place_of_path, upsert_answer, Database,
    DbError, RowView,
};
use crate::models::{
    nodes_view, strings_view, summaries_view, summary_of, tags_view, AppSettings, FolderChildren,
    FolderNode, Gallery, GalleryDetail, GallerySummary, NodeView, PageInfo, SummaryView,
};
use crate::order::{codes, indices_view, keys_view, sorted_order, stable_order, text_key};
use crate::fetcher::FetchError;
use crate::models::{opt_view, CacheCleanResult, DuplicateResult, ScanStatus};
use crate::parser::{parse_info, parse_info_txt};
use crate::paths::{file_name, file_name_of, join, joined, normalize_path, normalized};
use crate::scanner::{get_all_images, sorted_images};
use crate::text::{
    chars_of, followed_by, ends_with, has_prefix, has_suffix, lowercase, lowercase_of, same_text,
    starts_with, string_of,
};
use base64::Engine;
use vstd::prelude::*;

verus! {

/// The upper-case hexadecimal digit for `n`, for `n` below sixteen.
pub open spec fn hex_upper_digit(n: int) -> char {
    if n == 0 {
        '0'
    } else if n == 1 {
        '1'
    } else if n == 2 {
        '2'
    } else if n == 3 {
        '3'
    } else if n == 4 {
        '4'
    } else if n == 5 {
        '5'
    } else if n == 6 {
        '6'
    } else if n == 7 {
        '7'
    } else if n == 8 {
        '8'
    } else if n == 9 {
        '9'
    } else if n == 10 {
        'A'
    } else if n == 11 {
        'B'
    } else if n == 12 {
        'C'
    } else if n == 13 {
        'D'
    } else if n == 14 {
        'E'
    } else {
        'F'
    }
}

fn upper_digit(n: u8) -> (c: char)
    requires
        n < 16,
    ensures
        c == hex_upper_digit(n as int),
{
    if n == 0 {
        '0'
    } else if n == 1 {
        '1'
    } else if n == 2 {
        '2'
    } else if n == 3 {
        '3'
    } else if n == 4 {
        '4'
    } else if n == 5 {
        '5'
    } else if n == 6 {
        '6'
    } else if n == 7 {
        '7'
    } else if n == 8 {
        '8'
    } else if n == 9 {
        '9'
    } else if n == 10 {
        'A'
    } else if n == 11 {
        'B'
    } else if n == 12 {
        'C'
    } else if n == 13 {
        'D'
    } else if n == 14 {
        'E'
    } else {
        'F'
    }
}

/// Each of `bytes` written as `%` and two upper-case hexadecimal digits.
pub open spec fn percent_bytes(bytes: Seq<u8>) -> Seq<char>
    decreases bytes.len(),
{
    if bytes.len() == 0 {
        seq![]
    } else {
        percent_bytes(bytes.drop_last()) + seq![
            '%',
            hex_upper_digit(bytes.last() as int / 16),
            hex_upper_digit(bytes.last() as int % 16),
        ]
    }
}

/// `c` stands for itself in an address: a letter or digit of ASCII, or one
/// of `-`, `_`, `.`, `/`, `:`.
pub open spec fn is_plain(c: char) -> bool {
    let n = c as u32;
    ||| 0x41 <= n <= 0x5A
    ||| 0x61 <= n <= 0x7A
    ||| 0x30 <= n <= 0x39
    ||| c == '-'
    ||| c == '_'
    ||| c == '.'
    ||| c == '/'
    ||| c == ':'
}

/// How `c` is written in an address: as itself where it is plain, else as
/// the bytes of its UTF-8 form, each escaped.
pub open spec fn encoded_char(c: char) -> Seq<char> {
    if is_plain(c) {
        seq![c]
    } else {
        percent_bytes(vstd::utf8::encode_utf8(seq![c]))
    }
}

/// How `s` is written in an address.
pub open spec fn url_encoded(s: Seq<char>) -> Seq<char>
    decreases s.len(),
{
    if s.len() == 0 {
        seq![]
    } else {
        url_encoded(s.drop_last()) + encoded_char(s.last())
    }
}

fn push_percent_bytes(out: &mut Vec<char>, bytes: &[u8])
    ensures
        final(out)@ == old(out)@ + percent_bytes(bytes@),
{
    let mut i: usize = 0;
    proof {
        assert(bytes@.take(0) =~= Seq::<u8>::empty());
        assert(out@ + percent_bytes(bytes@.take(0)) =~= out@);
    }
    while i < bytes.len()
        invariant
            i <= bytes.len(),
            out@ == old(out)@ + percent_bytes(bytes@.take(i as int)),
        decreases bytes.len() - i,
    {
        let b = bytes[i];
        let ghost before = out@;
        out.push('%');
        out.push(upper_digit(b / 16));
        out.push(upper_digit(b % 16));
        proof {
            assert(bytes@.take(i + 1).drop_last() =~= bytes@.take(i as int));
            assert(bytes@.take(i + 1).last() == b);
            assert(out@ =~= before + seq![
                '%',
                hex_upper_digit(b as int / 16),
                hex_upper_digit(b as int % 16),
            ]);
            assert(out@ =~= old(out)@ + percent_bytes(bytes@.take(i + 1)));
        }
        i += 1;
    }
    proof {
        assert(bytes@.take(bytes@.len() as int) =~= bytes@);
    }
}

/// Writes `s` for use in an address: letters and digits of ASCII and the
/// characters `-`, `_`, `.`, `/`, `:` stay, every other character becomes
/// the escaped bytes of its UTF-8 form.
pub fn urlencoding(s: &str) -> (encoded: String)
    ensures
        encoded@ == url_encoded(s@),
{
    let chars = chars_of(s);
    let mut out: Vec<char> = Vec::new();
    let mut i: usize = 0;
    proof {
        assert(chars@.take(0) =~= Seq::<char>::empty());
    }
    while i < chars.len()
        invariant
            i <= chars.len(),
            out@ == url_encoded(chars@.take(i as int)),
        decreases chars.len() - i,
    {
        let c = chars[i];
        let n: u32 = c as u32;
        let ghost before = out@;
        proof {
            assert(chars@.take(i + 1).drop_last() =~= chars@.take(i as int));
            assert(chars@.take(i + 1).last() == c);
        }
        if (0x41 <= n && n <= 0x5A) || (0x61 <= n && n <= 0x7A) || (0x30 <= n && n <= 0x39) || c
            == '-' || c == '_' || c == '.' || c == '/' || c == ':' {
            out.push(c);
            proof {
                assert(out@ =~= before + seq![c]);
            }
        } else {
            let mut one = String::new();
            one.push(c);
            proof {
                assert(one@ =~= seq![c]);
            }
            push_percent_bytes(&mut out, one.as_str().as_bytes());
        }
        i += 1;
    }
    proof {
        assert(chars@.take(chars@.len() as int) =~= chars@);
    }
    string_of(&out)
}

/// `path` with every backslash turned into a slash.
pub open spec fn with_slashes(path: Seq<char>) -> Seq<char> {
    path.map_values(
        |c: char|
            if c == '\\' {
                '/'
            } else {
                c
            },
    )
}

/// The address under which the front end loads the local file `path`.
pub fn get_asset_url(path: &str) -> (url: String)
    ensures
        url@ == "asset://localhost/"@ + url_encoded(with_slashes(path@)),
{
    let chars = chars_of(path);
    let mut slashed: Vec<char> = Vec::new();
    let mut i: usize = 0;
    while i < chars.len()
        invariant
            i <= chars.len(),
            chars@ == path@,
            slashed@ == with_slashes(path@).take(i as int),
        decreases chars.len() - i,
    {
        let c = chars[i];
        slashed.push(
            if c == '\\' {
                '/'
            } else {
                c
            },
        );
        proof {
            assert(slashed@ =~= with_slashes(path@).take(i + 1));
        }
        i += 1;
    }
    proof {
        assert(with_slashes(path@).take(chars@.len() as int) =~= with_slashes(path@));
    }
    let encoded = urlencoding(string_of(&slashed).as_str());
    let mut url = chars_of("asset://localhost/");
    let mut rest = chars_of(encoded.as_str());
    url.append(&mut rest);
    string_of(&url)
}

/// `data` in base64, with the standard alphabet and padding.
pub uninterp spec fn base64_of(data: Seq<u8>) -> Seq<char>;

/// Calls `Engine::encode` on the `STANDARD` engine. The contract names the
/// result and says no more of it. The call fails where the length of the
/// result does not fit in `usize`, so long inputs are left out.
#[verifier::external_body]
fn base64_encode(data: &[u8]) -> (text: String)
    requires
        data@.len() <= usize::MAX / 2,
    ensures
        text@ == base64_of(data@),
{
    base64::engine::general_purpose::STANDARD.encode(data)
}

/// The media type by which the image at `path` is served: by its
/// ending, PNG or WebP, else JPEG.
pub open spec fn mime_of(path: Seq<char>) -> Seq<char> {
    if has_suffix(path, ".png"@) {
        "image/png"@
    } else if has_suffix(path, ".webp"@) {
        "image/webp"@
    } else {
        "image/jpeg"@
    }
}

/// The image file at `path`, whose bytes are `data`, as a `data:` address
/// that holds the image itself. There is none for data so long that its
/// base64 form could not be held.
pub fn read_thumb(path: &str, data: &[u8]) -> (url: Option<String>)
    ensures
        data@.len() > usize::MAX / 2 ==> url is None,
        data@.len() <= usize::MAX / 2 ==> url is Some && url->0@ == "data:"@ + mime_of(path@)
            + ";base64,"@ + base64_of(data@),
{
    if data.len() > usize::MAX / 2 {
        return None;
    }
    let p = chars_of(path);
    let mime = if ends_with(&p, ".png") {
        "image/png"
    } else if ends_with(&p, ".webp") {
        "image/webp"
    } else {
        "image/jpeg"
    };
    let mut url = chars_of("data:");
    let mut part = chars_of(mime);
    url.append(&mut part);
    let mut part = chars_of(";base64,");
    url.append(&mut part);
    let mut part = chars_of(base64_encode(data).as_str());
    url.append(&mut part);
    Some(string_of(&url))
}

/// One entry of a directory: its path, whether it is a directory, whether
/// it holds a sidecar, and whether it holds directories of its own.
#[derive(Debug, Clone)]
pub struct DirEntry {
    pub path: String,
    pub is_dir: bool,
    pub has_sidecar: bool,
    pub has_children: bool,
}

/// An entry of a directory, with its path as plain characters.
pub struct EntryView {
    pub path: Seq<char>,
    pub is_dir: bool,
    pub has_sidecar: bool,
    pub has_children: bool,
}

impl View for DirEntry {
    type V = EntryView;

    open spec fn view(&self) -> EntryView {
        EntryView {
            path: self.path@,
            is_dir: self.is_dir,
            has_sidecar: self.has_sidecar,
            has_children: self.has_children,
        }
    }
}

/// The entries held in `v`, as views.
pub open spec fn entries_view(v: Seq<DirEntry>) -> Seq<EntryView> {
    v.map_values(|e: DirEntry| e@)
}

/// The entry `e` is shown among the galleries (for `galleries`) or among
/// the plain folders of its directory: it is a directory whose name does
/// not begin with a dot, and it holds a sidecar or does not.
pub open spec fn is_child(e: EntryView, galleries: bool) -> bool {
    e.is_dir && !has_prefix(file_name_of(e.path), "."@) && e.has_sidecar == galleries
}

/// The places below `n` of the entries that are shown, in order.
pub open spec fn children_among(entries: Seq<EntryView>, galleries: bool, n: int) -> Seq<int>
    decreases n,
{
    if n <= 0 {
        seq![]
    } else {
        let before = children_among(entries, galleries, n - 1);
        if is_child(entries[n - 1], galleries) {
            before.push(n - 1)
        } else {
            before
        }
    }
}

/// What is shown of a gallery folder that has no record yet: its name as
/// title and as folder name, its path, and nothing else.
pub open spec fn unscanned_summary(name: Seq<char>, path: Seq<char>) -> SummaryView {
    SummaryView {
        id: 0,
        title_en: name,
        title_jp: Seq::empty(),
        category: Seq::empty(),
        page_count: 0,
        rating: 0,
        thumb_path: Seq::empty(),
        folder_name: name,
        path,
    }
}

/// What is shown of the gallery folder `e`: what the catalog holds under
/// its path, or its bare name where it has no record yet.
pub open spec fn child_summary(rows: Seq<RowView>, e: EntryView) -> SummaryView {
    match place_of_path(rows, normalized(e.path)) {
        Some(k) => summary_of(rows[k].gallery),
        None => unscanned_summary(file_name_of(e.path), normalized(e.path)),
    }
}

/// What is shown of the plain folder `e`.
pub open spec fn child_node(e: EntryView) -> NodeView {
    NodeView { name: file_name_of(e.path), path: e.path, has_children: e.has_children }
}

/// The galleries among `entries`, by the names of their folders in lower
/// case.
pub open spec fn gallery_children(rows: Seq<RowView>, entries: Seq<EntryView>) -> Seq<SummaryView> {
    let picked = children_among(entries, true, entries.len() as int);
    let keys = picked.map_values(
        |i: int| codes(lowercase_of(child_summary(rows, entries[i]).folder_name)),
    );
    sorted_order(keys, false).map_values(|k: int| child_summary(rows, entries[picked[k]]))
}

/// The plain folders among `entries`, by their names in lower case.
pub open spec fn folder_children(entries: Seq<EntryView>) -> Seq<NodeView> {
    let picked = children_among(entries, false, entries.len() as int);
    let keys = picked.map_values(|i: int| codes(lowercase_of(file_name_of(entries[i].path))));
    sorted_order(keys, false).map_values(|k: int| child_node(entries[picked[k]]))
}

/// What the catalog shows of the gallery folder `entry`, whose name is
/// `name`.
fn summary_for(db: &Database, entry: &DirEntry, name: &String) -> (s: GallerySummary)
    requires
        name@ == file_name_of(entry@.path),
    ensures
        s@ == child_summary(db@, entry@),
{
    let path = normalize_path(entry.path.as_str());
    match db.get_gallery_by_path(path.as_str()) {
        Some(summary) => summary,
        None => GallerySummary {
            id: 0,
            title_en: name.clone(),
            title_jp: String::new(),
            category: String::new(),
            page_count: 0,
            rating: 0,
            thumb_path: String::new(),
            folder_name: name.clone(),
            path,
        },
    }
}

/// The children of a directory whose entries are `entries`: the folders
/// that hold a sidecar as galleries, with what the catalog knows of them,
/// and the others as plain folders; each kind by name in lower case.
/// Entries that are no directories, and those whose names begin with a
/// dot, are left out.
pub fn get_folder_children(db: &Database, entries: &Vec<DirEntry>) -> (r: FolderChildren)
    ensures
        summaries_view(r.galleries@) == gallery_children(db@, entries_view(entries@)),
        nodes_view(r.subfolders@) == folder_children(entries_view(entries@)),
{
    let ghost es = entries_view(entries@);
    let ghost rows = db@;
    let mut found: Vec<GallerySummary> = Vec::new();
    let mut found_keys: Vec<Vec<u64>> = Vec::new();
    let mut nodes: Vec<FolderNode> = Vec::new();
    let mut node_keys: Vec<Vec<u64>> = Vec::new();
    let mut i: usize = 0;
    proof {
        assert(summaries_view(found@) =~= children_among(es, true, 0).map_values(
            |i: int| child_summary(rows, es[i]),
        ));
        assert(keys_view(found_keys@) =~= children_among(es, true, 0).map_values(
            |i: int| codes(lowercase_of(child_summary(rows, es[i]).folder_name)),
        ));
        assert(nodes_view(nodes@) =~= children_among(es, false, 0).map_values(
            |i: int| child_node(es[i]),
        ));
        assert(keys_view(node_keys@) =~= children_among(es, false, 0).map_values(
            |i: int| codes(lowercase_of(file_name_of(es[i].path))),
        ));
    }
    while i < entries.len()
        invariant
            i <= entries.len(),
            es == entries_view(entries@),
            rows == db@,
            summaries_view(found@) == children_among(es, true, i as int).map_values(
                |i: int| child_summary(rows, es[i]),
            ),
            keys_view(found_keys@) == children_among(es, true, i as int).map_values(
                |i: int| codes(lowercase_of(child_summary(rows, es[i]).folder_name)),
            ),
            nodes_view(nodes@) == children_among(es, false, i as int).map_values(
                |i: int| child_node(es[i]),
            ),
            keys_view(node_keys@) == children_among(es, false, i as int).map_values(
                |i: int| codes(lowercase_of(file_name_of(es[i].path))),
            ),
        decreases entries.len() - i,
    {
        let entry = &entries[i];
        proof {
            assert(es[i as int] == entry@);
        }
        if entry.is_dir {
            let name = file_name(entry.path.as_str());
            let name_chars = chars_of(name.as_str());
            if !starts_with(&name_chars, ".") {
                if entry.has_sidecar {
                    let ghost shown = summaries_view(found@);
                    let ghost shown_keys = keys_view(found_keys@);
                    let ghost picked = children_among(es, true, i as int);
                    let summary = summary_for(db, entry, &name);
                    let key = text_key(lowercase(summary.folder_name.as_str()).as_str());
                    proof {
                        assert(picked.push(i as int).map_values(
                            |i: int| child_summary(rows, es[i]),
                        ) =~= shown.push(summary@));
                        assert(picked.push(i as int).map_values(
                            |i: int| codes(lowercase_of(child_summary(rows, es[i]).folder_name)),
                        ) =~= shown_keys.push(key@));
                    }
                    found.push(summary);
                    found_keys.push(key);
                    proof {
                        assert(summaries_view(found@) =~= shown.push(summary@));
                        assert(keys_view(found_keys@) =~= shown_keys.push(key@));
                    }
                } else {
                    let ghost shown = nodes_view(nodes@);
                    let ghost shown_keys = keys_view(node_keys@);
                    let ghost picked = children_among(es, false, i as int);
                    let key = text_key(lowercase(name.as_str()).as_str());
                    let node = FolderNode {
                        name,
                        path: entry.path.clone(),
                        has_children: entry.has_children,
                    };
                    proof {
                        assert(picked.push(i as int).map_values(|i: int| child_node(es[i]))
                            =~= shown.push(node@));
                        assert(picked.push(i as int).map_values(
                            |i: int| codes(lowercase_of(file_name_of(es[i].path))),
                        ) =~= shown_keys.push(key@));
                    }
                    nodes.push(node);
                    node_keys.push(key);
                    proof {
                        assert(nodes_view(nodes@) =~= shown.push(node@));
                        assert(keys_view(node_keys@) =~= shown_keys.push(key@));
                    }
                }
            }
        }
        i += 1;
    }
    let ghost picked_g = children_among(es, true, es.len() as int);
    let ghost picked_f = children_among(es, false, es.len() as int);
    let order = stable_order(&found_keys, false);
    let mut galleries: Vec<GallerySummary> = Vec::new();
    let mut k: usize = 0;
    while k < order.len()
        invariant
            k <= order.len() == found.len(),
            forall|j: int| 0 <= j < order.len() ==> #[trigger] order@[j] < found.len(),
            summaries_view(galleries@) == indices_view(order@).map_values(
                |j: int| summaries_view(found@)[j],
            ).take(k as int),
        decreases order.len() - k,
    {
        let ghost shown = summaries_view(galleries@);
        let item = found[order[k]].duplicate();
        galleries.push(item);
        proof {
            assert(summaries_view(galleries@) =~= shown.push(item@));
            assert(indices_view(order@).map_values(|j: int| summaries_view(found@)[j]).take(k + 1)
                =~= shown.push(item@));
        }
        k += 1;
    }
    let order_f = stable_order(&node_keys, false);
    let mut subfolders: Vec<FolderNode> = Vec::new();
    let mut k: usize = 0;
    while k < order_f.len()
        invariant
            k <= order_f.len() == nodes.len(),
            forall|j: int| 0 <= j < order_f.len() ==> #[trigger] order_f@[j] < nodes.len(),
            nodes_view(subfolders@) == indices_view(order_f@).map_values(
                |j: int| nodes_view(nodes@)[j],
            ).take(k as int),
        decreases order_f.len() - k,
    {
        let ghost shown = nodes_view(subfolders@);
        let item = nodes[order_f[k]].duplicate();
        subfolders.push(item);
        proof {
            assert(nodes_view(subfolders@) =~= shown.push(item@));
            assert(indices_view(order_f@).map_values(|j: int| nodes_view(nodes@)[j]).take(k + 1)
                =~= shown.push(item@));
        }
        k += 1;
    }
    proof {
        let a = indices_view(order@).map_values(|j: int| summaries_view(found@)[j]);
        assert(a.take(order@.len() as int) =~= a);
        assert(a =~= gallery_children(rows, es));
        let b = indices_view(order_f@).map_values(|j: int| nodes_view(nodes@)[j]);
        assert(b.take(order_f@.len() as int) =~= b);
        assert(b =~= folder_children(es));
    }
    FolderChildren { subfolders, galleries }
}


/// The gallery with the id `id`, with its tags.
pub fn get_gallery(db: &Database, id: i64) -> (r: Option<GalleryDetail>)
    ensures
        match place_of_id(db@, id) {
            Some(i) => r is Some && r->0.gallery@ == db@[i].gallery && tags_view(r->0.tags@)
                == db@[i].tags,
            None => r is None,
        },
{
    match db.get_gallery_by_id(id) {
        Some(gallery) => {
            let tags = db.get_tags_for_gallery(id);
            Some(GalleryDetail { gallery, tags })
        },
        None => None,
    }
}

/// A page, with its texts as plain characters.
pub struct PageView {
    pub filename: Seq<char>,
    pub path: Seq<char>,
    pub index: usize,
}

impl View for PageInfo {
    type V = PageView;

    open spec fn view(&self) -> PageView {
        PageView { filename: self.filename@, path: self.path@, index: self.index }
    }
}

/// The pages held in `v`, as views.
pub open spec fn pages_view(v: Seq<PageInfo>) -> Seq<PageView> {
    v.map_values(|p: PageInfo| p@)
}

/// The pages that the images `images` make, numbered from zero.
pub open spec fn pages_of(images: Seq<Seq<char>>) -> Seq<PageView> {
    Seq::new(
        images.len(),
        |i: int| PageView { filename: file_name_of(images[i]), path: images[i], index: i as usize },
    )
}

/// The pages of a gallery whose folder holds the files `files`: its
/// images in natural order, numbered from zero.
pub fn get_gallery_pages(files: &Vec<String>) -> (pages: Vec<PageInfo>)
    ensures
        pages_view(pages@) == pages_of(sorted_images(strings_view(files@))),
{
    let images = get_all_images(files);
    let ghost im = strings_view(images@);
    let mut pages: Vec<PageInfo> = Vec::new();
    let mut i: usize = 0;
    while i < images.len()
        invariant
            i <= images.len(),
            im == strings_view(images@),
            pages_view(pages@) == pages_of(im).take(i as int),
        decreases images.len() - i,
    {
        proof {
            assert(im[i as int] == images@[i as int]@);
        }
        let ghost shown = pages_view(pages@);
        let page = PageInfo {
            filename: file_name(images[i].as_str()),
            path: images[i].clone(),
            index: i,
        };
        pages.push(page);
        proof {
            assert(pages_view(pages@) =~= shown.push(page@));
            assert(pages_of(im).take(i + 1) =~= shown.push(page@));
        }
        i += 1;
    }
    proof {
        assert(pages_of(im).take(images@.len() as int) =~= pages_of(im));
    }
    pages
}

/// The groups of galleries that look like copies of one another: by source
/// address, and by folder name where the settings ask for that. Folders of
/// one name count wherever they lie, so the settings can switch this off.
pub fn get_duplicate_galleries(db: &Database, settings: &AppSettings) -> (r: DuplicateResult)
    ensures
        crate::db::groups_view(r.by_url@) == crate::db::shown_groups(
            db@,
            crate::db::duplicate_groups(crate::db::url_keys(db@), true, db@.len() as int),
        ),
        settings.duplicates_by_name ==> crate::db::groups_view(r.by_name@)
            == crate::db::shown_groups(
            db@,
            crate::db::duplicate_groups(crate::db::name_keys(db@), false, db@.len() as int),
        ),
        !settings.duplicates_by_name ==> r.by_name@.len() == 0,
{
    let by_name = if settings.duplicates_by_name {
        db.find_duplicates_by_name()
    } else {
        Vec::new()
    };
    DuplicateResult { by_url: db.find_duplicates_by_url(), by_name }
}

/// The status of the scan, as it is now.
pub fn get_scan_status(status: &ScanStatus) -> (r: ScanStatus)
    ensures
        r == *status,
{
    ScanStatus {
        is_scanning: status.is_scanning,
        scanned: status.scanned,
        total: status.total,
        current_folder: status.current_folder.clone(),
    }
}

/// Clears the thumbnail cache. Nothing is removed: thumbnails are kept
/// until their galleries go.
pub fn clear_cache() -> (r: CacheCleanResult)
    ensures
        r.removed == 0,
        r.freed_bytes == 0,
{
    CacheCleanResult { removed: 0, freed_bytes: 0 }
}

/// Adds `path` to the roots of `settings`, unless it is one already.
pub fn set_root_path(settings: &mut AppSettings, path: &str)
    ensures
        strings_view(final(settings).root_paths@) == (if strings_view(
            old(settings).root_paths@,
        ).contains(path@) {
            strings_view(old(settings).root_paths@)
        } else {
            strings_view(old(settings).root_paths@).push(path@)
        }),
        final(settings).thumbnail_width == old(settings).thumbnail_width,
        final(settings).watcher_enabled == old(settings).watcher_enabled,
        final(settings).cookie_path == old(settings).cookie_path,
        final(settings).duplicates_by_name == old(settings).duplicates_by_name,
{
    if !holds_text(&settings.root_paths, path) {
        let ghost before = strings_view(settings.root_paths@);
        settings.root_paths.push(path.to_owned());
        proof {
            assert(strings_view(settings.root_paths@) =~= before.push(path@));
        }
    }
}

/// The roots of `settings`.
pub fn get_root_paths(settings: &AppSettings) -> (roots: Vec<String>)
    ensures
        strings_view(roots@) == strings_view(settings.root_paths@),
{
    let mut roots: Vec<String> = Vec::new();
    let mut i: usize = 0;
    while i < settings.root_paths.len()
        invariant
            i <= settings.root_paths.len(),
            strings_view(roots@) == strings_view(settings.root_paths@).take(i as int),
        decreases settings.root_paths.len() - i,
    {
        let ghost before = strings_view(roots@);
        roots.push(settings.root_paths[i].clone());
        proof {
            assert(strings_view(roots@) =~= before.push(settings.root_paths@[i as int]@));
            assert(strings_view(settings.root_paths@).take(i + 1) =~= before.push(
                settings.root_paths@[i as int]@,
            ));
        }
        i += 1;
    }
    proof {
        assert(strings_view(settings.root_paths@).take(settings.root_paths@.len() as int)
            =~= strings_view(settings.root_paths@));
    }
    roots
}

/// The first `n` of `roots` that are not `path`, in order.
pub open spec fn roots_without(roots: Seq<Seq<char>>, path: Seq<char>, n: int) -> Seq<Seq<char>>
    decreases n,
{
    if n <= 0 {
        seq![]
    } else {
        let before = roots_without(roots, path, n - 1);
        if roots[n - 1] != path {
            before.push(roots[n - 1])
        } else {
            before
        }
    }
}

/// Takes `path` out of the roots of `settings`, wherever it stands.
pub fn remove_root_path(settings: &mut AppSettings, path: &str)
    ensures
        strings_view(final(settings).root_paths@) == roots_without(
            strings_view(old(settings).root_paths@),
            path@,
            old(settings).root_paths@.len() as int,
        ),
        final(settings).thumbnail_width == old(settings).thumbnail_width,
        final(settings).watcher_enabled == old(settings).watcher_enabled,
        final(settings).cookie_path == old(settings).cookie_path,
        final(settings).duplicates_by_name == old(settings).duplicates_by_name,
{
    let ghost all = strings_view(settings.root_paths@);
    let mut kept: Vec<String> = Vec::new();
    let mut i: usize = 0;
    proof {
        assert(strings_view(kept@) =~= roots_without(all, path@, 0));
    }
    while i < settings.root_paths.len()
        invariant
            i <= settings.root_paths.len(),
            *settings == *old(settings),
            all == strings_view(settings.root_paths@),
            strings_view(kept@) == roots_without(all, path@, i as int),
        decreases settings.root_paths.len() - i,
    {
        proof {
            assert(all[i as int] == settings.root_paths@[i as int]@);
        }
        if !same_text(settings.root_paths[i].as_str(), path) {
            let ghost before = strings_view(kept@);
            kept.push(settings.root_paths[i].clone());
            proof {
                assert(strings_view(kept@) =~= before.push(all[i as int]));
            }
        }
        i += 1;
    }
    settings.root_paths = kept;
}

/// Where the cookie file is looked for: at the configured place if one is
/// configured, else as `cookie.txt` in the data directory, or in the
/// working directory where there is no data directory.
pub open spec fn cookie_location(configured: Seq<char>, data_dir: Option<Seq<char>>) -> Seq<char> {
    if configured.len() > 0 {
        configured
    } else {
        match data_dir {
            Some(dir) => joined(dir, "cookie.txt"@),
            None => "cookie.txt"@,
        }
    }
}

/// Where the cookie file is looked for.
pub fn get_cookie_status(settings: &AppSettings, data_dir: Option<&str>) -> (path: String)
    ensures
        path@ == cookie_location(
            settings.cookie_path@,
            match data_dir {
                Some(d) => Some(d@),
                None => None,
            },
        ),
{
    if !settings.cookie_path.as_str().is_empty() {
        settings.cookie_path.clone()
    } else {
        match data_dir {
            Some(dir) => join(dir, "cookie.txt"),
            None => "cookie.txt".to_owned(),
        }
    }
}

/// What is left to remove from the disk once a gallery has gone from the
/// catalog: its thumbnail, if it had one, and its folder.
#[derive(Debug, Clone)]
pub struct Removal {
    pub thumb: Option<String>,
    pub folder: String,
}

/// Removes the gallery with the id `id` from the catalog and says what is
/// left to remove from the disk. Where there is no such gallery nothing
/// happens.
pub fn delete_gallery(db: &mut Database, id: i64) -> (r: Option<Removal>)
    requires
        old(db).wf(),
    ensures
        final(db).wf(),
        final(db).next_id() == old(db).next_id(),
        match place_of_id(old(db)@, id) {
            Some(i) => {
                &&& final(db)@ == old(db)@.remove(i)
                &&& r is Some
                &&& r->0.folder@ == old(db)@[i].gallery.path
                &&& opt_view(r->0.thumb) == (if old(db)@[i].gallery.thumb_path.len() > 0 {
                    Some(old(db)@[i].gallery.thumb_path)
                } else {
                    None
                })
            },
            None => r is None && final(db)@ == old(db)@,
        },
{
    proof {
        lemma_id_from(db@, id, 0);
    }
    let gallery = match db.get_gallery_by_id(id) {
        Some(g) => g,
        None => {
            return None;
        },
    };
    proof {
        let i = place_of_id(db@, id)->0;
        crate::reconcile::lemma_place_of_record(db@, db.next_id(), i);
    }
    db.delete_gallery_by_path(gallery.path.as_str());
    let thumb = if gallery.thumb_path.as_str().is_empty() {
        None
    } else {
        Some(gallery.thumb_path)
    };
    Some(Removal { thumb, folder: gallery.path })
}

/// What is said where a gallery's record has been removed but its folder
/// could not be.
pub fn folder_removal_failure(reason: &str) -> (message: String)
    ensures
        message@ == "DB entry removed but failed to delete folder: "@ + reason@,
{
    followed_by("DB entry removed but failed to delete folder: ", reason)
}


/// Why the metadata of a gallery could not be fetched anew.
#[derive(Debug, Clone)]
pub enum RefreshError {
    /// There is no gallery with the id.
    NotFound,
    /// The gallery has no source address.
    NoUrl,
    /// There is no cookie file at this path.
    CookieMissing(String),
    /// The host could not be asked, or gave nothing of use.
    Fetch(FetchError),
    /// The sidecar could not be written; the reason is given.
    Write(String),
    /// The sidecar that was written could not be read again.
    Reparse,
    /// The catalog could not take the record.
    Store(DbError),
}

impl RefreshError {
    /// What is said of this failure.
    pub open spec fn text(&self) -> Seq<char> {
        match *self {
            RefreshError::NotFound => "[refresh] Gallery not found"@,
            RefreshError::NoUrl => "Gallery has no URL to refresh from"@,
            RefreshError::CookieMissing(path) => "Cookie file not found at: "@ + path@
                + ". Use Settings to select your cookie file."@,
            RefreshError::Fetch(e) => "[refresh] Fetch failed: "@ + e.text(),
            RefreshError::Write(e) => "[refresh] Write info.txt failed: "@ + e@,
            RefreshError::Reparse => "[refresh] Failed to re-parse updated info.txt"@,
            RefreshError::Store(_) => "no id is left for a new gallery"@,
        }
    }

    /// What is said of this failure.
    pub fn message(&self) -> (text: String)
        ensures
            text@ == self.text(),
    {
        match self {
            RefreshError::NotFound => "[refresh] Gallery not found".to_owned(),
            RefreshError::NoUrl => "Gallery has no URL to refresh from".to_owned(),
            RefreshError::CookieMissing(path) => {
                let head = followed_by("Cookie file not found at: ", path.as_str());
                followed_by(head.as_str(), ". Use Settings to select your cookie file.")
            },
            RefreshError::Fetch(e) => {
                let inner = e.message();
                followed_by("[refresh] Fetch failed: ", inner.as_str())
            },
            RefreshError::Write(e) => followed_by("[refresh] Write info.txt failed: ", e.as_str()),
            RefreshError::Reparse => "[refresh] Failed to re-parse updated info.txt".to_owned(),
            RefreshError::Store(_) => "no id is left for a new gallery".to_owned(),
        }
    }
}

/// The gallery whose metadata is to be fetched anew: the one with the id
/// `id`, which must have a source address.
pub fn refresh_target(db: &Database, id: i64) -> (r: Result<Gallery, RefreshError>)
    ensures
        match place_of_id(db@, id) {
            None => r is Err && r->Err_0 is NotFound,
            Some(i) => if db@[i].gallery.url.len() == 0 {
                r is Err && r->Err_0 is NoUrl
            } else {
                r is Ok && r->Ok_0@ == db@[i].gallery
            },
        },
{
    match db.get_gallery_by_id(id) {
        None => Err(RefreshError::NotFound),
        Some(gallery) => {
            if gallery.url.as_str().is_empty() {
                Err(RefreshError::NoUrl)
            } else {
                Ok(gallery)
            }
        },
    }
}

/// Takes up the sidecar text `content` that was written for `gallery`
/// from what was fetched: reads it as any sidecar is read and writes the
/// record under the gallery's path. The record gets the thumbnail
/// `new_thumb`, or keeps the one it had where none could be made. A text
/// that cannot be read as a sidecar changes nothing.
pub fn refresh_gallery(
    db: &mut Database,
    gallery: &Gallery,
    content: &str,
    new_thumb: Option<String>,
    marker: &str,
    now: u64,
) -> (r: Result<(), RefreshError>)
    requires
        old(db).wf(),
    ensures
        final(db).wf(),
        match parse_info(content@) {
            None => r is Err && r->Err_0 is Reparse && final(db).catalog() == old(db).catalog(),
            Some(parsed) => {
                let thumb = match opt_view(new_thumb) {
                    Some(t) => t,
                    None => gallery@.thumb_path,
                };
                &&& final(db).catalog() == after_upsert(
                    old(db).catalog(),
                    normalized(gallery@.path),
                    parsed,
                    thumb,
                    marker@,
                    now,
                )
                &&& match upsert_answer(old(db).catalog(), normalized(gallery@.path)) {
                    Ok(_) => r is Ok,
                    Err(e) => r is Err && r->Err_0 == RefreshError::Store(e),
                }
            },
        },
{
    let parsed = match parse_info_txt(content) {
        Some(p) => p,
        None => {
            return Err(RefreshError::Reparse);
        },
    };
    let thumb = match new_thumb {
        Some(t) => t,
        None => gallery.thumb_path.clone(),
    };
    let folder = normalize_path(gallery.path.as_str());
    match db.upsert_gallery(folder.as_str(), &parsed, thumb.as_str(), marker, now) {
        Ok(_) => Ok(()),
        Err(e) => Err(RefreshError::Store(e)),
    }
}


} // verus!
