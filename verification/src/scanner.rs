//! Scanning a root: which folders are galleries, which images they hold,
//! which records are stale, and what a scan does to the catalog.
//!
//! Walking directories and reading files is left to the caller, who hands
//! in what the disk shows. A record is written again only where the marker
//! of the sidecar differs from the one that was stored, or no record
//! exists; after all folders of a root have been seen, the records of the
//! folders under it that were not seen are removed. A record is kept under
//! the normalized path of its folder, however the caller spells the path.

use crate::db::{
    after_upsert, lemma_fewer_rows_than_ids, place_of_path, swept, Catalog, Database, RowView,
};
use crate::models::{opt_view, strings_view, ParsedGallery, ParsedInfo, ScanStatus};
use crate::natural::{
    lemma_natural_sorted, lemma_path_order, natural_sorted, path_lt, sort_naturally,
};
use crate::numbers::{decimal_digits, push_decimal};
use crate::paths::{extension, extension_of, join, joined, normalize_path, normalized};
use crate::text::{lowercase, lowercase_of, same_text, string_of};
use vstd::prelude::*;

verus! {

/// One entry of a directory walk: its path, whether it is a directory, and
/// whether it holds a sidecar file.
#[derive(Debug, Clone)]
pub struct WalkEntry {
    pub path: String,
    pub is_dir: bool,
    pub has_sidecar: bool,
}

/// Where the sidecar of the folder `folder` lives.
pub open spec fn sidecar_location(folder: Seq<char>) -> Seq<char> {
    joined(folder, "info.txt"@)
}

/// Where the sidecar of `folder` lives: the file `info.txt` in it.
pub fn sidecar_path(folder: &str) -> (path: String)
    ensures
        path@ == sidecar_location(folder@),
{
    join(folder, "info.txt")
}

/// The paths of the first `n` of `entries` that are directories with a
/// sidecar, in order.
pub open spec fn gallery_folders(entries: Seq<WalkEntry>, n: int) -> Seq<Seq<char>>
    decreases n,
{
    if n <= 0 {
        seq![]
    } else {
        let before = gallery_folders(entries, n - 1);
        if entries[n - 1].is_dir && entries[n - 1].has_sidecar {
            before.push(entries[n - 1].path@)
        } else {
            before
        }
    }
}

/// The gallery folders among `entries`: the directories that hold a
/// sidecar, in the order in which the walk met them.
pub fn find_gallery_folders(entries: &Vec<WalkEntry>) -> (folders: Vec<String>)
    ensures
        strings_view(folders@) == gallery_folders(entries@, entries@.len() as int),
{
    let mut folders: Vec<String> = Vec::new();
    let mut i: usize = 0;
    proof {
        assert(strings_view(folders@) =~= gallery_folders(entries@, 0));
    }
    while i < entries.len()
        invariant
            i <= entries.len(),
            strings_view(folders@) == gallery_folders(entries@, i as int),
        decreases entries.len() - i,
    {
        if entries[i].is_dir && entries[i].has_sidecar {
            let ghost before = strings_view(folders@);
            folders.push(entries[i].path.clone());
            proof {
                assert(strings_view(folders@) =~= before.push(entries@[i as int].path@));
            }
        }
        i += 1;
    }
    folders
}

/// `ext`, in lower case, is one of the image extensions.
pub open spec fn is_image_extension(ext: Seq<char>) -> bool {
    let e = lowercase_of(ext);
    e == "jpg"@ || e == "jpeg"@ || e == "png"@ || e == "gif"@ || e == "webp"@ || e == "bmp"@ || e
        == "avif"@
}

/// The path `path` has the extension of an image.
pub open spec fn is_image_path(path: Seq<char>) -> bool {
    match extension_of(path) {
        Some(ext) => is_image_extension(ext),
        None => false,
    }
}

/// Whether the file at `path` counts as an image, by its extension.
pub fn is_image(path: &str) -> (r: bool)
    ensures
        r == is_image_path(path@),
{
    match extension(path) {
        Some(ext) => {
            let lower = lowercase(ext.as_str());
            let e = lower.as_str();
            same_text(e, "jpg") || same_text(e, "jpeg") || same_text(e, "png") || same_text(
                e,
                "gif",
            ) || same_text(e, "webp") || same_text(e, "bmp") || same_text(e, "avif")
        },
        None => false,
    }
}

/// The first `n` of `files` that are images, in order.
pub open spec fn images_among(files: Seq<Seq<char>>, n: int) -> Seq<Seq<char>>
    decreases n,
{
    if n <= 0 {
        seq![]
    } else {
        let before = images_among(files, n - 1);
        if is_image_path(files[n - 1]) {
            before.push(files[n - 1])
        } else {
            before
        }
    }
}

/// The images among `files`, in natural order.
pub open spec fn sorted_images(files: Seq<Seq<char>>) -> Seq<Seq<char>> {
    natural_sorted(images_among(files, files.len() as int))
}

/// The images among the files `files` of a directory, in natural order.
pub fn get_all_images(files: &Vec<String>) -> (images: Vec<String>)
    ensures
        strings_view(images@) == sorted_images(strings_view(files@)),
{
    let ghost all = strings_view(files@);
    let mut images: Vec<String> = Vec::new();
    let mut i: usize = 0;
    proof {
        assert(strings_view(images@) =~= images_among(all, 0));
    }
    while i < files.len()
        invariant
            i <= files.len(),
            all == strings_view(files@),
            strings_view(images@) == images_among(all, i as int),
        decreases files.len() - i,
    {
        proof {
            assert(all[i as int] == files@[i as int]@);
        }
        if is_image(files[i].as_str()) {
            let ghost before = strings_view(images@);
            images.push(files[i].clone());
            proof {
                assert(strings_view(images@) =~= before.push(all[i as int]));
            }
        }
        i += 1;
    }
    sort_naturally(&images)
}

/// The first image among the files `files` of a directory, in natural
/// order.
pub fn get_first_image(files: &Vec<String>) -> (first: Option<String>)
    ensures
        opt_view(first) == (if sorted_images(strings_view(files@)).len() > 0 {
            Some(sorted_images(strings_view(files@))[0])
        } else {
            None
        }),
{
    let images = get_all_images(files);
    if images.len() > 0 {
        proof {
            assert(strings_view(images@)[0] == images@[0]@);
        }
        Some(images[0].clone())
    } else {
        None
    }
}

/// The images among the first `n` files are the files among them that are
/// images.
pub proof fn lemma_images_among(files: Seq<Seq<char>>, n: int, i: int)
    requires
        0 <= i < n <= files.len(),
        is_image_path(files[i]),
    ensures
        images_among(files, n).contains(files[i]),
    decreases n,
{
    let now = images_among(files, n);
    if i == n - 1 {
        assert(now[now.len() - 1] == files[i]);
    } else {
        lemma_images_among(files, n - 1, i);
        let before = images_among(files, n - 1);
        let k = choose|k: int| 0 <= k < before.len() && before[k] == files[i];
        assert(now[k] == files[i]);
    }
}

/// The first image is the first in natural order: no image among the
/// files comes before it.
pub proof fn lemma_first_image_comes_first(files: Seq<Seq<char>>, i: int)
    requires
        0 <= i < files.len(),
        is_image_path(files[i]),
    ensures
        sorted_images(files).len() > 0,
        !path_lt(files[i], sorted_images(files)[0]),
{
    let images = images_among(files, files.len() as int);
    let sorted = sorted_images(files);
    lemma_images_among(files, files.len() as int, i);
    lemma_natural_sorted(images);
    vstd::seq_lib::to_multiset_contains(images, files[i]);
    vstd::seq_lib::to_multiset_contains(sorted, files[i]);
    assert(sorted.contains(files[i]));
    let k = choose|k: int| 0 <= k < sorted.len() && sorted[k] == files[i];
    if k == 0 {
        lemma_path_order(files[i], files[i], files[i]);
    }
}


/// An image occurs among the images as often as among the files, and what
/// is no image does not occur among them.
pub proof fn lemma_images_count(files: Seq<Seq<char>>, n: int, x: Seq<char>)
    requires
        0 <= n <= files.len(),
    ensures
        images_among(files, n).to_multiset().count(x) == (if is_image_path(x) {
            files.take(n).to_multiset().count(x)
        } else {
            0
        }),
    decreases n,
{
    broadcast use vstd::multiset::group_multiset_axioms;

    if n == 0 {
        assert(files.take(0) =~= Seq::<Seq<char>>::empty());
        assert(images_among(files, 0) =~= Seq::<Seq<char>>::empty());
        vstd::seq_lib::to_multiset_contains(Seq::<Seq<char>>::empty(), x);
    } else {
        lemma_images_count(files, n - 1, x);
        let last = files[n - 1];
        assert(files.take(n) =~= files.take(n - 1).push(last));
        vstd::seq_lib::to_multiset_build(files.take(n - 1), last);
        if is_image_path(last) {
            vstd::seq_lib::to_multiset_build(images_among(files, n - 1), last);
        }
    }
}

/// A listing does not depend on the order in which the directory was read:
/// the same files, in any order, give the same images in the same order,
/// and so the same first image.
pub proof fn lemma_listing_whatever_the_order(a: Seq<Seq<char>>, b: Seq<Seq<char>>)
    requires
        a.to_multiset() == b.to_multiset(),
    ensures
        sorted_images(a) == sorted_images(b),
{
    let ia = images_among(a, a.len() as int);
    let ib = images_among(b, b.len() as int);
    assert(a.take(a.len() as int) =~= a);
    assert(b.take(b.len() as int) =~= b);
    assert forall|x: Seq<char>| ia.to_multiset().count(x) == ib.to_multiset().count(x) by {
        lemma_images_count(a, a.len() as int, x);
        lemma_images_count(b, b.len() as int, x);
    }
    assert(ia.to_multiset() =~= ib.to_multiset());
    crate::natural::lemma_natural_sorted_whatever_the_order(ia, ib);
}


/// The marker of a file that was last modified `modified` seconds after
/// the epoch: the number in base ten; empty where the time is not known.
pub open spec fn marker_of(modified: Option<u64>) -> Seq<char> {
    match modified {
        Some(secs) => decimal_digits(secs as nat),
        None => Seq::empty(),
    }
}

/// The modification marker of a file, from the time of its last
/// modification in seconds after the epoch.
pub fn get_file_mtime(modified: Option<u64>) -> (marker: String)
    ensures
        marker@ == marker_of(modified),
{
    match modified {
        Some(secs) => {
            let mut digits: Vec<char> = Vec::new();
            push_decimal(&mut digits, secs);
            proof {
                assert(Seq::<char>::empty() + decimal_digits(secs as nat) =~= decimal_digits(
                    secs as nat,
                ));
            }
            string_of(&digits)
        },
        None => String::new(),
    }
}

/// What the disk shows of one gallery folder: its path, the marker of its
/// sidecar, what the sidecar says where it was read and could be parsed,
/// the thumbnail that was made for it (empty where there is none), and the
/// time at which the folder was looked at.
#[derive(Debug, Clone)]
pub struct FolderSnapshot {
    pub path: String,
    pub marker: String,
    pub parsed: Option<ParsedGallery>,
    pub thumb: String,
    pub seen_at: u64,
}

/// What the disk shows of a gallery folder, with its texts as plain
/// characters.
pub struct SnapshotView {
    pub path: Seq<char>,
    pub marker: Seq<char>,
    pub parsed: Option<ParsedInfo>,
    pub thumb: Seq<char>,
    pub seen_at: u64,
}

impl View for FolderSnapshot {
    type V = SnapshotView;

    open spec fn view(&self) -> SnapshotView {
        SnapshotView {
            path: self.path@,
            marker: self.marker@,
            parsed: match self.parsed {
                Some(p) => Some(p@),
                None => None,
            },
            thumb: self.thumb@,
            seen_at: self.seen_at,
        }
    }
}

/// The snapshots held in `v`, as views.
pub open spec fn tree_view(v: Seq<FolderSnapshot>) -> Seq<SnapshotView> {
    v.map_values(|f: FolderSnapshot| f@)
}

/// The paths of the folders of `tree`, in order.
pub open spec fn tree_paths(tree: Seq<SnapshotView>) -> Seq<Seq<char>> {
    tree.map_values(|f: SnapshotView| f.path)
}

/// Why a scan did not start.
#[derive(Debug, Clone, Copy, PartialEq, Eq, Structural)]
pub enum ScanError {
    /// A scan is running already.
    AlreadyRunning,
}

/// How far a scan has come.
#[derive(Debug, Clone)]
pub struct ScanProgress {
    pub scanned: i64,
    pub total: i64,
    pub current_folder: String,
}

/// How a scan ended.
#[derive(Debug, Clone, Copy, PartialEq, Eq, Structural)]
pub struct ScanComplete {
    pub total_scanned: i64,
    pub removed: i64,
}

/// The folder `f` with its path normalized: the path under which its record
/// is kept.
pub open spec fn keyed(f: SnapshotView) -> SnapshotView {
    SnapshotView { path: normalized(f.path), ..f }
}

/// The folders of `tree`, each with its path normalized.
pub open spec fn keyed_tree(tree: Seq<SnapshotView>) -> Seq<SnapshotView> {
    tree.map_values(|f: SnapshotView| keyed(f))
}

/// The record of the folder `path` in `rows` is stale against the marker
/// `marker`: it holds another marker, or there is no record.
pub open spec fn is_stale(rows: Seq<RowView>, path: Seq<char>, marker: Seq<char>) -> bool {
    match place_of_path(rows, path) {
        Some(i) => rows[i].info_modified != marker,
        None => true,
    }
}

/// Whether a sidecar with the marker `marker` has to be read again, given
/// the marker `stored` that the catalog holds for its folder.
pub fn needs_update(stored: &Option<String>, marker: &str) -> (r: bool)
    ensures
        r == match opt_view(*stored) {
            Some(m) => m != marker@,
            None => true,
        },
{
    match stored {
        Some(m) => !same_text(m.as_str(), marker),
        None => true,
    }
}

/// The record of the folder `f` is written when `c` is scanned: it is
/// stale, and the sidecar could be read.
pub open spec fn is_rewritten(c: Catalog, f: SnapshotView) -> bool {
    is_stale(c.rows, f.path, f.marker) && f.parsed is Some
}

/// The catalog `c` after the folder `f` has been scanned.
pub open spec fn after_folder(c: Catalog, f: SnapshotView) -> Catalog {
    if is_rewritten(c, f) {
        after_upsert(c, f.path, f.parsed->0, f.thumb, f.marker, f.seen_at)
    } else {
        c
    }
}

/// The catalog `c` after the first `n` folders of `tree` have been
/// scanned, in order.
pub open spec fn after_folders(c: Catalog, tree: Seq<SnapshotView>, n: int) -> Catalog
    decreases n,
{
    if n <= 0 {
        c
    } else {
        after_folder(after_folders(c, tree, n - 1), tree[n - 1])
    }
}

/// The catalog `c` after the root `root`, which shows the folders `tree`,
/// has been scanned: every folder in turn, then the sweep.
pub open spec fn after_scan(c: Catalog, root: Seq<char>, tree: Seq<SnapshotView>) -> Catalog {
    let scanned = after_folders(c, tree, tree.len() as int);
    Catalog { rows: swept(scanned.rows, root, tree_paths(tree)), next_id: scanned.next_id }
}

/// Scans one folder: writes its record, under the normalized path of the
/// folder, where it is stale and the sidecar could be read, and says
/// whether the catalog changed. A record is never removed here, and a
/// sidecar that cannot be read leaves the record as it was.
pub fn scan_folder(db: &mut Database, folder: &FolderSnapshot) -> (changed: bool)
    requires
        old(db).wf(),
    ensures
        final(db).wf(),
        final(db).catalog() == after_folder(old(db).catalog(), keyed(folder@)),
        changed == (final(db).catalog() != old(db).catalog()),
        !is_rewritten(old(db).catalog(), keyed(folder@)) ==> !changed,
{
    let path = normalize_path(folder.path.as_str());
    let stored = db.get_info_modified(path.as_str());
    proof {
        crate::db::lemma_path_from(db@, path@, 0);
    }
    if !needs_update(&stored, folder.marker.as_str()) {
        return false;
    }
    match &folder.parsed {
        Some(parsed) => {
            let ghost before = db.catalog();
            let r = db.upsert_gallery(
                path.as_str(),
                parsed,
                folder.thumb.as_str(),
                folder.marker.as_str(),
                folder.seen_at,
            );
            proof {
                if r.is_ok() {
                    match place_of_path(before.rows, path@) {
                        Some(i) => {
                            assert(db.catalog().rows[i].info_modified == folder@.marker);
                            assert(before.rows[i].info_modified != folder@.marker);
                        },
                        None => {
                            assert(db.catalog().rows.len() == before.rows.len() + 1);
                        },
                    }
                }
            }
            r.is_ok()
        },
        None => false,
    }
}

/// The notices of progress that a scan of `tree` gives after its first
/// `n` folders: one as it starts, and one after each folder.
pub open spec fn progress_after(tree: Seq<SnapshotView>, n: int) -> Seq<(i64, i64, Seq<char>)>
    decreases n,
{
    if n <= 0 {
        seq![(0i64, tree.len() as i64, Seq::<char>::empty())]
    } else {
        progress_after(tree, n - 1).push((n as i64, tree.len() as i64, tree[n - 1].path))
    }
}

/// The notices held in `v`, as plain values.
pub open spec fn progress_view(v: Seq<ScanProgress>) -> Seq<(i64, i64, Seq<char>)> {
    v.map_values(|p: ScanProgress| (p.scanned, p.total, p.current_folder@))
}

/// What a scan gives out: its notices of progress and how it ended.
#[derive(Debug, Clone)]
pub struct ScanOutcome {
    pub progress: Vec<ScanProgress>,
    pub complete: ScanComplete,
}

/// Starts a scan: fails where one is running, else sets the status to
/// running with nothing scanned of `total` folders, and gives the first
/// notice.
pub fn begin_scan(status: &mut ScanStatus, total: i64) -> (r: Result<ScanProgress, ScanError>)
    ensures
        old(status).is_scanning ==> r == Err::<ScanProgress, ScanError>(ScanError::AlreadyRunning)
            && *final(status) == *old(status),
        !old(status).is_scanning ==> r is Ok && r->Ok_0.scanned == 0 && r->Ok_0.total == total
            && r->Ok_0.current_folder@ == Seq::<char>::empty() && final(status).is_scanning && final(status).scanned == 0 && final(status).total == total && final(status).current_folder@.len() == 0,
{
    if status.is_scanning {
        return Err(ScanError::AlreadyRunning);
    }
    status.is_scanning = true;
    status.scanned = 0;
    status.total = total;
    status.current_folder = String::new();
    Ok(ScanProgress { scanned: 0, total, current_folder: String::new() })
}

/// Notes that the folder `folder` has been scanned: one more folder is
/// done, and it is the current one.
pub fn note_folder(status: &mut ScanStatus, folder: &str) -> (p: ScanProgress)
    ensures
        final(status).is_scanning == old(status).is_scanning,
        final(status).total == old(status).total,
        final(status).scanned == (if old(status).scanned < i64::MAX {
            old(status).scanned + 1
        } else {
            i64::MAX as int
        }),
        final(status).current_folder@ == folder@,
        p.scanned == final(status).scanned,
        p.total == final(status).total,
        p.current_folder@ == folder@,
{
    if status.scanned < i64::MAX {
        status.scanned = status.scanned + 1;
    }
    status.current_folder = folder.to_owned();
    ScanProgress { scanned: status.scanned, total: status.total, current_folder: folder.to_owned() }
}

/// Ends a scan: the status is no longer running, and the summary says how
/// many folders were scanned and how many records the sweep removed.
pub fn finish_scan(status: &mut ScanStatus, removed: i64) -> (done: ScanComplete)
    ensures
        !final(status).is_scanning,
        final(status).scanned == old(status).scanned,
        final(status).total == old(status).total,
        final(status).current_folder == old(status).current_folder,
        done == (ScanComplete { total_scanned: old(status).total, removed }),
{
    status.is_scanning = false;
    ScanComplete { total_scanned: status.total, removed }
}

/// Scans the root `root_path`, of which `tree` shows every gallery folder.
/// Fails, and changes nothing, where a scan is running. Else each folder is
/// scanned in turn, the records of the folders under the root that `tree`
/// does not show are removed, and the status is left as not running.
/// Records and notices go by the normalized paths of the folders.
pub fn start_scan(
    db: &mut Database,
    status: &mut ScanStatus,
    root_path: &str,
    tree: &Vec<FolderSnapshot>,
) -> (r: Result<ScanOutcome, ScanError>)
    requires
        old(db).wf(),
        tree.len() <= i64::MAX,
    ensures
        final(db).wf(),
        old(status).is_scanning ==> r is Err && r->Err_0 == ScanError::AlreadyRunning && final(db).catalog() == old(db).catalog() && *final(status) == *old(status),
        !old(status).is_scanning ==> {
            &&& r is Ok
            &&& final(db).catalog() == after_scan(
                old(db).catalog(),
                root_path@,
                keyed_tree(tree_view(tree@)),
            )
            &&& progress_view(r->Ok_0.progress@) == progress_after(
                keyed_tree(tree_view(tree@)),
                tree@.len() as int,
            )
            &&& r->Ok_0.complete.total_scanned == tree@.len()
            &&& r->Ok_0.complete.removed == after_folders(
                old(db).catalog(),
                keyed_tree(tree_view(tree@)),
                tree@.len() as int,
            ).rows.len() - final(db)@.len()
            &&& !final(status).is_scanning
            &&& final(status).scanned == tree@.len()
            &&& final(status).total == tree@.len()
        },
{
    let total = tree.len() as i64;
    let first = match begin_scan(status, total) {
        Ok(p) => p,
        Err(e) => {
            return Err(e);
        },
    };
    let ghost start = db.catalog();
    let ghost tv = keyed_tree(tree_view(tree@));
    let mut progress: Vec<ScanProgress> = Vec::new();
    progress.push(first);
    let mut seen: Vec<String> = Vec::new();
    let mut i: usize = 0;
    proof {
        assert(progress@.len() == 1);
        assert(progress_view(progress@)[0] == (0i64, total, Seq::<char>::empty()));
        assert(progress_view(progress@) =~= progress_after(tv, 0));
        assert(strings_view(seen@) =~= tree_paths(tv).take(0));
    }
    while i < tree.len()
        invariant
            i <= tree.len() <= i64::MAX,
            total == tree.len(),
            tv == keyed_tree(tree_view(tree@)),
            db.wf(),
            db.catalog() == after_folders(start, tv, i as int),
            progress_view(progress@) == progress_after(tv, i as int),
            strings_view(seen@) == tree_paths(tv).take(i as int),
            status.is_scanning,
            status.scanned == i,
            status.total == total,
        decreases tree.len() - i,
    {
        proof {
            assert(tv[i as int] == keyed(tree@[i as int]@));
        }
        scan_folder(db, &tree[i]);
        let ghost before = strings_view(seen@);
        let ghost notices = progress_view(progress@);
        let path = normalize_path(tree[i].path.as_str());
        let p = note_folder(status, path.as_str());
        seen.push(path);
        progress.push(p);
        proof {
            assert(strings_view(seen@) =~= before.push(tv[i as int].path));
            assert(tree_paths(tv).take(i + 1) =~= before.push(tv[i as int].path));
            assert(progress_view(progress@) =~= notices.push(
                ((i + 1) as i64, total, tv[i as int].path),
            ));
        }
        i += 1;
    }
    proof {
        assert(tree_paths(tv).take(tree@.len() as int) =~= tree_paths(tv));
        lemma_fewer_rows_than_ids(db@, db.next_id());
    }
    let removed = db.sweep(root_path, &seen);
    let complete = finish_scan(status, removed as i64);
    Ok(ScanOutcome { progress, complete })
}


} // verus!
