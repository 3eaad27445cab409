//! Following a root as it changes: which folders a batch of change
//! notices touches, and what is done about each.
//!
//! Subscribing to notices and waiting out bursts is left to the caller.
//! For each folder that a batch touches the caller looks at the disk once;
//! the record is then written from what the disk shows, whatever the marker
//! says, or removed where the sidecar has gone.

use crate::db::{
    after_upsert, holds_text, lemma_path_from, place_of_path, upsert_answer, Catalog, Database,
};
use crate::models::strings_view;
use crate::paths::{normalized, parent_dir, parent_dir_of};
use crate::paths::normalize_path;
use crate::scanner::{after_folder, is_rewritten, keyed, FolderSnapshot, SnapshotView};
use vstd::prelude::*;

verus! {

/// `folders` with the parent of `path` added, unless the path has none or
/// it is there already.
pub open spec fn with_parent(folders: Seq<Seq<char>>, path: Seq<char>) -> Seq<Seq<char>> {
    match parent_dir_of(path) {
        Some(dir) => if folders.contains(dir) {
            folders
        } else {
            folders.push(dir)
        },
        None => folders,
    }
}

/// The parents of the first `n` of `paths`, each once, in the order in
/// which they first occur.
pub open spec fn parents_of(paths: Seq<Seq<char>>, n: int) -> Seq<Seq<char>>
    decreases n,
{
    if n <= 0 {
        seq![]
    } else {
        with_parent(parents_of(paths, n - 1), paths[n - 1])
    }
}

/// The folders that a batch of change notices touches: the parent of each
/// path that changed, each once.
pub fn affected_folders(changed: &Vec<String>) -> (folders: Vec<String>)
    ensures
        strings_view(folders@) == parents_of(strings_view(changed@), changed@.len() as int),
{
    let ghost all = strings_view(changed@);
    let mut folders: Vec<String> = Vec::new();
    let mut i: usize = 0;
    proof {
        assert(strings_view(folders@) =~= parents_of(all, 0));
    }
    while i < changed.len()
        invariant
            i <= changed.len(),
            all == strings_view(changed@),
            strings_view(folders@) == parents_of(all, i as int),
        decreases changed.len() - i,
    {
        proof {
            assert(all[i as int] == changed@[i as int]@);
        }
        match parent_dir(changed[i].as_str()) {
            Some(dir) => {
                if !holds_text(&folders, dir.as_str()) {
                    let ghost before = strings_view(folders@);
                    folders.push(dir);
                    proof {
                        assert(strings_view(folders@) =~= before.push(dir@));
                    }
                }
            },
            None => {},
        }
        i += 1;
    }
    folders
}

/// What the disk shows of a folder that a batch touched: whether its
/// sidecar is there, and what a scan would see of it.
#[derive(Debug, Clone)]
pub struct FolderChange {
    pub sidecar_exists: bool,
    pub folder: FolderSnapshot,
}

/// What was done about a folder.
#[derive(Debug, Clone)]
pub enum WatcherEvent {
    /// The record of the folder at this path was written.
    Upsert(String),
    /// The record of the folder at this path was removed.
    Delete(String),
}

/// What was done about a folder, as plain text.
pub enum EventView {
    Upsert(Seq<char>),
    Delete(Seq<char>),
}

impl View for WatcherEvent {
    type V = EventView;

    open spec fn view(&self) -> EventView {
        match *self {
            WatcherEvent::Upsert(p) => EventView::Upsert(p@),
            WatcherEvent::Delete(p) => EventView::Delete(p@),
        }
    }
}

impl WatcherEvent {
    /// The word by which a notice names this kind of event.
    pub fn event_type(&self) -> (word: &'static str)
        ensures
            word@ == (match *self {
                WatcherEvent::Upsert(_) => "upsert"@,
                WatcherEvent::Delete(_) => "delete"@,
            }),
    {
        match self {
            WatcherEvent::Upsert(_) => "upsert",
            WatcherEvent::Delete(_) => "delete",
        }
    }

    /// The path of the folder that the event is about.
    pub fn path(&self) -> (p: &String)
        ensures
            *p == (match *self {
                WatcherEvent::Upsert(q) => q,
                WatcherEvent::Delete(q) => q,
            }),
    {
        match self {
            WatcherEvent::Upsert(p) => p,
            WatcherEvent::Delete(p) => p,
        }
    }
}

/// The catalog `c` after the change `f` of a folder has been followed: the
/// record is written where the sidecar is there and could be read, and
/// removed where the sidecar has gone.
pub open spec fn after_change(c: Catalog, sidecar_exists: bool, f: SnapshotView) -> Catalog {
    if sidecar_exists {
        match f.parsed {
            Some(parsed) => after_upsert(c, f.path, parsed, f.thumb, f.marker, f.seen_at),
            None => c,
        }
    } else {
        match place_of_path(c.rows, f.path) {
            Some(i) => Catalog { rows: c.rows.remove(i), next_id: c.next_id },
            None => c,
        }
    }
}

/// The notice that following the change `f` gives: of a write where the
/// sidecar is there and could be read and the catalog took the record, of a
/// removal where the sidecar has gone and there was a record, else none.
pub open spec fn notice_of(c: Catalog, sidecar_exists: bool, f: SnapshotView) -> Option<EventView> {
    if sidecar_exists {
        if f.parsed is Some && upsert_answer(c, f.path) is Ok {
            Some(EventView::Upsert(f.path))
        } else {
            None
        }
    } else if place_of_path(c.rows, f.path) is Some {
        Some(EventView::Delete(f.path))
    } else {
        None
    }
}

/// The notice held in `o`, as plain text.
pub open spec fn event_view(o: Option<WatcherEvent>) -> Option<EventView> {
    match o {
        Some(e) => Some(e@),
        None => None,
    }
}

/// Follows the change of one folder, whose record is kept under its
/// normalized path, as a scan keeps it. Where its sidecar is there and could
/// be read, the record is written as a scan writes it, and the write is
/// announced where the catalog took the record. Where the
/// sidecar is there and could not be read, nothing is done. Where the
/// sidecar has gone, the record is removed if there is one.
pub fn reconcile_folder(db: &mut Database, change: &FolderChange) -> (notice: Option<WatcherEvent>)
    requires
        old(db).wf(),
    ensures
        final(db).wf(),
        final(db).catalog() == after_change(
            old(db).catalog(),
            change.sidecar_exists,
            keyed(change.folder@),
        ),
        event_view(notice) == notice_of(
            old(db).catalog(),
            change.sidecar_exists,
            keyed(change.folder@),
        ),
{
    let f = &change.folder;
    let path = normalize_path(f.path.as_str());
    if change.sidecar_exists {
        match &f.parsed {
            Some(parsed) => {
                match db.upsert_gallery(
                    path.as_str(),
                    parsed,
                    f.thumb.as_str(),
                    f.marker.as_str(),
                    f.seen_at,
                ) {
                    Ok(_) => Some(WatcherEvent::Upsert(path)),
                    Err(_) => None,
                }
            },
            None => None,
        }
    } else {
        proof {
            lemma_path_from(db@, path@, 0);
        }
        if db.delete_gallery_by_path(path.as_str()) {
            Some(WatcherEvent::Delete(path))
        } else {
            None
        }
    }
}

/// The changes held in `v`, as views, each with its path normalized.
pub open spec fn changes_view(v: Seq<FolderChange>) -> Seq<(bool, SnapshotView)> {
    v.map_values(|c: FolderChange| (c.sidecar_exists, keyed(c.folder@)))
}

/// The notices held in `v`, as plain text.
pub open spec fn events_view(v: Seq<WatcherEvent>) -> Seq<EventView> {
    v.map_values(|e: WatcherEvent| e@)
}

/// The catalog `c` after the first `n` of `changes` have been followed, in
/// order.
pub open spec fn after_changes(c: Catalog, changes: Seq<(bool, SnapshotView)>, n: int) -> Catalog
    decreases n,
{
    if n <= 0 {
        c
    } else {
        let before = after_changes(c, changes, n - 1);
        after_change(before, changes[n - 1].0, changes[n - 1].1)
    }
}

/// The notices that following the first `n` of `changes` gives, in order.
pub open spec fn notices_of(c: Catalog, changes: Seq<(bool, SnapshotView)>, n: int) -> Seq<EventView>
    decreases n,
{
    if n <= 0 {
        seq![]
    } else {
        let before = after_changes(c, changes, n - 1);
        match notice_of(before, changes[n - 1].0, changes[n - 1].1) {
            Some(e) => notices_of(c, changes, n - 1).push(e),
            None => notices_of(c, changes, n - 1),
        }
    }
}

/// Follows a batch of changes, one folder after the other, and gives the
/// notices in that order.
pub fn reconcile_batch(db: &mut Database, changes: &Vec<FolderChange>) -> (notices: Vec<WatcherEvent>)
    requires
        old(db).wf(),
    ensures
        final(db).wf(),
        final(db).catalog() == after_changes(
            old(db).catalog(),
            changes_view(changes@),
            changes@.len() as int,
        ),
        events_view(notices@) == notices_of(
            old(db).catalog(),
            changes_view(changes@),
            changes@.len() as int,
        ),
{
    let ghost start = db.catalog();
    let ghost all = changes_view(changes@);
    let mut notices: Vec<WatcherEvent> = Vec::new();
    let mut i: usize = 0;
    proof {
        assert(events_view(notices@) =~= notices_of(start, all, 0));
    }
    while i < changes.len()
        invariant
            i <= changes.len(),
            all == changes_view(changes@),
            db.wf(),
            db.catalog() == after_changes(start, all, i as int),
            events_view(notices@) == notices_of(start, all, i as int),
        decreases changes.len() - i,
    {
        proof {
            assert(all[i as int] == (
                changes@[i as int].sidecar_exists,
                keyed(changes@[i as int].folder@),
            ));
        }
        let ghost before = events_view(notices@);
        match reconcile_folder(db, &changes[i]) {
            Some(e) => {
                notices.push(e);
                proof {
                    assert(events_view(notices@) =~= before.push(e@));
                }
            },
            None => {},
        }
        i += 1;
    }
    notices
}

/// One path of mutation and one key. Where a scan would write the record
/// of a folder, following a change of that folder writes the same record,
/// under the same path: the normalized one, however the folder is spelled.
pub proof fn lemma_watcher_writes_what_scanner_writes(c: Catalog, f: SnapshotView)
    requires
        is_rewritten(c, keyed(f)),
    ensures
        after_change(c, true, keyed(f)) == after_folder(c, keyed(f)),
{
}

/// One record for one folder. After a folder has been scanned, following a
/// change of it, however it is spelled then, adds no record and leaves the
/// id as it is, where the two spellings are of one path.
pub proof fn lemma_watcher_keeps_one_record(c: Catalog, scanned: SnapshotView, changed: SnapshotView)
    requires
        crate::db::well_formed(c.rows, c.next_id),
        normalized(scanned.path) == normalized(changed.path),
        place_of_path(after_folder(c, keyed(scanned)).rows, normalized(scanned.path)) is Some,
        changed.parsed is Some,
    ensures
        ({
            let d = after_folder(c, keyed(scanned));
            let e = after_change(d, true, keyed(changed));
            let at = place_of_path(d.rows, normalized(scanned.path))->0;
            &&& e.rows.len() == d.rows.len()
            &&& e.next_id == d.next_id
            &&& e.rows[at].gallery.id == d.rows[at].gallery.id
            &&& e.rows[at].gallery.path == normalized(changed.path)
        }),
{
    let d = after_folder(c, keyed(scanned));
    lemma_path_from(d.rows, normalized(scanned.path), 0);
}


} // verus!
