//! What a scan guarantees of the catalog.
//!
//! The statements here relate several steps of a scan to one another: that
//! a folder whose marker has not changed is left alone and one whose marker
//! has changed is written once; that a sweep removes the records of the
//! folders that have gone from a root and no others; and that scanning a
//! tree a second time changes nothing.

use crate::db::{
    after_upsert, lemma_path_from, lemma_retained_from, place_of_path, retained, survives, swept,
    well_formed, Catalog, RowView,
};
use crate::paths::is_under;
use crate::scanner::{
    after_folder, after_folders, after_scan, is_rewritten, is_stale, tree_paths, SnapshotView,
};
use vstd::prelude::*;

verus! {

/// In a catalog in order a folder's record is found at the one place where
/// it stands.
pub proof fn lemma_place_of_record(rows: Seq<RowView>, next_id: i64, k: int)
    requires
        well_formed(rows, next_id),
        0 <= k < rows.len(),
    ensures
        place_of_path(rows, rows[k].gallery.path) == Some(k),
{
    lemma_path_from(rows, rows[k].gallery.path, 0);
}

/// Scanning a folder keeps the catalog in order. It removes no record and
/// moves none; it leaves the records of all other folders as they were; it
/// adds at most one record, for the folder that was scanned.
pub proof fn lemma_folder_keeps_others(c: Catalog, f: SnapshotView)
    requires
        well_formed(c.rows, c.next_id),
    ensures
        well_formed(after_folder(c, f).rows, after_folder(c, f).next_id),
        c.next_id <= after_folder(c, f).next_id,
        c.rows.len() <= after_folder(c, f).rows.len() <= c.rows.len() + 1,
        forall|i: int|
            0 <= i < c.rows.len() ==> (#[trigger] after_folder(c, f).rows[i]).gallery.path
                == c.rows[i].gallery.path && after_folder(c, f).rows[i].gallery.id
                == c.rows[i].gallery.id,
        forall|i: int|
            0 <= i < c.rows.len() && c.rows[i].gallery.path != f.path ==> #[trigger] after_folder(
                c,
                f,
            ).rows[i] == c.rows[i],
        after_folder(c, f).rows.len() > c.rows.len() ==> after_folder(c, f).rows.last().gallery.path
            == f.path && place_of_path(c.rows, f.path) is None,
{
    lemma_path_from(c.rows, f.path, 0);
}

/// Change detection. Where the catalog holds a record for a folder whose
/// sidecar can be read, scanning the folder writes the record if and only
/// if the sidecar's marker differs from the stored one; and once the folder
/// has been scanned, scanning it again with the same marker writes nothing.
pub proof fn lemma_changed_marker_is_written_once(c: Catalog, f: SnapshotView)
    requires
        well_formed(c.rows, c.next_id),
        place_of_path(c.rows, f.path) is Some,
        f.parsed is Some,
    ensures
        is_rewritten(c, f) <==> c.rows[place_of_path(c.rows, f.path)->0].info_modified != f.marker,
        !is_rewritten(c, f) ==> after_folder(c, f) == c,
        !is_rewritten(after_folder(c, f), f),
        after_folder(after_folder(c, f), f) == after_folder(c, f),
{
    lemma_path_from(c.rows, f.path, 0);
    let k = place_of_path(c.rows, f.path)->0;
    let d = after_folder(c, f);
    lemma_folder_keeps_others(c, f);
    lemma_place_of_record(d.rows, d.next_id, k);
}

/// Scanning the folder `f` changes nothing in `c`.
pub open spec fn is_settled(c: Catalog, f: SnapshotView) -> bool {
    after_folder(c, f) == c
}

/// A folder is settled exactly where its record holds its marker, or its
/// sidecar cannot be read, or it has no record and no id is left for one.
pub proof fn lemma_settled_means(c: Catalog, f: SnapshotView)
    requires
        well_formed(c.rows, c.next_id),
    ensures
        is_settled(c, f) <==> (!is_stale(c.rows, f.path, f.marker) || f.parsed is None || (
        place_of_path(c.rows, f.path) is None && c.next_id == i64::MAX)),
{
    lemma_path_from(c.rows, f.path, 0);
    if is_rewritten(c, f) {
        let d = after_upsert(c, f.path, f.parsed->0, f.thumb, f.marker, f.seen_at);
        match place_of_path(c.rows, f.path) {
            Some(k) => {
                assert(d.rows[k].info_modified == f.marker);
                assert(c.rows[k].info_modified != f.marker);
            },
            None => {
                if c.next_id < i64::MAX {
                    assert(d.rows.len() == c.rows.len() + 1);
                }
            },
        }
    }
}

/// Once a folder has been scanned it is settled.
pub proof fn lemma_scanned_folder_is_settled(c: Catalog, f: SnapshotView)
    requires
        well_formed(c.rows, c.next_id),
    ensures
        is_settled(after_folder(c, f), f),
{
    let d = after_folder(c, f);
    lemma_path_from(c.rows, f.path, 0);
    lemma_folder_keeps_others(c, f);
    lemma_settled_means(c, f);
    lemma_settled_means(d, f);
    if is_rewritten(c, f) {
        match place_of_path(c.rows, f.path) {
            Some(k) => {
                lemma_place_of_record(d.rows, d.next_id, k);
            },
            None => {
                if c.next_id < i64::MAX {
                    lemma_place_of_record(d.rows, d.next_id, d.rows.len() - 1);
                }
            },
        }
    }
}

/// A folder that is settled stays settled when another folder is scanned.
pub proof fn lemma_settled_survives_other_folder(c: Catalog, f: SnapshotView, g: SnapshotView)
    requires
        well_formed(c.rows, c.next_id),
        is_settled(c, f),
        f.path != g.path,
    ensures
        is_settled(after_folder(c, g), f),
{
    let d = after_folder(c, g);
    lemma_path_from(c.rows, f.path, 0);
    lemma_path_from(d.rows, f.path, 0);
    lemma_folder_keeps_others(c, g);
    lemma_settled_means(c, f);
    lemma_settled_means(d, f);
    if f.parsed is Some {
        match place_of_path(c.rows, f.path) {
            Some(k) => {
                lemma_place_of_record(d.rows, d.next_id, k);
                assert(d.rows[k] == c.rows[k]);
            },
            None => {
                assert(c.next_id == i64::MAX);
                assert(d.rows.len() == c.rows.len()) by {
                    lemma_path_from(c.rows, g.path, 0);
                }
                assert(place_of_path(d.rows, f.path) is None);
            },
        }
    }
}

/// No two folders of `tree` have one path.
pub open spec fn distinct_paths(tree: Seq<SnapshotView>) -> bool {
    forall|i: int, j: int|
        0 <= i < j < tree.len() ==> (#[trigger] tree[i]).path != (#[trigger] tree[j]).path
}

/// Scanning folders keeps the catalog in order, removes no record and
/// moves none; a record of a folder that is not among those scanned stays
/// as it was, and a record that is added is for a folder that was scanned.
pub proof fn lemma_folders_keep_others(c: Catalog, tree: Seq<SnapshotView>, n: int)
    requires
        well_formed(c.rows, c.next_id),
        0 <= n <= tree.len(),
    ensures
        well_formed(after_folders(c, tree, n).rows, after_folders(c, tree, n).next_id),
        c.next_id <= after_folders(c, tree, n).next_id,
        c.rows.len() <= after_folders(c, tree, n).rows.len(),
        forall|i: int|
            0 <= i < c.rows.len() ==> (#[trigger] after_folders(c, tree, n).rows[i]).gallery.path
                == c.rows[i].gallery.path && after_folders(c, tree, n).rows[i].gallery.id
                == c.rows[i].gallery.id,
        forall|i: int|
            0 <= i < c.rows.len() && !tree_paths(tree).take(n).contains(c.rows[i].gallery.path)
                ==> #[trigger] after_folders(c, tree, n).rows[i] == c.rows[i],
        forall|i: int|
            c.rows.len() <= i < after_folders(c, tree, n).rows.len() ==> tree_paths(tree).take(
                n,
            ).contains((#[trigger] after_folders(c, tree, n).rows[i]).gallery.path),
    decreases n,
{
    if n > 0 {
        let d = after_folders(c, tree, n - 1);
        let e = after_folders(c, tree, n);
        let f = tree[n - 1];
        lemma_folders_keep_others(c, tree, n - 1);
        lemma_folder_keeps_others(d, f);
        let seen = tree_paths(tree).take(n);
        let before = tree_paths(tree).take(n - 1);
        assert(seen =~= before.push(f.path));
        assert forall|p: Seq<char>| before.contains(p) implies seen.contains(p) by {
            let k = choose|k: int| 0 <= k < before.len() && before[k] == p;
            assert(seen[k] == p);
        }
        assert(seen[n - 1] == f.path);
        assert forall|i: int|
            0 <= i < c.rows.len() && !seen.contains(c.rows[i].gallery.path) implies #[trigger] e.rows[i]
            == c.rows[i] by {
            assert(d.rows[i].gallery.path == c.rows[i].gallery.path);
            assert(d.rows[i].gallery.path != f.path);
            assert(!before.contains(c.rows[i].gallery.path));
        }
        assert forall|i: int| c.rows.len() <= i < e.rows.len() implies seen.contains(
            (#[trigger] e.rows[i]).gallery.path,
        ) by {
            if i < d.rows.len() {
                assert(e.rows[i].gallery.path == d.rows[i].gallery.path);
                assert(before.contains(d.rows[i].gallery.path));
            } else {
                assert(e.rows[i] == e.rows.last());
            }
        }
    }
}

/// After the folders have been scanned, each of them is settled.
pub proof fn lemma_scanned_folders_are_settled(c: Catalog, tree: Seq<SnapshotView>, n: int)
    requires
        well_formed(c.rows, c.next_id),
        distinct_paths(tree),
        0 <= n <= tree.len(),
    ensures
        forall|i: int| 0 <= i < n ==> is_settled(after_folders(c, tree, n), #[trigger] tree[i]),
    decreases n,
{
    if n > 0 {
        let d = after_folders(c, tree, n - 1);
        let f = tree[n - 1];
        lemma_scanned_folders_are_settled(c, tree, n - 1);
        lemma_folders_keep_others(c, tree, n - 1);
        lemma_scanned_folder_is_settled(d, f);
        assert forall|i: int| 0 <= i < n implies is_settled(
            after_folders(c, tree, n),
            #[trigger] tree[i],
        ) by {
            if i < n - 1 {
                lemma_settled_survives_other_folder(d, tree[i], f);
            }
        }
    }
}

/// Scanning folders that are all settled changes nothing.
pub proof fn lemma_settled_folders_change_nothing(c: Catalog, tree: Seq<SnapshotView>, n: int)
    requires
        0 <= n <= tree.len(),
        forall|i: int| 0 <= i < n ==> is_settled(c, #[trigger] tree[i]),
    ensures
        after_folders(c, tree, n) == c,
    decreases n,
{
    if n > 0 {
        lemma_settled_folders_change_nothing(c, tree, n - 1);
        assert(is_settled(c, tree[n - 1]));
    }
}

/// Where `keep` holds of every record, every record is retained.
pub proof fn lemma_retained_all(rows: Seq<RowView>, keep: spec_fn(RowView) -> bool, n: int)
    requires
        0 <= n <= rows.len(),
        forall|i: int| 0 <= i < n ==> keep(#[trigger] rows[i]),
    ensures
        retained(rows, keep, n) == rows.take(n),
    decreases n,
{
    if n > 0 {
        lemma_retained_all(rows, keep, n - 1);
        assert(rows.take(n) =~= rows.take(n - 1).push(rows[n - 1]));
    } else {
        assert(rows.take(0) =~= Seq::<RowView>::empty());
    }
}

/// Sweep correctness. After a sweep of `root` the catalog holds, in their
/// old order, exactly the records that it held whose folders were seen or
/// do not lie under `root`: the record of a folder that has gone from the
/// root is removed, its siblings stay, and the records of other roots are
/// untouched.
pub proof fn lemma_sweep_removes_the_unseen(
    rows: Seq<RowView>,
    next_id: i64,
    root: Seq<char>,
    seen: Seq<Seq<char>>,
)
    requires
        well_formed(rows, next_id),
    ensures
        well_formed(swept(rows, root, seen), next_id),
        forall|i: int|
            0 <= i < rows.len() ==> (swept(rows, root, seen).contains(#[trigger] rows[i]) <==> (
            seen.contains(rows[i].gallery.path) || !is_under(rows[i].gallery.path, root))),
        forall|k: int|
            0 <= k < swept(rows, root, seen).len() ==> rows.contains(
                #[trigger] swept(rows, root, seen)[k],
            ),
        forall|i: int|
            0 <= i < rows.len() && !seen.contains(rows[i].gallery.path) && is_under(
                rows[i].gallery.path,
                root,
            ) ==> place_of_path(swept(rows, root, seen), (#[trigger] rows[i]).gallery.path) is None,
{
    let keep = |r: RowView| survives(r, root, seen);
    let out = swept(rows, root, seen);
    let n = rows.len() as int;
    lemma_retained_from(rows, keep, n);
    crate::db::lemma_retained_well_formed(rows, keep, n, next_id);
    assert forall|k: int| 0 <= k < out.len() implies rows.contains(#[trigger] out[k]) by {
        let j = choose|j: int| k <= j < n && rows[j] == out[k] && keep(rows[j]);
        assert(rows[j] == out[k]);
    }
    assert forall|i: int| 0 <= i < rows.len() implies (out.contains(#[trigger] rows[i]) <==> (
    seen.contains(rows[i].gallery.path) || !is_under(rows[i].gallery.path, root))) by {
        if out.contains(rows[i]) {
            let k = choose|k: int| 0 <= k < out.len() && out[k] == rows[i];
            let j = choose|j: int| k <= j < n && rows[j] == out[k] && keep(rows[j]);
            assert(keep(rows[i]));
        }
    }
    assert forall|i: int|
        0 <= i < rows.len() && !seen.contains(rows[i].gallery.path) && is_under(
            rows[i].gallery.path,
            root,
        ) implies place_of_path(out, (#[trigger] rows[i]).gallery.path) is None by {
        let p = rows[i].gallery.path;
        lemma_path_from(out, p, 0);
        if place_of_path(out, p) is Some {
            let k = place_of_path(out, p)->0;
            let j = choose|j: int| k <= j < n && rows[j] == out[k] && keep(rows[j]);
            assert(rows[j].gallery.path == p);
            if j < i {
            } else if j > i {
            }
            assert(j == i);
        }
    }
}

/// What a scan of a root does to the records that the catalog held. The
/// record of a folder that the tree still shows is there after the scan,
/// under the id it had. The record of a folder under the root that the
/// tree no longer shows is gone. The record of a folder that lies under
/// another root, and that the tree does not show, is there as it was.
pub proof fn lemma_scan_removes_what_has_gone(
    c: Catalog,
    root: Seq<char>,
    tree: Seq<SnapshotView>,
    i: int,
)
    requires
        well_formed(c.rows, c.next_id),
        0 <= i < c.rows.len(),
    ensures
        well_formed(after_scan(c, root, tree).rows, after_scan(c, root, tree).next_id),
        tree_paths(tree).contains(c.rows[i].gallery.path) ==> {
            let place = place_of_path(after_scan(c, root, tree).rows, c.rows[i].gallery.path);
            place is Some && after_scan(c, root, tree).rows[place->0].gallery.id
                == c.rows[i].gallery.id
        },
        !tree_paths(tree).contains(c.rows[i].gallery.path) && is_under(
            c.rows[i].gallery.path,
            root,
        ) ==> place_of_path(after_scan(c, root, tree).rows, c.rows[i].gallery.path) is None,
        !tree_paths(tree).contains(c.rows[i].gallery.path) && !is_under(
            c.rows[i].gallery.path,
            root,
        ) ==> after_scan(c, root, tree).rows.contains(c.rows[i]),
{
    let n = tree.len() as int;
    let seen = tree_paths(tree);
    let d = after_folders(c, tree, n);
    let e = after_scan(c, root, tree);
    let path = c.rows[i].gallery.path;
    lemma_folders_keep_others(c, tree, n);
    lemma_sweep_removes_the_unseen(d.rows, d.next_id, root, seen);
    assert(seen.take(n) =~= seen);
    assert(d.rows[i].gallery.path == path);
    if seen.contains(path) {
        assert(e.rows.contains(d.rows[i]));
        let m = choose|m: int| 0 <= m < e.rows.len() && e.rows[m] == d.rows[i];
        lemma_place_of_record(e.rows, e.next_id, m);
    } else {
        assert(d.rows[i] == c.rows[i]);
    }
}


/// Idempotence. Once a root has been scanned, scanning it again while the
/// disk shows the same tree writes no record, removes none, and leaves the
/// catalog as it is.
pub proof fn lemma_second_scan_changes_nothing(c: Catalog, root: Seq<char>, tree: Seq<SnapshotView>)
    requires
        well_formed(c.rows, c.next_id),
        distinct_paths(tree),
    ensures
        forall|i: int|
            0 <= i < tree.len() ==> !is_rewritten(after_scan(c, root, tree), #[trigger] tree[i])
                || after_folder(after_scan(c, root, tree), tree[i]) == after_scan(c, root, tree),
        after_folders(after_scan(c, root, tree), tree, tree.len() as int) == after_scan(
            c,
            root,
            tree,
        ),
        swept(after_scan(c, root, tree).rows, root, tree_paths(tree)) == after_scan(
            c,
            root,
            tree,
        ).rows,
        after_scan(after_scan(c, root, tree), root, tree) == after_scan(c, root, tree),
{
    let n = tree.len() as int;
    let seen = tree_paths(tree);
    let keep = |r: RowView| survives(r, root, seen);
    let d = after_folders(c, tree, n);
    let e = after_scan(c, root, tree);
    lemma_folders_keep_others(c, tree, n);
    lemma_scanned_folders_are_settled(c, tree, n);
    lemma_sweep_removes_the_unseen(d.rows, d.next_id, root, seen);
    lemma_retained_from(d.rows, keep, d.rows.len() as int);
    assert forall|i: int| 0 <= i < n implies is_settled(e, #[trigger] tree[i]) by {
        let f = tree[i];
        lemma_settled_means(d, f);
        lemma_settled_means(e, f);
        lemma_path_from(d.rows, f.path, 0);
        lemma_path_from(e.rows, f.path, 0);
        assert(seen[i] == f.path);
        if f.parsed is Some {
            match place_of_path(d.rows, f.path) {
                Some(k) => {
                    assert(keep(d.rows[k]));
                    assert(e.rows.contains(d.rows[k]));
                    let m = choose|m: int| 0 <= m < e.rows.len() && e.rows[m] == d.rows[k];
                    lemma_place_of_record(e.rows, e.next_id, m);
                },
                None => {
                    if place_of_path(e.rows, f.path) is Some {
                        let m = place_of_path(e.rows, f.path)->0;
                        assert(d.rows.contains(e.rows[m]));
                        let j = choose|j: int| 0 <= j < d.rows.len() && d.rows[j] == e.rows[m];
                        assert(d.rows[j].gallery.path == f.path);
                    }
                },
            }
        }
    }
    lemma_settled_folders_change_nothing(e, tree, n);
    assert forall|k: int| 0 <= k < e.rows.len() implies keep(#[trigger] e.rows[k]) by {
        let j = choose|j: int| k <= j < d.rows.len() && d.rows[j] == e.rows[k] && keep(d.rows[j]);
    }
    lemma_retained_all(e.rows, keep, e.rows.len() as int);
    assert(e.rows.take(e.rows.len() as int) =~= e.rows);
}


} // verus!
