use manga_viewer_lib::db::Database;
use manga_viewer_lib::parser::parse_info_txt;
use manga_viewer_lib::scanner::{scan_folder, FolderSnapshot};
use manga_viewer_lib::watcher::{
    affected_folders, reconcile_batch, reconcile_folder, FolderChange, WatcherEvent,
};

fn change(path: &str, exists: bool, readable: bool) -> FolderChange {
    FolderChange {
        sidecar_exists: exists,
        folder: FolderSnapshot {
            path: path.to_string(),
            marker: "7".to_string(),
            parsed: if readable { parse_info_txt("T\n\n\n\n\n") } else { None },
            thumb: "t.jpg".to_string(),
            seen_at: 3,
        },
    }
}

#[test]
fn each_parent_is_touched_once() {
    let changed: Vec<String> =
        ["/r/a/1.jpg", "/r/b/info.txt", "/r/a/2.jpg", "/", "/r/a/info.txt"].iter().map(|s| s.to_string()).collect();
    assert_eq!(affected_folders(&changed), vec!["/r/a", "/r/b"]);
    assert!(affected_folders(&Vec::new()).is_empty());
}

#[test]
fn a_sidecar_that_is_there_is_written() {
    let mut db = Database::new();
    let e = reconcile_folder(&mut db, &change("/r/a", true, true)).unwrap();
    assert!(matches!(&e, WatcherEvent::Upsert(p) if p == "/r/a"));
    assert_eq!(e.event_type(), "upsert");
    assert_eq!(e.path(), "/r/a");
    assert_eq!(db.get_gallery_by_path("/r/a").unwrap().thumb_path, "t.jpg");
    let again = reconcile_folder(&mut db, &change("/r/a", true, true)).unwrap();
    assert_eq!(again.event_type(), "upsert");
    assert_eq!(db.get_gallery_by_path("/r/a").unwrap().id, 1);
}

#[test]
fn a_sidecar_that_cannot_be_read_is_passed_over() {
    let mut db = Database::new();
    reconcile_folder(&mut db, &change("/r/a", true, true));
    assert!(reconcile_folder(&mut db, &change("/r/a", true, false)).is_none());
    assert!(db.get_gallery_by_path("/r/a").is_some());
}

#[test]
fn a_sidecar_that_has_gone_removes_the_record() {
    let mut db = Database::new();
    reconcile_folder(&mut db, &change("/r/a", true, true));
    let e = reconcile_folder(&mut db, &change("/r/a", false, false)).unwrap();
    assert!(matches!(&e, WatcherEvent::Delete(p) if p == "/r/a"));
    assert_eq!(e.event_type(), "delete");
    assert!(db.get_gallery_by_path("/r/a").is_none());
    assert!(reconcile_folder(&mut db, &change("/r/a", false, false)).is_none());
    assert!(reconcile_folder(&mut db, &change("/r", false, true)).is_none());
}

#[test]
fn scanner_and_watcher_keep_one_record_for_a_folder() {
    let mut db = Database::new();
    let scanned = change("/r//a/", true, true);
    assert!(scan_folder(&mut db, &scanned.folder));
    let e = reconcile_folder(&mut db, &change("/r/./a", true, true)).unwrap();
    assert_eq!(e.path(), "/r/a");
    assert_eq!(db.get_all_gallery_paths(), vec!["/r/a"]);
    assert_eq!(db.get_gallery_by_path("/r/a").unwrap().id, 1);
    let e = reconcile_folder(&mut db, &change("/r/a/", false, false)).unwrap();
    assert!(matches!(&e, WatcherEvent::Delete(p) if p == "/r/a"));
    assert!(db.get_all_gallery_paths().is_empty());
}

#[test]
fn a_write_that_the_catalog_cannot_take_is_not_announced() {
    let mut db = Database::new();
    db.reserve_ids(i64::MAX);
    assert!(reconcile_folder(&mut db, &change("/r/a", true, true)).is_none());
    assert!(db.get_all_gallery_paths().is_empty());
}

#[test]
fn a_batch_is_followed_in_order() {
    let mut db = Database::new();
    let batch = vec![
        change("/r/a", true, true),
        change("/r/b", true, false),
        change("/r/c", true, true),
        change("/r/a", false, false),
    ];
    let kinds: Vec<(String, String)> = reconcile_batch(&mut db, &batch)
        .iter()
        .map(|e| (e.event_type().to_string(), e.path().clone()))
        .collect();
    let want: Vec<(String, String)> = [("upsert", "/r/a"), ("upsert", "/r/c"), ("delete", "/r/a")]
        .iter()
        .map(|(a, b)| (a.to_string(), b.to_string()))
        .collect();
    assert_eq!(kinds, want);
    assert_eq!(db.get_all_gallery_paths(), vec!["/r/c"]);
}

#[test]
fn watcher_and_scanner_write_the_same_record() {
    let c = change("/r/a", true, true);
    let mut watched = Database::new();
    reconcile_folder(&mut watched, &c);
    let mut scanned = Database::new();
    assert!(scan_folder(&mut scanned, &c.folder));
    let a = watched.get_gallery_by_id(1).unwrap();
    let b = scanned.get_gallery_by_id(1).unwrap();
    assert_eq!(format!("{:?}", a), format!("{:?}", b));
    assert_eq!(watched.get_info_modified("/r/a"), scanned.get_info_modified("/r/a"));
}
