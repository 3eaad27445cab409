use manga_viewer_lib::db::Database;
use manga_viewer_lib::models::{ParsedGallery, ScanStatus};
use manga_viewer_lib::parser::parse_info_txt;
use manga_viewer_lib::scanner::{
    begin_scan, find_gallery_folders, finish_scan, get_all_images, get_file_mtime, get_first_image,
    is_image, needs_update, note_folder, scan_folder, sidecar_path, start_scan, FolderSnapshot,
    ScanComplete, ScanError, WalkEntry,
};
use std::path::Path;

fn sidecar(title: &str) -> Option<ParsedGallery> {
    parse_info_txt(&format!("{}\n\nhttps://e-hentai.org/g/1/2\nCategory: Manga\nLength: 3 pages\n", title))
}

fn folder(path: &str, marker: &str, parsed: Option<ParsedGallery>) -> FolderSnapshot {
    FolderSnapshot {
        path: path.to_string(),
        marker: marker.to_string(),
        parsed,
        thumb: String::new(),
        seen_at: 1,
    }
}

fn idle() -> ScanStatus {
    ScanStatus { is_scanning: false, scanned: 0, total: 0, current_folder: String::new() }
}

fn titles(db: &Database) -> Vec<(String, String, String)> {
    db.get_all_gallery_paths()
        .into_iter()
        .map(|p| {
            let g = db.get_gallery_by_path(&p).unwrap();
            let m = db.get_info_modified(&p).unwrap();
            (p, g.title_en, m)
        })
        .collect()
}

#[test]
fn rescanning_an_unchanged_tree_changes_nothing() {
    let mut db = Database::new();
    let mut status = idle();
    let tree = vec![
        folder("/r/a", "10", sidecar("A")),
        folder("/r/b", "11", sidecar("B")),
        folder("/r/broken", "12", None),
    ];
    let first = start_scan(&mut db, &mut status, "/r", &tree).unwrap();
    assert_eq!(first.complete, ScanComplete { total_scanned: 3, removed: 0 });
    let before = titles(&db);
    assert_eq!(before.len(), 2);
    let mut later = tree.clone();
    for f in later.iter_mut() {
        f.seen_at = 99;
    }
    for f in &later {
        let mut probe = Database::new();
        std::mem::swap(&mut probe, &mut db);
        assert!(!scan_folder(&mut probe, f));
        std::mem::swap(&mut probe, &mut db);
    }
    let second = start_scan(&mut db, &mut status, "/r", &later).unwrap();
    assert_eq!(second.complete, ScanComplete { total_scanned: 3, removed: 0 });
    assert_eq!(titles(&db), before);
    let q = manga_viewer_lib::models::SearchQuery {
        text: None,
        tags: Vec::new(),
        category: None,
        language: None,
        sort_by: None,
        sort_order: None,
        offset: 0,
        limit: 10,
    };
    assert_eq!(db.search_galleries(&q, None).total_count, 2);
}

#[test]
fn a_changed_marker_is_written_once() {
    let mut db = Database::new();
    assert!(scan_folder(&mut db, &folder("/r/a", "10", sidecar("A"))));
    assert!(!scan_folder(&mut db, &folder("/r/a", "10", sidecar("A"))));
    assert!(scan_folder(&mut db, &folder("/r/a", "11", sidecar("A"))));
    assert!(!scan_folder(&mut db, &folder("/r/a", "11", sidecar("A"))));
    assert_eq!(db.get_info_modified("/r/a"), Some("11".to_string()));
    assert_eq!(db.get_gallery_by_path("/r/a").unwrap().id, 1);
}

#[test]
fn an_unreadable_sidecar_keeps_the_record() {
    let mut db = Database::new();
    assert!(scan_folder(&mut db, &folder("/r/a", "10", sidecar("A"))));
    assert!(!scan_folder(&mut db, &folder("/r/a", "11", None)));
    assert_eq!(db.get_gallery_by_path("/r/a").unwrap().title_en, "A");
    assert_eq!(db.get_info_modified("/r/a"), Some("10".to_string()));
    assert!(!scan_folder(&mut db, &folder("/r/new", "1", None)));
    assert!(db.get_gallery_by_path("/r/new").is_none());
}

#[test]
fn a_folder_that_has_gone_is_swept() {
    let mut db = Database::new();
    let mut status = idle();
    let tree = vec![
        folder("/r/a", "1", sidecar("A")),
        folder("/r/b", "1", sidecar("B")),
        folder("/r/c", "1", sidecar("C")),
    ];
    start_scan(&mut db, &mut status, "/r", &tree).unwrap();
    let other = vec![folder("/other/x", "1", sidecar("X")), folder("/r2/y", "1", sidecar("Y"))];
    start_scan(&mut db, &mut status, "/other", &other).unwrap();
    assert_eq!(db.get_all_gallery_paths(), vec!["/r/a", "/r/b", "/r/c", "/other/x", "/r2/y"]);
    let swept = start_scan(&mut db, &mut status, "/other", &other[..1].to_vec()).unwrap();
    assert_eq!(swept.complete.removed, 0);
    let fewer = vec![tree[0].clone(), tree[2].clone()];
    let out = start_scan(&mut db, &mut status, "/r", &fewer).unwrap();
    assert_eq!(out.complete, ScanComplete { total_scanned: 2, removed: 1 });
    assert_eq!(db.get_all_gallery_paths(), vec!["/r/a", "/r/c", "/other/x", "/r2/y"]);
    assert_eq!(db.get_gallery_by_path("/r/c").unwrap().id, 3);
}

#[test]
fn a_sibling_root_with_a_longer_name_is_not_swept() {
    let mut db = Database::new();
    let mut status = idle();
    start_scan(&mut db, &mut status, "/a/root2", &vec![folder("/a/root2/g", "1", sidecar("G"))]).unwrap();
    let out = start_scan(&mut db, &mut status, "/a/root", &Vec::new()).unwrap();
    assert_eq!(out.complete.removed, 0);
    assert_eq!(db.get_all_gallery_paths(), vec!["/a/root2/g"]);
    let out = start_scan(&mut db, &mut status, "/a/root2", &Vec::new()).unwrap();
    assert_eq!(out.complete.removed, 1);
}

#[test]
fn records_and_notices_go_by_the_normalized_path() {
    let mut db = Database::new();
    let mut status = idle();
    let out = start_scan(&mut db, &mut status, "/r", &vec![folder("/r//a/", "1", sidecar("A"))]).unwrap();
    assert_eq!(out.progress[1].current_folder, "/r/a");
    assert_eq!(db.get_all_gallery_paths(), vec!["/r/a"]);
    let out = start_scan(&mut db, &mut status, "/r", &vec![folder("/r/a", "1", sidecar("A"))]).unwrap();
    assert_eq!(out.complete.removed, 0);
    assert_eq!(db.get_gallery_by_path("/r/a").unwrap().id, 1);
}

#[test]
fn a_second_scan_is_turned_away() {
    let mut db = Database::new();
    let mut status = idle();
    status.is_scanning = true;
    status.scanned = 4;
    let r = start_scan(&mut db, &mut status, "/r", &vec![folder("/r/a", "1", sidecar("A"))]);
    assert_eq!(r.err(), Some(ScanError::AlreadyRunning));
    assert!(db.get_all_gallery_paths().is_empty());
    assert!(status.is_scanning);
    assert_eq!(status.scanned, 4);
    assert!(matches!(begin_scan(&mut status, 9), Err(ScanError::AlreadyRunning)));
}

#[test]
fn progress_is_given_for_each_folder() {
    let mut db = Database::new();
    let mut status = idle();
    let tree = vec![folder("/r/a", "1", sidecar("A")), folder("/r/b", "1", None)];
    let out = start_scan(&mut db, &mut status, "/r", &tree).unwrap();
    let notices: Vec<(i64, i64, &str)> =
        out.progress.iter().map(|p| (p.scanned, p.total, p.current_folder.as_str())).collect();
    assert_eq!(notices, vec![(0, 2, ""), (1, 2, "/r/a"), (2, 2, "/r/b")]);
    assert!(!status.is_scanning);
    assert_eq!((status.scanned, status.total), (2, 2));
    assert_eq!(status.current_folder, "/r/b");
}

#[test]
fn status_steps() {
    let mut status = idle();
    let first = begin_scan(&mut status, 3).unwrap();
    assert_eq!((first.scanned, first.total), (0, 3));
    assert!(status.is_scanning);
    let p = note_folder(&mut status, "/r/a");
    assert_eq!((p.scanned, p.total, p.current_folder.as_str()), (1, 3, "/r/a"));
    status.scanned = i64::MAX;
    assert_eq!(note_folder(&mut status, "/r/b").scanned, i64::MAX);
    let done = finish_scan(&mut status, 2);
    assert_eq!(done, ScanComplete { total_scanned: 3, removed: 2 });
    assert!(!status.is_scanning);
}

#[test]
fn staleness_goes_by_the_marker_alone() {
    assert!(needs_update(&None, "5"));
    assert!(needs_update(&Some("4".to_string()), "5"));
    assert!(!needs_update(&Some("5".to_string()), "5"));
    assert!(needs_update(&Some("5".to_string()), ""));
}

#[test]
fn gallery_folders_are_directories_with_a_sidecar() {
    let e = |p: &str, d: bool, s: bool| WalkEntry { path: p.to_string(), is_dir: d, has_sidecar: s };
    let entries = vec![e("/r", true, false), e("/r/b", true, true), e("/r/b/info.txt", false, false), e("/r/a", true, true)];
    assert_eq!(find_gallery_folders(&entries), vec!["/r/b", "/r/a"]);
    assert_eq!(Path::new(&sidecar_path("/r/b")), Path::new("/r/b").join("info.txt"));
}

#[test]
fn images_go_by_their_extension() {
    for name in ["a.jpg", "a.JPEG", "a.Png", "a.gif", "a.webp", "a.bmp", "a.AVIF"] {
        assert!(is_image(name), "{}", name);
    }
    for name in ["a.txt", "jpg", "a.jpg.bak", "a", ".png"] {
        assert!(!is_image(name), "{}", name);
    }
    let files: Vec<String> =
        ["/g/10.jpg", "/g/info.txt", "/g/2.PNG", "/g/1.gif"].iter().map(|s| s.to_string()).collect();
    assert_eq!(get_all_images(&files), vec!["/g/1.gif", "/g/2.PNG", "/g/10.jpg"]);
    assert_eq!(get_first_image(&files), Some("/g/1.gif".to_string()));
    assert_eq!(get_first_image(&vec!["/g/info.txt".to_string()]), None);
}

#[test]
fn a_listing_does_not_depend_on_how_the_directory_was_read() {
    let one: Vec<String> = ["/g/1.jpg", "/g/01.jpg", "/g/a.txt", "/g/001.PNG"].iter().map(|s| s.to_string()).collect();
    let other: Vec<String> = ["/g/001.PNG", "/g/a.txt", "/g/01.jpg", "/g/1.jpg"].iter().map(|s| s.to_string()).collect();
    assert_eq!(get_all_images(&one), vec!["/g/01.jpg", "/g/1.jpg", "/g/001.PNG"]);
    assert_eq!(get_all_images(&one), get_all_images(&other));
    assert_eq!(get_first_image(&one), get_first_image(&other));
}

#[test]
fn marker_is_the_time_in_seconds() {
    assert_eq!(get_file_mtime(Some(1700000000)), "1700000000");
    assert_eq!(get_file_mtime(Some(0)), "0");
    assert_eq!(get_file_mtime(Some(u64::MAX)), "18446744073709551615");
    assert_eq!(get_file_mtime(None), "");
}
