use base64::Engine;
use manga_viewer_lib::commands::{
    clear_cache, delete_gallery, folder_removal_failure, get_asset_url, get_cookie_status,
    get_duplicate_galleries, get_folder_children, get_gallery, get_gallery_pages, get_root_paths,
    get_scan_status, read_thumb, refresh_gallery, refresh_target, remove_root_path, set_root_path,
    urlencoding, DirEntry, RefreshError,
};
use manga_viewer_lib::db::Database;
use manga_viewer_lib::fetcher::{cookie_header, load_cookies, write_info_txt, FetchError};
use manga_viewer_lib::models::{AppSettings, ParsedGallery, ScanStatus};
use manga_viewer_lib::parser::parse_info_txt;
use manga_viewer_lib::paths::normalize_path;
use std::path::Path;

fn info(title: &str, url: &str) -> ParsedGallery {
    ParsedGallery {
        title_en: title.to_string(),
        title_jp: "フー".to_string(),
        url: url.to_string(),
        category: "Doujinshi".to_string(),
        uploader: "up".to_string(),
        posted: "2020-01-02 03:04".to_string(),
        language: "Japanese".to_string(),
        file_size: "12.3 MiB".to_string(),
        page_count: 5,
        rating: 450,
        favorited: 50,
        tags: vec![
            ("artist".to_string(), "jane".to_string()),
            ("female".to_string(), "x y".to_string()),
            ("artist".to_string(), "doe".to_string()),
        ],
    }
}

#[test]
fn addresses_are_escaped() {
    assert_eq!(urlencoding("abc/DEF-1_2.3:x"), "abc/DEF-1_2.3:x");
    assert_eq!(urlencoding("a b"), "a%20b");
    assert_eq!(urlencoding("a%b?c"), "a%25b%3Fc");
    assert_eq!(urlencoding("フ"), "%E3%83%95");
    assert_eq!(urlencoding(""), "");
    assert_eq!(get_asset_url("C:\\g\\a b.jpg"), "asset://localhost/C:/g/a%20b.jpg");
}

#[test]
fn paths_are_normalized() {
    assert_eq!(normalize_path("/r//a/./b/"), Path::new("/r/a/b").to_string_lossy());
    assert_eq!(normalize_path("/r/a"), "/r/a");
}

#[test]
fn thumbnails_become_data_addresses() {
    let data = [1u8, 2, 3, 250];
    let b64 = base64::engine::general_purpose::STANDARD.encode(data);
    assert_eq!(read_thumb("/c/x.png", &data), Some(format!("data:image/png;base64,{}", b64)));
    assert_eq!(read_thumb("/c/x.webp", &data), Some(format!("data:image/webp;base64,{}", b64)));
    assert_eq!(read_thumb("/c/x.jpg", &data), Some(format!("data:image/jpeg;base64,{}", b64)));
    assert_eq!(read_thumb("png", &[]), Some("data:image/jpeg;base64,".to_string()));
    assert_eq!(read_thumb("x.png", b"hello"), Some("data:image/png;base64,aGVsbG8=".to_string()));
}

#[test]
fn children_are_split_and_sorted() {
    let mut db = Database::new();
    db.upsert_gallery("/r/Beta", &info("Known", ""), "t.jpg", "1", 1).unwrap();
    let e = |p: &str, d: bool, s: bool, c: bool| DirEntry {
        path: p.to_string(),
        is_dir: d,
        has_sidecar: s,
        has_children: c,
    };
    let entries = vec![
        e("/r/zeta", true, false, true),
        e("/r/file.txt", false, false, false),
        e("/r/.hidden", true, true, false),
        e("/r/Beta", true, true, false),
        e("/r/alpha", true, true, false),
        e("/r/Alpha2", true, false, false),
    ];
    let r = get_folder_children(&db, &entries);
    let folders: Vec<(&str, &str, bool)> =
        r.subfolders.iter().map(|n| (n.name.as_str(), n.path.as_str(), n.has_children)).collect();
    assert_eq!(folders, vec![("Alpha2", "/r/Alpha2", false), ("zeta", "/r/zeta", true)]);
    let galleries: Vec<(i64, &str, &str, &str)> = r
        .galleries
        .iter()
        .map(|g| (g.id, g.title_en.as_str(), g.folder_name.as_str(), g.path.as_str()))
        .collect();
    assert_eq!(galleries, vec![(0, "alpha", "alpha", "/r/alpha"), (1, "Known", "Beta", "/r/Beta")]);
    let none = get_folder_children(&db, &Vec::new());
    assert!(none.subfolders.is_empty() && none.galleries.is_empty());
}

#[test]
fn a_gallery_comes_with_its_tags() {
    let mut db = Database::new();
    let id = db.upsert_gallery("/r/a", &info("A", ""), "", "1", 1).unwrap();
    let d = get_gallery(&db, id).unwrap();
    assert_eq!(d.gallery.path, "/r/a");
    let tags: Vec<(&str, &str)> = d.tags.iter().map(|t| (t.namespace.as_str(), t.tag.as_str())).collect();
    assert_eq!(tags, vec![("artist", "doe"), ("artist", "jane"), ("female", "x y")]);
    assert!(get_gallery(&db, 99).is_none());
}

#[test]
fn pages_are_numbered_in_natural_order() {
    let files: Vec<String> =
        ["/g/page10.jpg", "/g/info.txt", "/g/page2.jpg", "/g/page1.jpg"].iter().map(|s| s.to_string()).collect();
    let pages: Vec<(String, String, usize)> =
        get_gallery_pages(&files).into_iter().map(|p| (p.filename, p.path, p.index)).collect();
    let want: Vec<(String, String, usize)> = [("page1.jpg", "/g/page1.jpg", 0), ("page2.jpg", "/g/page2.jpg", 1), ("page10.jpg", "/g/page10.jpg", 2)]
        .iter()
        .map(|(a, b, c)| (a.to_string(), b.to_string(), *c))
        .collect();
    assert_eq!(pages, want);
}

#[test]
fn duplicates_are_reported_both_ways() {
    let mut db = Database::new();
    db.upsert_gallery("/r/a", &info("A", "u1"), "", "1", 1).unwrap();
    db.upsert_gallery("/s/A", &info("B", "u1"), "", "1", 2).unwrap();
    db.upsert_gallery("/s/c", &info("C", "u2"), "", "1", 3).unwrap();
    let mut settings = AppSettings::default();
    let r = get_duplicate_galleries(&db, &settings);
    assert_eq!(r.by_url.len(), 1);
    assert_eq!(r.by_url[0].len(), 2);
    assert_eq!(r.by_name.len(), 1);
    assert_eq!(r.by_name[0].len(), 2);
    settings.duplicates_by_name = false;
    let r = get_duplicate_galleries(&db, &settings);
    assert_eq!(r.by_url.len(), 1);
    assert!(r.by_name.is_empty());
}

#[test]
fn roots_are_kept_once() {
    let mut s = AppSettings::default();
    assert_eq!(s.thumbnail_width, 300);
    assert!(s.watcher_enabled && s.root_paths.is_empty());
    set_root_path(&mut s, "/r");
    set_root_path(&mut s, "/s");
    set_root_path(&mut s, "/r");
    assert_eq!(get_root_paths(&s), vec!["/r", "/s"]);
    remove_root_path(&mut s, "/r");
    remove_root_path(&mut s, "/zz");
    assert_eq!(get_root_paths(&s), vec!["/s"]);
}

#[test]
fn cookie_file_is_looked_for_in_turn() {
    let mut s = AppSettings::default();
    assert_eq!(get_cookie_status(&s, None), "cookie.txt");
    assert_eq!(Path::new(&get_cookie_status(&s, Some("/data"))), Path::new("/data").join("cookie.txt"));
    s.cookie_path = "/my/cookies.txt".to_string();
    assert_eq!(get_cookie_status(&s, Some("/data")), "/my/cookies.txt");
}

#[test]
fn status_and_cache() {
    let st = ScanStatus { is_scanning: true, scanned: 2, total: 5, current_folder: "/r/a".to_string() };
    let copy = get_scan_status(&st);
    assert_eq!((copy.is_scanning, copy.scanned, copy.total, copy.current_folder.as_str()), (true, 2, 5, "/r/a"));
    let c = clear_cache();
    assert_eq!((c.removed, c.freed_bytes), (0, 0));
}

#[test]
fn deleting_says_what_is_left_on_disk() {
    let mut db = Database::new();
    let a = db.upsert_gallery("/r/a", &info("A", ""), "/c/t.jpg", "1", 1).unwrap();
    let b = db.upsert_gallery("/r/b", &info("B", ""), "", "1", 2).unwrap();
    let r = delete_gallery(&mut db, a).unwrap();
    assert_eq!((r.folder.as_str(), r.thumb.as_deref()), ("/r/a", Some("/c/t.jpg")));
    let r = delete_gallery(&mut db, b).unwrap();
    assert_eq!((r.folder.as_str(), r.thumb), ("/r/b", None));
    assert!(delete_gallery(&mut db, a).is_none());
    assert!(db.get_all_gallery_paths().is_empty());
    assert_eq!(
        folder_removal_failure("denied"),
        "DB entry removed but failed to delete folder: denied"
    );
}

#[test]
fn sidecar_text_is_written_in_order() {
    let text = write_info_txt(&info("Foo", "https://e-hentai.org/g/1/2"));
    let want = "Foo\nフー\nhttps://e-hentai.org/g/1/2\nCategory: Doujinshi\nUploader: up\nPosted: 2020-01-02 03:04\nLanguage: Japanese\nFile Size: 12.3 MiB\nLength: 5 pages\nRating: 4.50\nFavorited: 50 times\nTags:\n> artist: jane\n> female: x y\n> artist: doe\n";
    assert_eq!(text, want);
    let mut bare = info("T", "");
    bare.category.clear();
    bare.uploader.clear();
    bare.posted.clear();
    bare.language.clear();
    bare.file_size.clear();
    bare.page_count = 0;
    bare.favorited = -1;
    bare.rating = 7;
    bare.tags.clear();
    assert_eq!(write_info_txt(&bare), "T\nフー\n\nRating: 0.07\nTags:\n");
    bare.rating = 12345;
    assert_eq!(write_info_txt(&bare), "T\nフー\n\nRating: 123.45\nTags:\n");
}

#[test]
fn what_is_written_is_read_back() {
    let written = info("Foo", "https://exhentai.org/g/1/2");
    let back = parse_info_txt(&write_info_txt(&written)).unwrap();
    assert_eq!(back.tags, written.tags);
    assert_eq!(back.title_en, written.title_en);
    assert_eq!(back.title_jp, written.title_jp);
    assert_eq!(back.url, written.url);
    assert_eq!(back.category, written.category);
    assert_eq!(back.uploader, written.uploader);
    assert_eq!(back.posted, written.posted);
    assert_eq!(back.language, written.language);
    assert_eq!(back.file_size, written.file_size);
    assert_eq!((back.page_count, back.rating, back.favorited), (5, 450, 50));
}

#[test]
fn tags_of_one_namespace_share_a_line() {
    let mut g = info("T", "");
    g.tags = [("artist", "jane"), ("artist", "doe"), ("female", "x y"), ("", "bare"), ("artist", "late")]
        .iter()
        .map(|(a, b)| (a.to_string(), b.to_string()))
        .collect();
    let text = write_info_txt(&g);
    assert!(text.ends_with("Tags:\n> artist: jane, doe\n> female: x y\n> : bare\n> artist: late\n"));
    assert_eq!(parse_info_txt(&text).unwrap().tags, g.tags);
}

#[test]
fn a_record_with_titles_address_and_rating_is_read_back() {
    let mut bare = info("Only", "https://e-hentai.org/g/7/8");
    bare.title_jp.clear();
    bare.category.clear();
    bare.uploader.clear();
    bare.posted.clear();
    bare.language.clear();
    bare.file_size.clear();
    bare.page_count = 0;
    bare.favorited = 0;
    bare.rating = 500;
    bare.tags.clear();
    let text = write_info_txt(&bare);
    assert_eq!(text.lines().count(), 5);
    let back = parse_info_txt(&text).unwrap();
    assert_eq!(format!("{:?}", back), format!("{:?}", bare));
    bare.rating = 0;
    bare.url.clear();
    bare.title_en.clear();
    let back = parse_info_txt(&write_info_txt(&bare)).unwrap();
    assert_eq!(format!("{:?}", back), format!("{:?}", bare));
}

#[test]
fn cookies_are_read_from_a_cookie_file() {
    let file = "# Netscape HTTP Cookie File\n\n.e-hentai.org\tTRUE\t/\tFALSE\t0\tipb_member_id\t123\nshort\tline\n.e-hentai.org\tTRUE\t/\tFALSE\t0\tipb_pass_hash\tabc\n.e-hentai.org\tTRUE\t/\tFALSE\t0\tipb_member_id\t456\n";
    let cookies = load_cookies(file).unwrap();
    let want: Vec<(String, String)> = [("ipb_member_id", "456"), ("ipb_pass_hash", "abc")]
        .iter()
        .map(|(a, b)| (a.to_string(), b.to_string()))
        .collect();
    assert_eq!(cookies, want);
    assert_eq!(cookie_header(&cookies), "ipb_member_id=456; ipb_pass_hash=abc");
    assert!(matches!(load_cookies("# nothing\n\n"), Err(FetchError::NoCookies)));
    assert!(matches!(load_cookies(""), Err(FetchError::NoCookies)));
}

#[test]
fn failures_have_their_words() {
    assert_eq!(FetchError::NoCookies.message(), "No cookies found in cookie file");
    assert_eq!(FetchError::CookieFile("gone".to_string()).message(), "Failed to read cookie file: gone");
    assert_eq!(FetchError::Request("timeout".to_string()).message(), "HTTP request failed: timeout");
    assert_eq!(FetchError::Status("404 Not Found".to_string()).message(), "HTTP 404 Not Found");
    assert_eq!(FetchError::Body("eof".to_string()).message(), "Failed to read response body: eof");
    assert_eq!(FetchError::Blocked.message(), "Received sad panda or empty page — check cookies");
    assert_eq!(FetchError::NoTitles.message(), "Failed to parse gallery page — no titles found");
    assert_eq!(RefreshError::NotFound.message(), "[refresh] Gallery not found");
    assert_eq!(RefreshError::NoUrl.message(), "Gallery has no URL to refresh from");
    assert_eq!(
        RefreshError::CookieMissing("/c.txt".to_string()).message(),
        "Cookie file not found at: /c.txt. Use Settings to select your cookie file."
    );
    assert_eq!(
        RefreshError::Fetch(FetchError::NoTitles).message(),
        "[refresh] Fetch failed: Failed to parse gallery page — no titles found"
    );
    assert_eq!(RefreshError::Write("full".to_string()).message(), "[refresh] Write info.txt failed: full");
    assert_eq!(RefreshError::Reparse.message(), "[refresh] Failed to re-parse updated info.txt");
}

#[test]
fn refreshing_fails_where_the_catalog_is_full() {
    let mut db = Database::new();
    let id = db.upsert_gallery("/r/a", &info("Old", "u"), "", "1", 1).unwrap();
    let g = refresh_target(&db, id).unwrap();
    assert!(delete_gallery(&mut db, id).is_some());
    db.reserve_ids(i64::MAX);
    let content = write_info_txt(&info("New", "u"));
    let r = refresh_gallery(&mut db, &g, &content, None, "2", 5);
    assert!(matches!(r, Err(RefreshError::Store(manga_viewer_lib::db::DbError::IdsExhausted))));
    assert_eq!(r.unwrap_err().message(), "no id is left for a new gallery");
    assert!(db.get_all_gallery_paths().is_empty());
}

#[test]
fn refreshing_goes_through_the_sidecar() {
    let mut db = Database::new();
    let id = db.upsert_gallery("/r/a", &info("Old", "https://e-hentai.org/g/1/2"), "old.jpg", "1", 1).unwrap();
    let plain = db.upsert_gallery("/r/b", &info("B", ""), "", "1", 1).unwrap();
    assert!(matches!(refresh_target(&db, 99), Err(RefreshError::NotFound)));
    assert!(matches!(refresh_target(&db, plain), Err(RefreshError::NoUrl)));
    let g = refresh_target(&db, id).unwrap();
    assert_eq!(g.title_en, "Old");
    let content = write_info_txt(&info("New", "https://e-hentai.org/g/1/2"));
    assert!(refresh_gallery(&mut db, &g, &content, None, "2", 5).is_ok());
    let now = db.get_gallery_by_id(id).unwrap();
    assert_eq!((now.title_en.as_str(), now.thumb_path.as_str()), ("New", "old.jpg"));
    assert!(refresh_gallery(&mut db, &g, &content, Some("new.jpg".to_string()), "3", 6).is_ok());
    assert_eq!(db.get_gallery_by_id(id).unwrap().thumb_path, "new.jpg");
    assert!(matches!(refresh_gallery(&mut db, &g, "too\nshort", None, "4", 7), Err(RefreshError::Reparse)));
    assert_eq!(db.get_info_modified("/r/a"), Some("3".to_string()));
}
