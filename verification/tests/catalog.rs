use manga_viewer_lib::db::{Database, DbError};
use manga_viewer_lib::models::{ParsedGallery, SearchQuery, TagFilter};

fn parsed(title: &str, url: &str, tags: &[(&str, &str)]) -> ParsedGallery {
    ParsedGallery {
        title_en: title.to_string(),
        title_jp: String::new(),
        url: url.to_string(),
        category: "Doujinshi".to_string(),
        uploader: String::new(),
        posted: String::new(),
        language: "english".to_string(),
        file_size: String::new(),
        page_count: 10,
        rating: 450,
        favorited: 0,
        tags: tags.iter().map(|(a, b)| (a.to_string(), b.to_string())).collect(),
    }
}

fn query() -> SearchQuery {
    SearchQuery {
        text: None,
        tags: Vec::new(),
        category: None,
        language: None,
        sort_by: None,
        sort_order: None,
        offset: 0,
        limit: 50,
    }
}

fn tags_of(db: &Database, id: i64) -> Vec<(String, String)> {
    db.get_tags_for_gallery(id).into_iter().map(|t| (t.namespace, t.tag)).collect()
}

fn pair(a: &str, b: &str) -> (String, String) {
    (a.to_string(), b.to_string())
}

#[test]
fn upsert_keeps_the_id_of_a_path() {
    let mut db = Database::new();
    let a = db.upsert_gallery("/r/a", &parsed("A", "", &[]), "", "1", 100).unwrap();
    let b = db.upsert_gallery("/r/b", &parsed("B", "", &[]), "", "1", 101).unwrap();
    assert_eq!((a, b), (1, 2));
    let again = db.upsert_gallery("/r/a", &parsed("A2", "", &[]), "t.jpg", "2", 102).unwrap();
    assert_eq!(again, a);
    let g = db.get_gallery_by_id(a).unwrap();
    assert_eq!(g.title_en, "A2");
    assert_eq!(g.thumb_path, "t.jpg");
    assert_eq!(g.folder_name, "a");
    assert_eq!(g.parent_path, "/r");
    assert_eq!(db.get_info_modified("/r/a"), Some("2".to_string()));
    assert_eq!(db.get_all_gallery_paths(), vec!["/r/a".to_string(), "/r/b".to_string()]);
}

#[test]
fn records_are_kept_in_range() {
    let mut db = Database::new();
    let mut p = parsed("A", "", &[]);
    p.rating = 950;
    p.page_count = -3;
    p.favorited = -1;
    let id = db.upsert_gallery("/r/a", &p, "", "1", 1).unwrap();
    let g = db.get_gallery_by_id(id).unwrap();
    assert_eq!((g.rating, g.page_count, g.favorited), (0, 0, 0));
    p.rating = 500;
    p.page_count = 7;
    p.favorited = 2;
    db.upsert_gallery("/r/a", &p, "", "2", 2).unwrap();
    let g = db.get_gallery_by_id(id).unwrap();
    assert_eq!((g.rating, g.page_count, g.favorited), (500, 7, 2));
}

#[test]
fn ids_are_not_given_twice() {
    let mut db = Database::new();
    db.upsert_gallery("/r/a", &parsed("A", "", &[]), "", "1", 1).unwrap();
    assert!(db.delete_gallery_by_path("/r/a"));
    assert!(!db.delete_gallery_by_path("/r/a"));
    let b: Result<i64, DbError> = db.upsert_gallery("/r/a", &parsed("A", "", &[]), "", "1", 2);
    assert_eq!(b, Ok(2));
}

#[test]
fn tags_are_replaced_as_a_whole() {
    let mut db = Database::new();
    let id = db
        .upsert_gallery("/r/a", &parsed("A", "", &[("b", "y"), ("a", "z"), ("b", "x"), ("a", "z")]), "", "1", 1)
        .unwrap();
    assert_eq!(tags_of(&db, id), vec![pair("a", "z"), pair("b", "x"), pair("b", "y")]);
    db.upsert_gallery("/r/a", &parsed("A", "", &[("c", "w")]), "", "2", 2).unwrap();
    assert_eq!(tags_of(&db, id), vec![pair("c", "w")]);
    assert_eq!(tags_of(&db, 77), Vec::new());
}

#[test]
fn lookups_miss_what_is_not_there() {
    let mut db = Database::new();
    db.upsert_gallery("/r/a", &parsed("A", "", &[]), "", "1", 1).unwrap();
    assert!(db.get_gallery_by_id(5).is_none());
    assert!(db.get_gallery_by_path("/r/zz").is_none());
    assert_eq!(db.get_info_modified("/r/zz"), None);
    assert_eq!(db.get_gallery_by_path("/r/a").unwrap().id, 1);
    db.update_thumb_path(1, "new.jpg");
    db.update_thumb_path(9, "other.jpg");
    assert_eq!(db.get_gallery_by_id(1).unwrap().thumb_path, "new.jpg");
}

#[test]
fn folder_listing_ignores_ascii_case() {
    let mut db = Database::new();
    for (i, name) in ["/r/b", "/r/C", "/r/a", "/other/x"].iter().enumerate() {
        db.upsert_gallery(name, &parsed(name, "", &[]), "", "1", i as u64).unwrap();
    }
    let names: Vec<String> =
        db.get_galleries_in_folder("/r").into_iter().map(|g| g.folder_name).collect();
    assert_eq!(names, vec!["a", "b", "C"]);
    assert!(db.get_galleries_in_folder("/none").is_empty());
}

#[test]
fn three_of_four_share_a_url() {
    let mut db = Database::new();
    db.upsert_gallery("/r/a", &parsed("A", "https://e-hentai.org/g/1/2", &[]), "", "1", 1).unwrap();
    db.upsert_gallery("/r/b", &parsed("B", "https://e-hentai.org/g/9/9", &[]), "", "1", 2).unwrap();
    db.upsert_gallery("/r/c", &parsed("C", "https://e-hentai.org/g/1/2", &[]), "", "1", 3).unwrap();
    db.upsert_gallery("/r/d", &parsed("D", "https://e-hentai.org/g/1/2", &[]), "", "1", 4).unwrap();
    let groups = db.find_duplicates_by_url();
    assert_eq!(groups.len(), 1);
    let paths: Vec<&str> = groups[0].iter().map(|g| g.path.as_str()).collect();
    assert_eq!(paths, vec!["/r/a", "/r/c", "/r/d"]);
}

#[test]
fn empty_urls_are_no_duplicates() {
    let mut db = Database::new();
    db.upsert_gallery("/r/a", &parsed("A", "", &[]), "", "1", 1).unwrap();
    db.upsert_gallery("/r/b", &parsed("B", "", &[]), "", "1", 2).unwrap();
    assert!(db.find_duplicates_by_url().is_empty());
}

#[test]
fn names_are_compared_without_case() {
    let mut db = Database::new();
    db.upsert_gallery("/r/Foo", &parsed("A", "", &[]), "", "1", 1).unwrap();
    db.upsert_gallery("/s/bar", &parsed("B", "", &[]), "", "1", 2).unwrap();
    db.upsert_gallery("/s/foo", &parsed("C", "", &[]), "", "1", 3).unwrap();
    let groups = db.find_duplicates_by_name();
    assert_eq!(groups.len(), 1);
    let paths: Vec<&str> = groups[0].iter().map(|g| g.path.as_str()).collect();
    assert_eq!(paths, vec!["/r/Foo", "/s/foo"]);
}

#[test]
fn pages_cut_one_order_and_the_total_counts_all() {
    let mut db = Database::new();
    for i in 0..7u64 {
        let mut p = parsed(&format!("t{}", i), "", &[]);
        p.rating = (i as u32) * 10;
        db.upsert_gallery(&format!("/r/g{}", i), &p, "", "1", 100 + i).unwrap();
    }
    let mut q = query();
    q.sort_by = Some("rating".to_string());
    q.limit = 3;
    let mut seen: Vec<u32> = Vec::new();
    for page in 0..4 {
        q.offset = page * 3;
        let r = db.search_galleries(&q, None);
        assert_eq!(r.total_count, 7);
        let expected = if page < 2 { 3 } else if page == 2 { 1 } else { 0 };
        assert_eq!(r.galleries.len(), expected);
        seen.extend(r.galleries.iter().map(|g| g.rating));
    }
    assert_eq!(seen, vec![60, 50, 40, 30, 20, 10, 0]);
    q.sort_order = Some("asc".to_string());
    q.offset = 0;
    q.limit = -1;
    let all: Vec<u32> = db.search_galleries(&q, None).galleries.iter().map(|g| g.rating).collect();
    assert_eq!(all, vec![0, 10, 20, 30, 40, 50, 60]);
    q.offset = -5;
    q.limit = 2;
    assert_eq!(db.search_galleries(&q, None).galleries.len(), 2);
}

#[test]
fn default_order_is_most_recent_first() {
    let mut db = Database::new();
    db.upsert_gallery("/r/a", &parsed("A", "", &[]), "", "1", 5).unwrap();
    db.upsert_gallery("/r/b", &parsed("B", "", &[]), "", "1", 9).unwrap();
    db.upsert_gallery("/r/c", &parsed("C", "", &[]), "", "1", 7).unwrap();
    let titles: Vec<String> =
        db.search_galleries(&query(), None).galleries.into_iter().map(|g| g.title_en).collect();
    assert_eq!(titles, vec!["B", "C", "A"]);
    let mut q = query();
    q.sort_by = Some("title".to_string());
    q.sort_order = Some("asc".to_string());
    let titles: Vec<String> =
        db.search_galleries(&q, None).galleries.into_iter().map(|g| g.title_en).collect();
    assert_eq!(titles, vec!["A", "B", "C"]);
}

#[test]
fn filters_are_conjunctive() {
    let mut db = Database::new();
    db.upsert_gallery("/r/a", &parsed("A", "", &[("artist", "jane"), ("lang", "en")]), "", "1", 1).unwrap();
    db.upsert_gallery("/r/b", &parsed("B", "", &[("artist", "jane")]), "", "1", 2).unwrap();
    let mut other = parsed("C", "", &[("artist", "jane"), ("lang", "en")]);
    other.category = "Manga".to_string();
    db.upsert_gallery("/r/c", &other, "", "1", 3).unwrap();
    let mut q = query();
    q.tags = vec![
        TagFilter { namespace: "artist".to_string(), tag: "jane".to_string() },
        TagFilter { namespace: "lang".to_string(), tag: "en".to_string() },
    ];
    let r = db.search_galleries(&q, None);
    assert_eq!(r.total_count, 2);
    q.category = Some("Manga".to_string());
    let r = db.search_galleries(&q, None);
    assert_eq!(r.total_count, 1);
    assert_eq!(r.galleries[0].title_en, "C");
    q.category = Some(String::new());
    q.language = Some("japanese".to_string());
    assert_eq!(db.search_galleries(&q, None).total_count, 0);
}

#[test]
fn text_search_goes_by_the_hits() {
    let mut db = Database::new();
    db.upsert_gallery("/r/a", &parsed("A", "", &[]), "", "1", 1).unwrap();
    db.upsert_gallery("/r/b", &parsed("B", "", &[]), "", "1", 2).unwrap();
    let mut q = query();
    q.text = Some("  b ".to_string());
    let hits = vec![2i64];
    let r = db.search_galleries(&q, Some(&hits));
    assert_eq!(r.total_count, 1);
    assert_eq!(r.galleries[0].title_en, "B");
    assert_eq!(db.search_galleries(&q, None).total_count, 0);
    q.text = Some("   ".to_string());
    assert_eq!(db.search_galleries(&q, Some(&hits)).total_count, 2);
}
