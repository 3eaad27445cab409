use manga_viewer_lib::fetcher::FetchError;
use manga_viewer_lib::page::{
    apply_row, build_gallery, parse_gallery_html, rating_from, read_rows, read_tags, PageFields,
    TableRow,
};
use manga_viewer_lib::query::{fts_query, text_search_sql};

fn page() -> String {
    let filler = "<!-- pad -->".repeat(100);
    format!(
        "<html><body>{}<h1 id=\"gn\"> English Title </h1><h1 id=\"gj\">日本語</h1>\
         <table><tr><td class=\"gdt1\">Posted:</td><td class=\"gdt2\">2020-01-02 03:04</td></tr>\
         <tr><td class=\"gdt1\">Language:</td><td class=\"gdt2\">Japanese &nbsp;TR</td></tr>\
         <tr><td class=\"gdt1\">File Size:</td><td class=\"gdt2\">12.3 MiB</td></tr>\
         <tr><td class=\"gdt1\">Length:</td><td class=\"gdt2\">28 pages</td></tr>\
         <tr><td class=\"gdt1\">Favorited:</td><td class=\"gdt2\">1234 times</td></tr>\
         <tr><td class=\"gdt1\">Uploader:</td><td class=\"gdt2\"><a>someone</a></td></tr>\
         <tr><td class=\"gdt1\">Category:</td><td class=\"gdt2\">Doujinshi</td></tr></table>\
         <span id=\"rating_label\">Average: 4.53</span>\
         <div id=\"taglist\"><table><tr><td>artist:</td><td><div><a>jane</a></div><div><a> doe </a></div></td></tr>\
         <tr><td>female:</td><td><div><a>x y</a></div><div><a> </a></div></td></tr>\
         <tr><td>lonely</td></tr></table></div></body></html>",
        filler
    )
}

fn pairs(v: &[(&str, &str)]) -> Vec<(String, String)> {
    v.iter().map(|(a, b)| (a.to_string(), b.to_string())).collect()
}

#[test]
fn a_gallery_page_is_read() {
    let g = parse_gallery_html(&page(), "https://e-hentai.org/g/1/2").unwrap();
    assert_eq!(g.title_en, "English Title");
    assert_eq!(g.title_jp, "日本語");
    assert_eq!(g.url, "https://e-hentai.org/g/1/2");
    assert_eq!(g.category, "Doujinshi");
    assert_eq!(g.uploader, "someone");
    assert_eq!(g.posted, "2020-01-02 03:04");
    assert_eq!(g.language, "Japanese");
    assert_eq!(g.file_size, "12.3 MiB");
    assert_eq!((g.page_count, g.favorited, g.rating), (28, 1234, 453));
    assert_eq!(g.tags, pairs(&[("artist", "jane"), ("artist", "doe"), ("female", "x y")]));
}

#[test]
fn a_short_page_without_a_title_mark_is_blocked() {
    assert!(matches!(parse_gallery_html("<html>sad</html>", "u"), Err(FetchError::Blocked)));
    assert!(matches!(parse_gallery_html("", "u"), Err(FetchError::Blocked)));
}

#[test]
fn a_page_without_titles_is_a_failure() {
    let long = format!("<html><body>{}</body></html>", "<p>x</p>".repeat(200));
    assert!(matches!(parse_gallery_html(&long, "u"), Err(FetchError::NoTitles)));
    assert!(matches!(parse_gallery_html("<p>gn</p>", "u"), Err(FetchError::NoTitles)));
    let only_jp = "<p>gn</p><h1 id=\"gj\">題</h1>";
    assert_eq!(parse_gallery_html(only_jp, "u").unwrap().title_jp, "題");
}

fn empty_fields() -> PageFields {
    PageFields {
        category: String::new(),
        uploader: String::new(),
        posted: String::new(),
        language: String::new(),
        file_size: String::new(),
        page_count: 0,
        favorited: 0,
    }
}

#[test]
fn rows_set_their_fields() {
    let mut f = empty_fields();
    let some = |s: &str| Some(s.to_string());
    apply_row(&mut f, "Category:", "Manga", &None, &None);
    apply_row(&mut f, "Language:", "English  TR", &None, &None);
    apply_row(&mut f, "Length:", "12 pages", &some("12"), &None);
    apply_row(&mut f, "Length:", "many", &None, &None);
    apply_row(&mut f, "Favorited:", "7 times", &None, &some("7"));
    apply_row(&mut f, "Favorited:", "x", &None, &some("99999999999999999999"));
    apply_row(&mut f, "Unknown:", "v", &some("1"), &some("2"));
    assert_eq!(f.category, "Manga");
    assert_eq!(f.language, "English");
    assert_eq!((f.page_count, f.favorited), (12, 0));
    apply_row(&mut f, "Language:", "", &None, &None);
    assert_eq!(f.language, "");
}

#[test]
fn rows_pair_labels_with_values() {
    let labels: Vec<String> = [" Length: ", "Favorited:", "Posted:"].iter().map(|s| s.to_string()).collect();
    let values: Vec<String> = [" 3 page ", "Once"].iter().map(|s| s.to_string()).collect();
    let f = read_rows(&labels, &values);
    assert_eq!((f.page_count, f.favorited), (3, 0));
    assert_eq!(f.posted, "");
}

#[test]
fn tag_rows_need_two_cells() {
    let row = |cells: &[&str], links: &[&str]| TableRow {
        cells: cells.iter().map(|s| s.to_string()).collect(),
        links: links.iter().map(|s| s.to_string()).collect(),
    };
    let table = vec![
        row(&[" artist:: ", "x"], &["a", "  ", " b "]),
        row(&["solo"], &["c"]),
        row(&["misc", ""], &[]),
        row(&[":", "y"], &["d"]),
    ];
    assert_eq!(read_tags(&table), pairs(&[("artist", "a"), ("artist", "b"), ("", "d")]));
}

#[test]
fn ratings_are_read_from_the_label() {
    assert_eq!(rating_from(&Some("4.53".to_string())), 453);
    assert_eq!(rating_from(&Some("4.5.3".to_string())), 0);
    assert_eq!(rating_from(&Some("5".to_string())), 500);
    assert_eq!(rating_from(&None), 0);
}

#[test]
fn building_checks_blocking_before_titles() {
    let r = build_gallery(10, false, String::new(), String::new(), empty_fields(), 0, Vec::new(), "u");
    assert!(matches!(r, Err(FetchError::Blocked)));
    let r = build_gallery(10, true, String::new(), String::new(), empty_fields(), 0, Vec::new(), "u");
    assert!(matches!(r, Err(FetchError::NoTitles)));
    let r = build_gallery(1000, false, "T".to_string(), String::new(), empty_fields(), 7, Vec::new(), "u");
    let g = r.unwrap();
    assert_eq!((g.title_en.as_str(), g.rating, g.url.as_str()), ("T", 7, "u"));
}

#[test]
fn words_become_quoted_phrases() {
    assert_eq!(fts_query("foo bar"), Some("\"foo\" \"bar\"".to_string()));
    assert_eq!(fts_query("  say \"hi\"\tnow\n"), Some("\"say\" \"\"\"hi\"\"\" \"now\"".to_string()));
    assert_eq!(fts_query("   "), None);
    assert_eq!(fts_query(""), None);
}

#[test]
fn the_statement_holds_the_query_as_a_literal() {
    assert_eq!(
        text_search_sql("it's"),
        Some("SELECT rowid FROM galleries_fts WHERE galleries_fts MATCH '\"it''s\"'".to_string())
    );
    assert_eq!(
        text_search_sql("a' OR 1=1 --"),
        Some("SELECT rowid FROM galleries_fts WHERE galleries_fts MATCH '\"a''\" \"OR\" \"1=1\" \"--\"'".to_string())
    );
    assert_eq!(text_search_sql(" \t "), None);
}
