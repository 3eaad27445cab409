use manga_viewer_lib::parser::parse_info_txt;

fn pair(ns: &str, tag: &str) -> (String, String) {
    (ns.to_string(), tag.to_string())
}

#[test]
fn parses_the_documented_example() {
    let content = "Foo\nフー\nhttps://e-hentai.org/g/1/2\nCategory: Doujinshi\nLength: 5 pages\nRating: 4.50\nTags:\n> artist: jane, doe";
    let p = parse_info_txt(content).unwrap();
    assert_eq!(p.title_en, "Foo");
    assert_eq!(p.title_jp, "フー");
    assert_eq!(p.url, "https://e-hentai.org/g/1/2");
    assert_eq!(p.category, "Doujinshi");
    assert_eq!(p.page_count, 5);
    assert_eq!(p.rating, 450);
    assert_eq!(f64::from(p.rating) / 100.0, 4.5);
    assert_eq!(p.tags, vec![pair("artist", "jane"), pair("artist", "doe")]);
    assert_eq!(p.uploader, "");
    assert_eq!(p.favorited, 0);
}

#[test]
fn fewer_than_five_lines_give_nothing() {
    assert!(parse_info_txt("").is_none());
    assert!(parse_info_txt("a\nb\nc\nd").is_none());
    assert!(parse_info_txt("a\nb\nc\nd\n").is_none());
    assert!(parse_info_txt("a\nb\nc\nd\ne").is_some());
}

fn tags(p: &manga_viewer_lib::models::ParsedGallery) -> Vec<(&str, &str)> {
    p.tags.iter().map(|(a, b)| (a.as_str(), b.as_str())).collect()
}

#[test]
fn titles_are_trimmed_and_the_second_may_be_empty() {
    let p = parse_info_txt("  Foo  \n\nx\ny\nz").unwrap();
    assert_eq!(p.title_en, "Foo");
    assert_eq!(p.title_jp, "");
    assert_eq!(p.url, "");
    assert_eq!((p.page_count, p.rating, p.favorited), (0, 0, 0));
    assert!(p.tags.is_empty());
}

#[test]
fn carriage_returns_end_lines_too() {
    let p = parse_info_txt("A\r\nB\r\nhttps://exhentai.org/g/3/4/\r\nCategory: Manga\r\nUploader: u\r\n").unwrap();
    assert_eq!(p.title_jp, "B");
    assert_eq!(p.url, "https://exhentai.org/g/3/4/");
    assert_eq!(p.category, "Manga");
    assert_eq!(p.uploader, "u");
}

#[test]
fn the_address_is_sought_in_the_first_five_lines() {
    let p = parse_info_txt("a\nb\nc\nd\nhttps://e-hentai.org/g/1/2  \nhttps://exhentai.org/g/9/9").unwrap();
    assert_eq!(p.url, "https://e-hentai.org/g/1/2");
    let p = parse_info_txt("a\nb\nc\nd\ne\nhttps://exhentai.org/g/9/9").unwrap();
    assert_eq!(p.url, "");
    let p = parse_info_txt("a\nb\n https://e-hentai.org/g/1/2\nd\ne").unwrap();
    assert_eq!(p.url, "");
    let p = parse_info_txt("https://exhentai.org/x\nhttps://e-hentai.org/y\nc\nd\ne").unwrap();
    assert_eq!(p.url, "https://exhentai.org/x");
    assert_eq!(p.title_en, "https://exhentai.org/x");
}

#[test]
fn labels_on_the_title_lines_are_titles() {
    let p = parse_info_txt("Category: A\nb\nc\nd\ne").unwrap();
    assert_eq!(p.title_en, "Category: A");
    assert_eq!(p.title_jp, "b");
    assert_eq!(p.category, "");
    let p = parse_info_txt("a\nRating: 4.00\nLength: 3 pages\nd\ne").unwrap();
    assert_eq!(p.title_jp, "Rating: 4.00");
    assert_eq!((p.rating, p.page_count), (0, 3));
    let p = parse_info_txt("Tags:\n> a: b\n> c: d\nx\ny").unwrap();
    assert!(p.tags.is_empty());
}

#[test]
fn fields_are_read_wherever_they_stand() {
    let p = parse_info_txt(
        "Title\nx\nPosted:  2020-01-01 \nLanguage: English\nFile Size: 1 MiB\nCategory: First\nCategory: Second\nFavorited: 50 times\nUnknown: x\nCategory:\n",
    )
    .unwrap();
    assert_eq!(p.title_en, "Title");
    assert_eq!(p.category, "Second");
    assert_eq!(p.posted, "2020-01-01");
    assert_eq!(p.language, "English");
    assert_eq!(p.file_size, "1 MiB");
    assert_eq!(p.favorited, 50);
}

#[test]
fn numbers_that_cannot_be_read_are_zero() {
    let n = |line: &str| parse_info_txt(&format!("a\nb\nc\nd\n{}", line)).unwrap();
    assert_eq!(n("Length: 28 pages").page_count, 28);
    assert_eq!(n("Length:   7").page_count, 7);
    assert_eq!(n("Length: +5 pages").page_count, 5);
    assert_eq!(n("Length: -3 pages").page_count, 0);
    assert_eq!(n("Favorited: -1 times").favorited, 0);
    assert_eq!(n("Length: 0 pages").page_count, 0);
    assert_eq!(n("Length: 12pages").page_count, 0);
    assert_eq!(n("Length: many").page_count, 0);
    assert_eq!(n("Length: 9223372036854775807").page_count, i64::MAX);
    assert_eq!(n("Length: -9223372036854775808").page_count, 0);
    assert_eq!(n("Length: 9223372036854775808").page_count, 0);
    assert_eq!(n("Favorited: x times").favorited, 0);
    assert_eq!(n("Length: ").page_count, 0);
}

#[test]
fn ratings_are_held_in_hundredths() {
    let r = |text: &str| parse_info_txt(&format!("a\nb\nc\nd\nRating: {}", text)).unwrap().rating;
    assert_eq!(r("4.50"), 450);
    assert_eq!(r("4.5"), 450);
    assert_eq!(r("5"), 500);
    assert_eq!(r("0.07"), 7);
    assert_eq!(r("4."), 400);
    assert_eq!(r(".5"), 50);
    assert_eq!(r("4.567"), 456);
    assert_eq!(r("  3.25  "), 325);
    assert_eq!(r("abc"), 0);
    assert_eq!(r("."), 0);
    assert_eq!(r("4.5.1"), 0);
    assert_eq!(r("-1"), 0);
    assert_eq!(r("5.00"), 500);
    assert_eq!(r("5"), 500);
    assert_eq!(r("5.01"), 0);
    assert_eq!(r("9.5"), 0);
    assert_eq!(r("0"), 0);
    assert_eq!(r("42949672.95"), 0);
    assert_eq!(r("99999999999999999999999"), 0);
}

#[test]
fn the_tag_block_opens_and_closes() {
    let p = parse_info_txt(
        "a\nb\nc\nd\n> early: no\nTags:\n> artist: jane, doe\n\n> female:  x y ,, z \n> nocolon\n>tight: t\nSomething else\n> late: no\nTags:\n> again: yes\n",
    )
    .unwrap();
    assert_eq!(
        tags(&p),
        vec![("artist", "jane"), ("artist", "doe"), ("female", "x y ,"), ("female", "z"), ("again", "yes")]
    );
}

#[test]
fn a_tag_line_is_split_at_the_first_colon() {
    let p = parse_info_txt("a\nb\nc\nd\nTags:\n>  ns one : a: b, c\n> x: \n").unwrap();
    assert_eq!(tags(&p), vec![("ns one", "a: b"), ("ns one", "c")]);
}

#[test]
fn reading_stops_at_the_page_listing() {
    let p = parse_info_txt("a\nb\nc\nCategory: One\nPage 1: x\nCategory: Two\nTags:\n> a: b").unwrap();
    assert_eq!(p.category, "One");
    assert!(p.tags.is_empty());
    let p = parse_info_txt("a\nb\nc\nCategory: One\n  Downloaded at 2020\nCategory: Two").unwrap();
    assert_eq!(p.category, "One");
    let p = parse_info_txt("a\nPage 1: first\nc\nd\nCategory: late").unwrap();
    assert_eq!(p.title_jp, "Page 1: first");
    assert_eq!(p.category, "late");
    let p = parse_info_txt("Downloaded at noon\nb\nPage 1: x\nd\nCategory: late").unwrap();
    assert_eq!(p.title_en, "Downloaded at noon");
    assert_eq!(p.category, "");
}
