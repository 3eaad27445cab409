use manga_viewer_lib::db::{sorted_tags, Database};
use manga_viewer_lib::models::Gallery;
use manga_viewer_lib::numbers::{parse_i64, parse_rating, parse_u64, push_decimal, push_signed};
use manga_viewer_lib::order::{goes_before, lex_less, nocase_key, number_key, stable_order, text_key};
use manga_viewer_lib::query::words;
use manga_viewer_lib::state::AppState;
use manga_viewer_lib::text::{
    chars_of, followed_by, ends_with, equals, find, is_whitespace, leading_token, lines, same_text, split,
    starts_with, string_of, strip_prefix, subvec, text_less, trim,
};

fn c(s: &str) -> Vec<char> {
    s.chars().collect()
}

fn s(v: &[char]) -> String {
    v.iter().collect()
}

fn strs(v: Vec<Vec<char>>) -> Vec<String> {
    v.iter().map(|x| s(x)).collect()
}

#[test]
fn characters_go_in_and_out() {
    assert_eq!(chars_of("aフb"), vec!['a', 'フ', 'b']);
    assert_eq!(string_of(&c("aフb")), "aフb");
    assert_eq!(s(&subvec(&c("hello"), 1, 3)), "el");
    assert_eq!(followed_by("ab", "cd"), "abcd");
    assert!(same_text("x", "x") && !same_text("x", "xy") && !same_text("x", "y"));
}

#[test]
fn white_space_is_what_unicode_says() {
    for ch in ['\t', '\n', '\u{b}', '\u{c}', '\r', ' ', '\u{85}', '\u{a0}', '\u{1680}', '\u{2000}', '\u{200a}', '\u{2028}', '\u{2029}', '\u{202f}', '\u{205f}', '\u{3000}'] {
        assert!(is_whitespace(ch), "{:?}", ch);
        assert!(ch.is_whitespace());
    }
    for ch in ['a', '0', '\u{200b}', '\u{feff}', '\u{1c}', '_'] {
        assert_eq!(is_whitespace(ch), ch.is_whitespace(), "{:?}", ch);
    }
    for n in 0..0x3100u32 {
        if let Some(ch) = char::from_u32(n) {
            assert_eq!(is_whitespace(ch), ch.is_whitespace(), "{:x}", n);
        }
    }
}

#[test]
fn trimming_and_tokens_agree_with_std() {
    for text in ["", "  ", " a b ", "\t\u{3000}x\u{a0}\n", "x", " 12 pages"] {
        assert_eq!(s(&trim(&c(text))), text.trim());
        assert_eq!(s(&leading_token(&c(text))), text.split_whitespace().next().unwrap_or(""));
        let want: Vec<String> = text.split_whitespace().map(|w| w.to_string()).collect();
        assert_eq!(strs(words(&c(text))), want);
    }
}

#[test]
fn lines_and_pieces_agree_with_std() {
    for text in ["", "\n", "a", "a\n", "a\nb", "a\r\nb\r\n", "a\r", "\r\n\r\n", "a\n\nb\n\n", "a\r\r\nb"] {
        let want: Vec<String> = text.lines().map(|l| l.to_string()).collect();
        assert_eq!(strs(lines(&c(text))), want, "{:?}", text);
    }
    for text in ["", "a", "a, b", ", ", "a, , b, ", ",a,", "a,, b"] {
        let want: Vec<String> = text.split(", ").map(|l| l.to_string()).collect();
        assert_eq!(strs(split(&c(text), ", ")), want, "{:?}", text);
    }
    assert_eq!(strs(split(&c("aaa"), "aa")), vec!["", "a"]);
}

#[test]
fn searching_and_prefixes() {
    let v = c("hello world");
    assert!(starts_with(&v, "hello") && !starts_with(&v, "world") && starts_with(&v, ""));
    assert!(ends_with(&v, "world") && !ends_with(&v, "hello") && ends_with(&v, ""));
    assert!(!starts_with(&c("he"), "hello") && !ends_with(&c("ld"), "world"));
    assert!(equals(&v, "hello world") && !equals(&v, "hello"));
    assert_eq!(strip_prefix(&v, "hello ").map(|r| s(&r)), Some("world".to_string()));
    assert_eq!(strip_prefix(&v, "world"), None);
    assert_eq!(find(&v, &c("o"), 0), Some(4));
    assert_eq!(find(&v, &c("o"), 5), Some(7));
    assert_eq!(find(&v, &c("o"), 8), None);
    assert_eq!(find(&v, &c("xyz"), 0), None);
    assert_eq!(find(&v, &c("d"), 10), Some(10));
    assert_eq!(find(&v, &c("d"), 99), None);
}

#[test]
fn texts_are_ordered_as_strings_are() {
    let words = ["", "a", "ab", "b", "B", "é", "フ", "aフ", "\u{10ffff}"];
    for x in words {
        for y in words {
            assert_eq!(text_less(&c(x), &c(y)), x < y, "{:?} {:?}", x, y);
            assert_eq!(lex_less(&text_key(x), &text_key(y)), x < y, "{:?} {:?}", x, y);
        }
    }
}

#[test]
fn numbers_are_read_as_std_reads_them() {
    for text in ["", "+", "-", "0", "007", "+5", "-5", "18446744073709551615", "18446744073709551616", "9223372036854775807", "9223372036854775808", "-9223372036854775808", "-9223372036854775809", "1a", " 1", "1 ", "--1", "٣"] {
        assert_eq!(parse_u64(&c(text)), text.parse::<u64>().ok(), "{:?}", text);
        assert_eq!(parse_i64(&c(text)), text.parse::<i64>().ok(), "{:?}", text);
    }
    assert_eq!(parse_rating(&c("4.50")), 450);
    assert_eq!(parse_rating(&c("")), 0);
}

#[test]
fn numbers_are_written_in_base_ten() {
    for n in [0u64, 7, 10, 99, 100, 12345, u64::MAX] {
        let mut out = c("x");
        push_decimal(&mut out, n);
        assert_eq!(s(&out), format!("x{}", n));
    }
    for n in [0i64, -1, 1, -10, i64::MAX, i64::MIN] {
        let mut out = Vec::new();
        push_signed(&mut out, n);
        assert_eq!(s(&out), format!("{}", n));
    }
}

#[test]
fn keys_keep_the_order_of_what_they_stand_for() {
    let ns = [i64::MIN, -5, -1, 0, 1, 5, i64::MAX];
    for x in ns {
        for y in ns {
            assert_eq!(lex_less(&number_key(x), &number_key(y)), x < y);
        }
    }
    assert_eq!(nocase_key("AbZ[é"), text_key("abz[é"));
    assert!(goes_before(&vec![1], &vec![2], false));
    assert!(goes_before(&vec![2], &vec![1], true));
    assert!(!goes_before(&vec![1], &vec![1], true) && !goes_before(&vec![1], &vec![1], false));
    assert!(lex_less(&vec![], &vec![0]) && !lex_less(&vec![0], &vec![]));
}

#[test]
fn sorting_is_stable_both_ways() {
    let keys = vec![vec![2], vec![1], vec![2], vec![0, 5], vec![1], vec![]];
    assert_eq!(stable_order(&keys, false), vec![5, 3, 1, 4, 0, 2]);
    assert_eq!(stable_order(&keys, true), vec![0, 2, 1, 4, 3, 5]);
    assert!(stable_order(&Vec::new(), false).is_empty());
}

#[test]
fn tags_are_kept_once_and_in_order() {
    let pairs: Vec<(String, String)> = [("b", "x"), ("a", "y"), ("b", "x"), ("a", "b"), ("A", "z"), ("a", "")]
        .iter()
        .map(|(a, b)| (a.to_string(), b.to_string()))
        .collect();
    let got: Vec<(String, String)> = sorted_tags(&pairs).into_iter().map(|t| (t.namespace, t.tag)).collect();
    let mut want = pairs.clone();
    want.sort();
    want.dedup();
    assert_eq!(got, want);
}

fn gallery(id: i64, path: &str) -> Gallery {
    Gallery {
        id,
        path: path.to_string(),
        title_en: String::new(),
        title_jp: String::new(),
        url: String::new(),
        category: String::new(),
        uploader: String::new(),
        posted: String::new(),
        language: String::new(),
        file_size: String::new(),
        page_count: 0,
        rating: 0,
        favorited: 0,
        thumb_path: String::new(),
        folder_name: "n".to_string(),
        parent_path: "p".to_string(),
    }
}

#[test]
fn stored_galleries_come_back_with_their_ids() {
    let mut db = Database::new();
    let tags = vec![("b".to_string(), "y".to_string()), ("a".to_string(), "x".to_string())];
    assert!(db.restore_row(gallery(3, "/r/a"), &tags, "m".to_string(), 9));
    assert!(!db.restore_row(gallery(3, "/r/b"), &tags, "m".to_string(), 9));
    assert!(!db.restore_row(gallery(2, "/r/b"), &tags, "m".to_string(), 9));
    assert!(!db.restore_row(gallery(8, "/r/a"), &tags, "m".to_string(), 9));
    assert!(!db.restore_row(gallery(i64::MAX, "/r/c"), &tags, "m".to_string(), 9));
    let mut high = gallery(6, "/r/h");
    high.rating = 501;
    assert!(!db.restore_row(high, &tags, "m".to_string(), 9));
    let mut low = gallery(6, "/r/l");
    low.page_count = -1;
    assert!(!db.restore_row(low, &tags, "m".to_string(), 9));
    assert!(db.restore_row(gallery(7, "/r/b"), &Vec::new(), "m2".to_string(), 10));
    assert_eq!(db.get_all_gallery_paths(), vec!["/r/a", "/r/b"]);
    assert_eq!(db.get_gallery_by_id(3).unwrap().folder_name, "n");
    assert_eq!(db.get_tags_for_gallery(3)[0].namespace, "a");
    assert_eq!(db.get_scanned_at("/r/a"), Some(9));
    assert_eq!(db.get_scanned_at("/r/zz"), None);
    assert_eq!(db.get_info_modified("/r/b"), Some("m2".to_string()));
    db.reserve_ids(20);
    db.reserve_ids(5);
    let p = manga_viewer_lib::parser::parse_info_txt("t\n\n\n\n\n").unwrap();
    assert_eq!(db.upsert_gallery("/r/new", &p, "", "1", 1), Ok(20));
}

#[test]
fn ids_run_out_for_new_folders_only() {
    let mut db = Database::new();
    let p = manga_viewer_lib::parser::parse_info_txt("t\n\n\n\n\n").unwrap();
    db.upsert_gallery("/r/a", &p, "", "1", 1).unwrap();
    db.reserve_ids(i64::MAX);
    assert_eq!(db.upsert_gallery("/r/b", &p, "", "1", 1), Err(manga_viewer_lib::db::DbError::IdsExhausted));
    assert_eq!(db.upsert_gallery("/r/a", &p, "", "2", 2), Ok(1));
    assert_eq!(db.get_all_gallery_paths(), vec!["/r/a"]);
    assert!(!manga_viewer_lib::scanner::scan_folder(
        &mut db,
        &manga_viewer_lib::scanner::FolderSnapshot {
            path: "/r/c".to_string(),
            marker: "1".to_string(),
            parsed: Some(p),
            thumb: String::new(),
            seen_at: 1,
        }
    ));
}

#[test]
fn the_state_starts_empty() {
    let mut state = AppState::new(Database::new(), "/cache".to_string());
    assert_eq!(state.cache_dir, "/cache");
    assert!(!state.scan_status.is_scanning);
    assert_eq!((state.scan_status.scanned, state.scan_status.total), (0, 0));
    assert_eq!(state.settings.thumbnail_width, 300);
    assert!(state.watchers.is_empty());
    assert!(!state.watch("/r"));
    assert!(state.watch("/r"));
    assert!(!state.watch("/s"));
    assert_eq!(state.watchers, vec!["/r", "/s"]);
}
