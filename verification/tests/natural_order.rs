use manga_viewer_lib::natural::{key_less, natural_sort_key, sort_naturally, NaturalSegment};

fn names(v: &[&str]) -> Vec<String> {
    v.iter().map(|s| s.to_string()).collect()
}

#[test]
fn pages_list_in_natural_order() {
    let sorted = sort_naturally(&names(&["page2.jpg", "page10.jpg", "page1.jpg"]));
    assert_eq!(sorted, names(&["page1.jpg", "page2.jpg", "page10.jpg"]));
}

#[test]
fn two_comes_before_ten() {
    let sorted = sort_naturally(&names(&["/g/10.jpg", "/g/2.jpg"]));
    assert_eq!(sorted, names(&["/g/2.jpg", "/g/10.jpg"]));
}

#[test]
fn key_is_made_of_runs() {
    let key = natural_sort_key("/some/dir/Page007b.JPG");
    assert_eq!(key.len(), 3);
    assert!(matches!(&key[0], NaturalSegment::Text(t) if t == "page"));
    assert!(matches!(&key[1], NaturalSegment::Number(n) if n == "007"));
    assert!(matches!(&key[2], NaturalSegment::Text(t) if t == "b.jpg"));
}

#[test]
fn a_long_number_counts_as_what_it_spells() {
    let one = natural_sort_key("1.jpg");
    let big = natural_sort_key("18446744073709551616.jpg");
    let bigger = natural_sort_key("0018446744073709551617.jpg");
    assert!(key_less(&one, &big) && !key_less(&big, &one));
    assert!(key_less(&big, &bigger) && !key_less(&bigger, &big));
    let sorted = sort_naturally(&names(&["18446744073709551616.jpg", "99999999999999999999999.jpg", "1.jpg"]));
    assert_eq!(sorted, names(&["1.jpg", "18446744073709551616.jpg", "99999999999999999999999.jpg"]));
}

#[test]
fn leading_zeros_do_not_count() {
    let a = natural_sort_key("007");
    let b = natural_sort_key("7");
    assert!(!key_less(&a, &b) && !key_less(&b, &a));
    assert!(key_less(&natural_sort_key("09"), &natural_sort_key("10")));
}

#[test]
fn a_number_comes_before_a_text() {
    let a = natural_sort_key("1");
    let b = natural_sort_key("a");
    assert!(key_less(&a, &b));
    assert!(!key_less(&b, &a));
    assert!(!key_less(&a, &a));
}

#[test]
fn equal_keys_go_by_the_names() {
    let want = names(&["A01.png", "a1.png", "B.png", "b.png"]);
    assert_eq!(sort_naturally(&names(&["B.png", "a1.png", "b.png", "A01.png"])), want);
    assert_eq!(sort_naturally(&names(&["A01.png", "b.png", "a1.png", "B.png"])), want);
    assert_eq!(sort_naturally(&names(&["b.png", "B.png", "A01.png", "a1.png"])), want);
}

#[test]
fn a_listing_does_not_depend_on_the_order_of_reading() {
    let one = sort_naturally(&names(&["1.jpg", "01.jpg", "001.jpg"]));
    let other = sort_naturally(&names(&["001.jpg", "1.jpg", "01.jpg"]));
    assert_eq!(one, names(&["001.jpg", "01.jpg", "1.jpg"]));
    assert_eq!(one, other);
}

#[test]
fn a_shorter_key_comes_first() {
    let sorted = sort_naturally(&names(&["ab1", "ab"]));
    assert_eq!(sorted, names(&["ab", "ab1"]));
}
