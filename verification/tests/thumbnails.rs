use manga_viewer_lib::thumbnail::{
    generate_thumbnail, thumb_filename, thumbnail_exists, thumbnail_is_fresh, thumbnail_path,
    thumbnail_size, CacheProbe, ThumbnailPlan,
};
use sha2::{Digest, Sha256};
use std::path::Path;

fn probe(dir: bool, exists: bool, src: Option<u64>, dst: Option<u64>) -> CacheProbe {
    CacheProbe { dir_ready: dir, thumb_exists: exists, source_modified: src, thumb_modified: dst }
}

#[test]
fn name_is_sixteen_hex_digits_of_the_digest() {
    let name = thumb_filename("/g/a/1.jpg");
    let expected = format!("{}.jpg", &hex::encode(Sha256::digest(b"/g/a/1.jpg"))[..16]);
    assert_eq!(name, expected);
    assert_eq!(name.len(), 20);
    assert_eq!(thumb_filename("abc"), "ba7816bf8f01cfea.jpg");
}

#[test]
fn two_spellings_of_a_path_have_one_name() {
    assert_eq!(thumb_filename("/g//a/./1.jpg"), thumb_filename("/g/a/1.jpg"));
    assert_eq!(thumbnail_path("/g/a/1.jpg/", "/cache"), thumbnail_path("/g/a/1.jpg", "/cache"));
    let probe = probe(true, false, None, None);
    let a = generate_thumbnail("/g/a//1.jpg", "/cache", &probe);
    let b = generate_thumbnail("/g/a/1.jpg", "/cache", &probe);
    assert_eq!(format!("{:?}", a), format!("{:?}", b));
}

#[test]
fn name_depends_on_the_path() {
    assert_ne!(thumb_filename("/g/a/1.jpg"), thumb_filename("/g/a/2.jpg"));
    assert_eq!(thumb_filename("/g/a/1.jpg"), thumb_filename("/g/a/1.jpg"));
}

#[test]
fn path_lies_in_the_cache_directory() {
    let p = thumbnail_path("abc", "/cache");
    assert_eq!(Path::new(&p), Path::new("/cache").join("ba7816bf8f01cfea.jpg"));
}

#[test]
fn existing_thumbnail_is_found_in_the_listing() {
    let listing = vec!["x.jpg".to_string(), "ba7816bf8f01cfea.jpg".to_string()];
    let found = thumbnail_exists("abc", "/cache", &listing);
    assert_eq!(found, Some(thumbnail_path("abc", "/cache")));
    assert_eq!(thumbnail_exists("abd", "/cache", &listing), None);
    assert_eq!(thumbnail_exists("abc", "/cache", &Vec::new()), None);
}

#[test]
fn fresh_thumbnail_is_reused_at_the_same_path() {
    let first = generate_thumbnail("abc", "/cache", &probe(true, false, Some(10), None));
    let path = match first {
        ThumbnailPlan::Render(p) => p,
        other => panic!("expected a render, got {:?}", other),
    };
    let second = generate_thumbnail("abc", "/cache", &probe(true, true, Some(10), Some(12)));
    match second {
        ThumbnailPlan::Reuse(p) => assert_eq!(p, path),
        other => panic!("expected a reuse, got {:?}", other),
    }
}

#[test]
fn newer_source_makes_the_thumbnail_stale() {
    assert!(thumbnail_is_fresh(&probe(true, true, Some(10), Some(10))));
    assert!(!thumbnail_is_fresh(&probe(true, true, Some(11), Some(10))));
    assert!(!thumbnail_is_fresh(&probe(true, true, None, Some(10))));
    assert!(!thumbnail_is_fresh(&probe(true, true, Some(10), None)));
    assert!(!thumbnail_is_fresh(&probe(true, false, Some(10), Some(12))));
    let plan = generate_thumbnail("abc", "/cache", &probe(true, true, Some(11), Some(10)));
    assert!(matches!(plan, ThumbnailPlan::Render(_)));
}

#[test]
fn no_cache_directory_no_thumbnail() {
    let plan = generate_thumbnail("abc", "/cache", &probe(false, true, Some(1), Some(2)));
    assert!(matches!(plan, ThumbnailPlan::Unavailable));
}

#[test]
fn sizes_keep_the_proportions() {
    assert_eq!(thumbnail_size(1000, 2000, 300), Some((300, 600)));
    assert_eq!(thumbnail_size(2000, 1000, 300), Some((600, 300)));
    assert_eq!(thumbnail_size(200, 400, 300), Some((200, 400)));
    assert_eq!(thumbnail_size(500, 400, 300), Some((500, 400)));
    assert_eq!(thumbnail_size(1000, 1000, 300), Some((300, 300)));
    assert_eq!(thumbnail_size(1000, 333, 100), Some((200, 66)));
    assert_eq!(thumbnail_size(0, 10, 300), None);
    assert_eq!(thumbnail_size(10, 0, 300), None);
    assert_eq!(thumbnail_size(u32::MAX, 1, u32::MAX), Some((u32::MAX, 1)));
}
