//! The thumbnail cache: where a thumbnail lives, when it can be used again,
//! and how large a new one is.
//!
//! A thumbnail is filed under a name derived from the path of its source,
//! not from its pixels. The caller hands in the absolute path of the
//! source; it is brought to one spelling before it is hashed, so that two
//! spellings of one path have one thumbnail. Reading and writing images is
//! left to the caller; the decisions are made here.

use crate::paths::{join, joined, normalize_path, normalized};
use crate::text::{chars_of, string_of, subvec};
use sha2::{Digest, Sha256};
use vstd::prelude::*;

verus! {

/// The SHA-256 digest of `data`.
pub uninterp spec fn sha256_of(data: Seq<u8>) -> Seq<u8>;

/// Calls `Sha256::digest`. The contract names the digest and states its
/// length, 32 bytes.
#[verifier::external_body]
fn sha256(data: &[u8]) -> (digest: Vec<u8>)
    ensures
        digest@ == sha256_of(data@),
        digest@.len() == 32,
{
    Sha256::digest(data).to_vec()
}

/// The lower-case hexadecimal digit for `n`, for `n` below sixteen.
pub open spec fn hex_digit(n: int) -> char {
    if n == 0 {
        '0'
    } else if n == 1 {
        '1'
    } else if n == 2 {
        '2'
    } else if n == 3 {
        '3'
    } else if n == 4 {
        '4'
    } else if n == 5 {
        '5'
    } else if n == 6 {
        '6'
    } else if n == 7 {
        '7'
    } else if n == 8 {
        '8'
    } else if n == 9 {
        '9'
    } else if n == 10 {
        'a'
    } else if n == 11 {
        'b'
    } else if n == 12 {
        'c'
    } else if n == 13 {
        'd'
    } else if n == 14 {
        'e'
    } else {
        'f'
    }
}

/// `bytes` in lower-case hexadecimal, two digits a byte.
pub open spec fn hex_lower(bytes: Seq<u8>) -> Seq<char>
    decreases bytes.len(),
{
    if bytes.len() == 0 {
        seq![]
    } else {
        hex_lower(bytes.drop_last()) + seq![
            hex_digit(bytes.last() as int / 16),
            hex_digit(bytes.last() as int % 16),
        ]
    }
}

/// Hexadecimal text is twice as long as the bytes it writes.
pub proof fn lemma_hex_lower_len(bytes: Seq<u8>)
    ensures
        hex_lower(bytes).len() == 2 * bytes.len(),
    decreases bytes.len(),
{
    if bytes.len() > 0 {
        lemma_hex_lower_len(bytes.drop_last());
    }
}

/// Calls `hex::encode`, which writes each byte as two lower-case
/// hexadecimal digits.
#[verifier::external_body]
fn hex_encode(data: &Vec<u8>) -> (text: String)
    ensures
        text@ == hex_lower(data@),
{
    hex::encode(data)
}

/// The file name of the thumbnail of the source `source`: the first sixteen
/// hexadecimal digits of the digest of the normalized path, and `.jpg`.
pub open spec fn thumb_name(source: Seq<char>) -> Seq<char> {
    hex_lower(sha256_of(vstd::utf8::encode_utf8(normalized(source)))).take(16) + ".jpg"@
}

/// Two spellings of one path have one thumbnail name.
pub proof fn lemma_one_name_for_one_path(a: Seq<char>, b: Seq<char>)
    requires
        normalized(a) == normalized(b),
    ensures
        thumb_name(a) == thumb_name(b),
{
}

/// The file name under which the thumbnail of `source`, an absolute path,
/// is cached.
pub fn thumb_filename(source: &str) -> (name: String)
    ensures
        name@ == thumb_name(source@),
{
    let path = normalize_path(source);
    let digest = sha256(path.as_str().as_bytes());
    let hex = chars_of(hex_encode(&digest).as_str());
    proof {
        lemma_hex_lower_len(digest@);
    }
    let mut name = subvec(&hex, 0, 16);
    let mut ext = chars_of(".jpg");
    name.append(&mut ext);
    string_of(&name)
}

/// Where the thumbnail of `source` lives in the cache directory
/// `cache_dir`.
pub open spec fn thumb_location(source: Seq<char>, cache_dir: Seq<char>) -> Seq<char> {
    joined(cache_dir, thumb_name(source))
}

/// Where the thumbnail of `source_image`, an absolute path, lives in
/// `cache_dir`. The place depends on the normalized path of the source and
/// on the directory, and on nothing else.
pub fn thumbnail_path(source_image: &str, cache_dir: &str) -> (path: String)
    ensures
        path@ == thumb_location(source_image@, cache_dir@),
{
    let name = thumb_filename(source_image);
    join(cache_dir, name.as_str())
}

/// `listing` holds the name `name`.
pub open spec fn lists(listing: Seq<String>, name: Seq<char>) -> bool {
    exists|i: int| 0 <= i < listing.len() && (#[trigger] listing[i])@ == name
}

/// The cached thumbnail of `source_image`, where the cache directory
/// `cache_dir`, whose file names are `listing`, holds one.
pub fn thumbnail_exists(source_image: &str, cache_dir: &str, listing: &Vec<String>) -> (r: Option<
    String,
>)
    ensures
        match r {
            Some(path) => lists(listing@, thumb_name(source_image@)) && path@ == thumb_location(
                source_image@,
                cache_dir@,
            ),
            None => !lists(listing@, thumb_name(source_image@)),
        },
{
    let name = thumb_filename(source_image);
    let mut i: usize = 0;
    while i < listing.len()
        invariant
            i <= listing.len(),
            name@ == thumb_name(source_image@),
            forall|j: int| 0 <= j < i ==> (#[trigger] listing@[j])@ != name@,
        decreases listing.len() - i,
    {
        if listing[i] == name {
            return Some(join(cache_dir, name.as_str()));
        }
        i += 1;
    }
    None
}

/// What the caller found on disk before it asked for a thumbnail: whether
/// the cache directory could be made ready, whether the thumbnail file is
/// there, and when source and thumbnail were last modified, where that
/// could be read.
#[derive(Debug, Clone, Copy)]
pub struct CacheProbe {
    pub dir_ready: bool,
    pub thumb_exists: bool,
    pub source_modified: Option<u64>,
    pub thumb_modified: Option<u64>,
}

/// What is to be done for a thumbnail.
#[derive(Debug, Clone)]
pub enum ThumbnailPlan {
    /// There is no thumbnail to be had.
    Unavailable,
    /// The cached file at this path is used as it is.
    Reuse(String),
    /// The source is decoded, scaled and saved at this path.
    Render(String),
}

/// The cached thumbnail is there and is no older than its source.
pub open spec fn is_fresh(probe: CacheProbe) -> bool {
    &&& probe.thumb_exists
    &&& probe.source_modified is Some
    &&& probe.thumb_modified is Some
    &&& probe.thumb_modified->0 >= probe.source_modified->0
}

/// Whether the cached thumbnail can be used again.
pub fn thumbnail_is_fresh(probe: &CacheProbe) -> (r: bool)
    ensures
        r == is_fresh(*probe),
{
    if !probe.thumb_exists {
        return false;
    }
    match (probe.source_modified, probe.thumb_modified) {
        (Some(src), Some(dst)) => dst >= src,
        _ => false,
    }
}

/// Decides what is to be done for the thumbnail of `source_image` in
/// `cache_dir`. Without a cache directory there is none. A cached file that
/// is no older than its source is used again, at the path that depends on
/// the source's path and the directory alone; otherwise a new one is to be
/// rendered at that path.
pub fn generate_thumbnail(source_image: &str, cache_dir: &str, probe: &CacheProbe) -> (plan:
    ThumbnailPlan)
    ensures
        !probe.dir_ready ==> plan is Unavailable,
        probe.dir_ready && is_fresh(*probe) ==> plan is Reuse && plan->Reuse_0@ == thumb_location(
            source_image@,
            cache_dir@,
        ),
        probe.dir_ready && !is_fresh(*probe) ==> plan is Render && plan->Render_0@
            == thumb_location(source_image@, cache_dir@),
{
    if !probe.dir_ready {
        return ThumbnailPlan::Unavailable;
    }
    let path = thumbnail_path(source_image, cache_dir);
    if thumbnail_is_fresh(probe) {
        ThumbnailPlan::Reuse(path)
    } else {
        ThumbnailPlan::Render(path)
    }
}

/// The width that a source of `width` by `height` is scaled to: the target
/// width, doubled for a source that is wider than high, but no more than
/// the source's own width.
pub open spec fn scaled_width(width: u32, height: u32, max_width: u32) -> int {
    let target = if width > height {
        2 * max_width
    } else {
        max_width as int
    };
    if target < width {
        target
    } else {
        width as int
    }
}

/// The size of the thumbnail of a source of `width` by `height`: none for
/// an empty source; else the scaled width, and the height that keeps the
/// proportions, rounded down.
pub open spec fn scaled_size(width: u32, height: u32, max_width: u32) -> Option<(u32, u32)> {
    if width == 0 || height == 0 {
        None
    } else {
        let w = scaled_width(width, height, max_width);
        Some((w as u32, (height * w / (width as int)) as u32))
    }
}

/// The size to which a source of `width` by `height` is scaled for a target
/// width of `max_width`.
pub fn thumbnail_size(width: u32, height: u32, max_width: u32) -> (r: Option<(u32, u32)>)
    ensures
        r == scaled_size(width, height, max_width),
        r matches Some((w, h)) ==> w <= width && h <= height,
{
    if width == 0 || height == 0 {
        return None;
    }
    let target: u64 = if width > height {
        2 * (max_width as u64)
    } else {
        max_width as u64
    };
    let w: u64 = if target < width as u64 {
        target
    } else {
        width as u64
    };
    assert(height * w <= height * width <= 0xFFFF_FFFF * 0xFFFF_FFFF) by (nonlinear_arith)
        requires
            0 <= w <= width <= 0xFFFF_FFFF,
            0 <= height <= 0xFFFF_FFFF,
    ;
    let h: u64 = (height as u64) * w / (width as u64);
    assert(h <= height) by (nonlinear_arith)
        requires
            h == (height * w) / (width as int),
            0 <= w <= width,
            width > 0,
            height >= 0,
    ;
    Some((w as u32, h as u32))
}

} // verus!
