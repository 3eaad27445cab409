//! The records that the catalog holds and hands out.
//!
//! Each record with text in it has a view in which every text field is a
//! `Seq<char>`; contracts are stated over these views.

use vstd::prelude::*;

verus! {

/// A `(namespace, tag)` pair as plain text.
pub type TagPair = (Seq<char>, Seq<char>);

/// The pairs held in `v`, as plain text.
pub open spec fn pairs_view(v: Seq<(String, String)>) -> Seq<TagPair> {
    v.map_values(|t: (String, String)| (t.0@, t.1@))
}

/// The texts held in `v`.
pub open spec fn strings_view(v: Seq<String>) -> Seq<Seq<char>> {
    v.map_values(|s: String| s@)
}

/// The text held in `o`, if any.
pub open spec fn opt_view(o: Option<String>) -> Option<Seq<char>> {
    match o {
        Some(s) => Some(s@),
        None => None,
    }
}

/// What a sidecar file says of its gallery. The rating is held in
/// hundredths of a star, from 0 to 500; the counts are not below zero.
#[derive(Debug, Clone)]
pub struct ParsedGallery {
    pub title_en: String,
    pub title_jp: String,
    pub url: String,
    pub category: String,
    pub uploader: String,
    pub posted: String,
    pub language: String,
    pub file_size: String,
    pub page_count: i64,
    pub rating: u32,
    pub favorited: i64,
    pub tags: Vec<(String, String)>,
}

/// What a sidecar file says, with its texts as plain characters.
pub struct ParsedInfo {
    pub title_en: Seq<char>,
    pub title_jp: Seq<char>,
    pub url: Seq<char>,
    pub category: Seq<char>,
    pub uploader: Seq<char>,
    pub posted: Seq<char>,
    pub language: Seq<char>,
    pub file_size: Seq<char>,
    pub page_count: i64,
    pub rating: u32,
    pub favorited: i64,
    pub tags: Seq<TagPair>,
}

impl View for ParsedGallery {
    type V = ParsedInfo;

    open spec fn view(&self) -> ParsedInfo {
        ParsedInfo {
            title_en: self.title_en@,
            title_jp: self.title_jp@,
            url: self.url@,
            category: self.category@,
            uploader: self.uploader@,
            posted: self.posted@,
            language: self.language@,
            file_size: self.file_size@,
            page_count: self.page_count,
            rating: self.rating,
            favorited: self.favorited,
            tags: pairs_view(self.tags@),
        }
    }
}

/// One namespaced tag of a gallery.
#[derive(Debug, Clone)]
pub struct TagEntry {
    pub namespace: String,
    pub tag: String,
}

impl View for TagEntry {
    type V = TagPair;

    open spec fn view(&self) -> TagPair {
        (self.namespace@, self.tag@)
    }
}

/// The tags held in `v`, as plain text.
pub open spec fn tags_view(v: Seq<TagEntry>) -> Seq<TagPair> {
    v.map_values(|t: TagEntry| t@)
}

/// A catalogued gallery. The rating is held in hundredths of a star.
#[derive(Debug, Clone)]
pub struct Gallery {
    pub id: i64,
    pub path: String,
    pub title_en: String,
    pub title_jp: String,
    pub url: String,
    pub category: String,
    pub uploader: String,
    pub posted: String,
    pub language: String,
    pub file_size: String,
    pub page_count: i64,
    pub rating: u32,
    pub favorited: i64,
    pub thumb_path: String,
    pub folder_name: String,
    pub parent_path: String,
}

/// A catalogued gallery, with its texts as plain characters.
pub struct GalleryView {
    pub id: i64,
    pub path: Seq<char>,
    pub title_en: Seq<char>,
    pub title_jp: Seq<char>,
    pub url: Seq<char>,
    pub category: Seq<char>,
    pub uploader: Seq<char>,
    pub posted: Seq<char>,
    pub language: Seq<char>,
    pub file_size: Seq<char>,
    pub page_count: i64,
    pub rating: u32,
    pub favorited: i64,
    pub thumb_path: Seq<char>,
    pub folder_name: Seq<char>,
    pub parent_path: Seq<char>,
}

impl View for Gallery {
    type V = GalleryView;

    open spec fn view(&self) -> GalleryView {
        GalleryView {
            id: self.id,
            path: self.path@,
            title_en: self.title_en@,
            title_jp: self.title_jp@,
            url: self.url@,
            category: self.category@,
            uploader: self.uploader@,
            posted: self.posted@,
            language: self.language@,
            file_size: self.file_size@,
            page_count: self.page_count,
            rating: self.rating,
            favorited: self.favorited,
            thumb_path: self.thumb_path@,
            folder_name: self.folder_name@,
            parent_path: self.parent_path@,
        }
    }
}

/// What a listing shows of a gallery.
#[derive(Debug, Clone)]
pub struct GallerySummary {
    pub id: i64,
    pub title_en: String,
    pub title_jp: String,
    pub category: String,
    pub page_count: i64,
    pub rating: u32,
    pub thumb_path: String,
    pub folder_name: String,
    pub path: String,
}

/// What a listing shows of a gallery, with its texts as plain characters.
pub struct SummaryView {
    pub id: i64,
    pub title_en: Seq<char>,
    pub title_jp: Seq<char>,
    pub category: Seq<char>,
    pub page_count: i64,
    pub rating: u32,
    pub thumb_path: Seq<char>,
    pub folder_name: Seq<char>,
    pub path: Seq<char>,
}

impl View for GallerySummary {
    type V = SummaryView;

    open spec fn view(&self) -> SummaryView {
        SummaryView {
            id: self.id,
            title_en: self.title_en@,
            title_jp: self.title_jp@,
            category: self.category@,
            page_count: self.page_count,
            rating: self.rating,
            thumb_path: self.thumb_path@,
            folder_name: self.folder_name@,
            path: self.path@,
        }
    }
}

/// The summaries held in `v`, as views.
pub open spec fn summaries_view(v: Seq<GallerySummary>) -> Seq<SummaryView> {
    v.map_values(|g: GallerySummary| g@)
}

/// What a listing shows of the gallery `g`.
pub open spec fn summary_of(g: GalleryView) -> SummaryView {
    SummaryView {
        id: g.id,
        title_en: g.title_en,
        title_jp: g.title_jp,
        category: g.category,
        page_count: g.page_count,
        rating: g.rating,
        thumb_path: g.thumb_path,
        folder_name: g.folder_name,
        path: g.path,
    }
}

impl Gallery {
    /// What a listing shows of this gallery.
    pub fn summary(&self) -> (s: GallerySummary)
        ensures
            s@ == summary_of(self@),
    {
        GallerySummary {
            id: self.id,
            title_en: self.title_en.clone(),
            title_jp: self.title_jp.clone(),
            category: self.category.clone(),
            page_count: self.page_count,
            rating: self.rating,
            thumb_path: self.thumb_path.clone(),
            folder_name: self.folder_name.clone(),
            path: self.path.clone(),
        }
    }
}

/// A gallery with its tags.
#[derive(Debug, Clone)]
pub struct GalleryDetail {
    pub gallery: Gallery,
    pub tags: Vec<TagEntry>,
}

/// A folder that is no gallery, as a directory listing shows it.
#[derive(Debug, Clone)]
pub struct FolderNode {
    pub name: String,
    pub path: String,
    pub has_children: bool,
}

/// A folder that is no gallery, with its texts as plain characters.
pub struct NodeView {
    pub name: Seq<char>,
    pub path: Seq<char>,
    pub has_children: bool,
}

impl View for FolderNode {
    type V = NodeView;

    open spec fn view(&self) -> NodeView {
        NodeView { name: self.name@, path: self.path@, has_children: self.has_children }
    }
}

/// The folders held in `v`, as views.
pub open spec fn nodes_view(v: Seq<FolderNode>) -> Seq<NodeView> {
    v.map_values(|n: FolderNode| n@)
}

impl GallerySummary {
    /// A copy of this summary.
    pub fn duplicate(&self) -> (s: GallerySummary)
        ensures
            s@ == self@,
    {
        GallerySummary {
            id: self.id,
            title_en: self.title_en.clone(),
            title_jp: self.title_jp.clone(),
            category: self.category.clone(),
            page_count: self.page_count,
            rating: self.rating,
            thumb_path: self.thumb_path.clone(),
            folder_name: self.folder_name.clone(),
            path: self.path.clone(),
        }
    }
}

impl FolderNode {
    /// A copy of this folder.
    pub fn duplicate(&self) -> (n: FolderNode)
        ensures
            n@ == self@,
    {
        FolderNode {
            name: self.name.clone(),
            path: self.path.clone(),
            has_children: self.has_children,
        }
    }
}

/// The children of a directory: plain folders and galleries.
#[derive(Debug, Clone)]
pub struct FolderChildren {
    pub subfolders: Vec<FolderNode>,
    pub galleries: Vec<GallerySummary>,
}

/// One page of a gallery.
#[derive(Debug, Clone)]
pub struct PageInfo {
    pub filename: String,
    pub path: String,
    pub index: usize,
}

/// One `(namespace, tag)` pair that a search asks for.
#[derive(Debug, Clone)]
pub struct TagFilter {
    pub namespace: String,
    pub tag: String,
}

impl View for TagFilter {
    type V = TagPair;

    open spec fn view(&self) -> TagPair {
        (self.namespace@, self.tag@)
    }
}

/// The filters held in `v`, as plain text.
pub open spec fn filters_view(v: Seq<TagFilter>) -> Seq<TagPair> {
    v.map_values(|t: TagFilter| t@)
}

/// A search request.
#[derive(Debug, Clone)]
pub struct SearchQuery {
    pub text: Option<String>,
    pub tags: Vec<TagFilter>,
    pub category: Option<String>,
    pub language: Option<String>,
    pub sort_by: Option<String>,
    pub sort_order: Option<String>,
    pub offset: i64,
    pub limit: i64,
}

/// A search request, with its texts as plain characters.
pub struct QueryView {
    pub text: Option<Seq<char>>,
    pub tags: Seq<TagPair>,
    pub category: Option<Seq<char>>,
    pub language: Option<Seq<char>>,
    pub sort_by: Option<Seq<char>>,
    pub sort_order: Option<Seq<char>>,
    pub offset: i64,
    pub limit: i64,
}

impl View for SearchQuery {
    type V = QueryView;

    open spec fn view(&self) -> QueryView {
        QueryView {
            text: opt_view(self.text),
            tags: filters_view(self.tags@),
            category: opt_view(self.category),
            language: opt_view(self.language),
            sort_by: opt_view(self.sort_by),
            sort_order: opt_view(self.sort_order),
            offset: self.offset,
            limit: self.limit,
        }
    }
}

/// One page of search results with the number of all matches.
#[derive(Debug, Clone)]
pub struct SearchResult {
    pub galleries: Vec<GallerySummary>,
    pub total_count: i64,
}

/// Progress of the scan that is running, if any.
#[derive(Debug, Clone)]
pub struct ScanStatus {
    pub is_scanning: bool,
    pub scanned: i64,
    pub total: i64,
    pub current_folder: String,
}

/// What the user has configured.
#[derive(Debug, Clone)]
pub struct AppSettings {
    pub root_paths: Vec<String>,
    pub thumbnail_width: u32,
    pub watcher_enabled: bool,
    pub cookie_path: String,
    /// Whether galleries whose folders have one name count as copies of one
    /// another, wherever the folders lie.
    pub duplicates_by_name: bool,
}

impl Default for AppSettings {
    fn default() -> (s: Self)
        ensures
            s.root_paths@.len() == 0,
            s.thumbnail_width == 300,
            s.watcher_enabled,
            s.cookie_path@.len() == 0,
            s.duplicates_by_name,
    {
        AppSettings {
            root_paths: Vec::new(),
            thumbnail_width: 300,
            watcher_enabled: true,
            cookie_path: String::new(),
            duplicates_by_name: true,
        }
    }
}

/// Groups of galleries that look like copies of one another.
#[derive(Debug, Clone)]
pub struct DuplicateResult {
    pub by_url: Vec<Vec<GallerySummary>>,
    pub by_name: Vec<Vec<GallerySummary>>,
}

/// What clearing the thumbnail cache removed.
#[derive(Debug, Clone)]
pub struct CacheCleanResult {
    pub removed: u64,
    pub freed_bytes: u64,
}

} // verus!
