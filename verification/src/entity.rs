//! Entity mapper: the wire-shaped records the service responds with, and
//! the deterministic row-to-record conversion. Timestamps are rendered as
//! RFC 3339 text, an absent title becomes the empty string (never a null),
//! and parent key columns surface under role-suffixed names.

use vstd::prelude::*;
use crate::store::{AnchorRow, BookmarkRow, DocumentRow, PageRow, TrackRow, UserAnchorRow};
use crate::time::{format_rfc3339, rfc3339_of, ts_in_range};

verus! {

/// Wire shape of a document.
#[derive(Debug)]
pub struct Document {
    pub id: i32,
    pub title: String,
    pub created_at: String,
    pub updated_at: String,
}

/// Mathematical content of a wire document.
pub ghost struct DocumentView {
    pub id: int,
    pub title: Seq<char>,
    pub created_at: Seq<char>,
    pub updated_at: Seq<char>,
}

impl View for Document {
    type V = DocumentView;

    open spec fn view(&self) -> DocumentView {
        DocumentView {
            id: self.id as int,
            title: self.title@,
            created_at: self.created_at@,
            updated_at: self.updated_at@,
        }
    }
}

impl Document {
    /// Identifier of the document.
    pub fn id(&self) -> (id: i32)
        ensures
            id as int == self@.id,
    {
        self.id
    }

    /// Title of the document.
    pub fn title(&self) -> (title: &str)
        ensures
            title@ == self@.title,
    {
        self.title.as_str()
    }
}

/// What the mapper owes for a document row.
pub open spec fn document_of_row(r: DocumentRow) -> DocumentView {
    DocumentView {
        id: r.id as int,
        title: r.title@,
        created_at: rfc3339_of(r.created_at as int),
        updated_at: rfc3339_of(r.updated_at as int),
    }
}

/// Convert a persisted document row to its wire record.
pub fn map_document(r: &DocumentRow) -> (d: Document)
    requires
        ts_in_range(r.created_at as int),
        ts_in_range(r.updated_at as int),
    ensures
        d@ == document_of_row(*r),
{
    Document {
        id: r.id,
        title: r.title.clone(),
        created_at: format_rfc3339(r.created_at),
        updated_at: format_rfc3339(r.updated_at),
    }
}

/// Wire shape of a page; the parent `document` column surfaces as
/// `document_id`.
#[derive(Debug)]
pub struct Page {
    pub id: i32,
    pub page_number: i32,
    pub image_path: String,
    pub aspect_ratio: i32,
    pub height: i32,
    pub document_id: i32,
}

/// Mathematical content of a wire page.
pub ghost struct PageView {
    pub id: int,
    pub page_number: int,
    pub image_path: Seq<char>,
    pub aspect_ratio: int,
    pub height: int,
    pub document_id: int,
}

impl View for Page {
    type V = PageView;

    open spec fn view(&self) -> PageView {
        PageView {
            id: self.id as int,
            page_number: self.page_number as int,
            image_path: self.image_path@,
            aspect_ratio: self.aspect_ratio as int,
            height: self.height as int,
            document_id: self.document_id as int,
        }
    }
}

/// What the mapper owes for a page row.
pub open spec fn page_of_row(r: PageRow) -> PageView {
    PageView {
        id: r.id as int,
        page_number: r.page_number as int,
        image_path: r.image_path@,
        aspect_ratio: r.aspect_ratio as int,
        height: r.height as int,
        document_id: r.document_id as int,
    }
}

/// Convert a persisted page row to its wire record.
pub fn map_page(r: &PageRow) -> (p: Page)
    ensures
        p@ == page_of_row(*r),
{
    Page {
        id: r.id,
        page_number: r.page_number,
        image_path: r.image_path.clone(),
        aspect_ratio: r.aspect_ratio,
        height: r.height,
        document_id: r.document_id,
    }
}

/// Wire shape of a track.
#[derive(Debug)]
pub struct Track {
    pub id: i32,
    pub track_number: i32,
    pub title: String,
    pub audio_path: String,
    pub document_id: i32,
}

/// Mathematical content of a wire track.
pub ghost struct TrackView {
    pub id: int,
    pub track_number: int,
    pub title: Seq<char>,
    pub audio_path: Seq<char>,
    pub document_id: int,
}

impl View for Track {
    type V = TrackView;

    open spec fn view(&self) -> TrackView {
        TrackView {
            id: self.id as int,
            track_number: self.track_number as int,
            title: self.title@,
            audio_path: self.audio_path@,
            document_id: self.document_id as int,
        }
    }
}

/// What the mapper owes for a track row.
pub open spec fn track_of_row(r: TrackRow) -> TrackView {
    TrackView {
        id: r.id as int,
        track_number: r.track_number as int,
        title: r.title@,
        audio_path: r.audio_path@,
        document_id: r.document_id as int,
    }
}

/// Convert a persisted track row to its wire record.
pub fn map_track(r: &TrackRow) -> (t: Track)
    ensures
        t@ == track_of_row(*r),
{
    Track {
        id: r.id,
        track_number: r.track_number,
        title: r.title.clone(),
        audio_path: r.audio_path.clone(),
        document_id: r.document_id,
    }
}

/// Wire shape of a bookmark; the parent `document_page` column surfaces
/// as `page_id`.
#[derive(Debug)]
pub struct Bookmark {
    pub id: i32,
    pub title: String,
    pub page_id: i32,
    pub document_id: i32,
}

/// Mathematical content of a wire bookmark.
pub ghost struct BookmarkView {
    pub id: int,
    pub title: Seq<char>,
    pub page_id: int,
    pub document_id: int,
}

impl View for Bookmark {
    type V = BookmarkView;

    open spec fn view(&self) -> BookmarkView {
        BookmarkView {
            id: self.id as int,
            title: self.title@,
            page_id: self.page_id as int,
            document_id: self.document_id as int,
        }
    }
}

/// What the mapper owes for a bookmark row.
pub open spec fn bookmark_of_row(r: BookmarkRow) -> BookmarkView {
    BookmarkView {
        id: r.id as int,
        title: r.title@,
        page_id: r.page_id as int,
        document_id: r.document_id as int,
    }
}

/// Convert a persisted bookmark row to its wire record.
pub fn map_bookmark(r: &BookmarkRow) -> (b: Bookmark)
    ensures
        b@ == bookmark_of_row(*r),
{
    Bookmark {
        id: r.id,
        title: r.title.clone(),
        page_id: r.page_id,
        document_id: r.document_id,
    }
}

/// An absent optional title surfaces as the empty string.
pub open spec fn title_or_empty(t: Option<String>) -> Seq<char> {
    match t {
        Some(s) => s@,
        None => Seq::empty(),
    }
}

/// Wire shape of an anchor.
#[derive(Debug)]
pub struct Anchor {
    pub id: i32,
    pub title: String,
    pub track_time: i64,
    pub position_top: i64,
    pub position_left: i64,
    pub page_id: i32,
    pub track_id: i32,
    pub created_at: String,
    pub updated_at: String,
}

/// Mathematical content of a wire anchor.
pub ghost struct AnchorView {
    pub id: int,
    pub title: Seq<char>,
    pub track_time: int,
    pub position_top: int,
    pub position_left: int,
    pub page_id: int,
    pub track_id: int,
    pub created_at: Seq<char>,
    pub updated_at: Seq<char>,
}

impl View for Anchor {
    type V = AnchorView;

    open spec fn view(&self) -> AnchorView {
        AnchorView {
            id: self.id as int,
            title: self.title@,
            track_time: self.track_time as int,
            position_top: self.position_top as int,
            position_left: self.position_left as int,
            page_id: self.page_id as int,
            track_id: self.track_id as int,
            created_at: self.created_at@,
            updated_at: self.updated_at@,
        }
    }
}

/// What the mapper owes for an anchor row.
pub open spec fn anchor_of_row(r: AnchorRow) -> AnchorView {
    AnchorView {
        id: r.id as int,
        title: title_or_empty(r.title),
        track_time: r.track_time as int,
        position_top: r.position_top as int,
        position_left: r.position_left as int,
        page_id: r.page_id as int,
        track_id: r.track_id as int,
        created_at: rfc3339_of(r.created_at as int),
        updated_at: rfc3339_of(r.updated_at as int),
    }
}

/// Convert a persisted anchor row to its wire record.
pub fn map_anchor(r: &AnchorRow) -> (a: Anchor)
    requires
        ts_in_range(r.created_at as int),
        ts_in_range(r.updated_at as int),
    ensures
        a@ == anchor_of_row(*r),
{
    Anchor {
        id: r.id,
        title: match &r.title {
            Some(t) => t.clone(),
            None => String::new(),
        },
        track_time: r.track_time,
        position_top: r.position_top,
        position_left: r.position_left,
        page_id: r.page_id,
        track_id: r.track_id,
        created_at: format_rfc3339(r.created_at),
        updated_at: format_rfc3339(r.updated_at),
    }
}

/// Wire shape of a user anchor: an anchor plus its owner.
#[derive(Debug)]
pub struct UserAnchor {
    pub id: i32,
    pub title: String,
    pub track_time: i64,
    pub position_top: i64,
    pub position_left: i64,
    pub page_id: i32,
    pub track_id: i32,
    pub owner: i32,
    pub created_at: String,
    pub updated_at: String,
}

/// Mathematical content of a wire user anchor.
pub ghost struct UserAnchorView {
    pub id: int,
    pub title: Seq<char>,
    pub track_time: int,
    pub position_top: int,
    pub position_left: int,
    pub page_id: int,
    pub track_id: int,
    pub owner: int,
    pub created_at: Seq<char>,
    pub updated_at: Seq<char>,
}

impl View for UserAnchor {
    type V = UserAnchorView;

    open spec fn view(&self) -> UserAnchorView {
        UserAnchorView {
            id: self.id as int,
            title: self.title@,
            track_time: self.track_time as int,
            position_top: self.position_top as int,
            position_left: self.position_left as int,
            page_id: self.page_id as int,
            track_id: self.track_id as int,
            owner: self.owner as int,
            created_at: self.created_at@,
            updated_at: self.updated_at@,
        }
    }
}

/// What the mapper owes for a user-anchor row.
pub open spec fn user_anchor_of_row(r: UserAnchorRow) -> UserAnchorView {
    UserAnchorView {
        id: r.id as int,
        title: title_or_empty(r.title),
        track_time: r.track_time as int,
        position_top: r.position_top as int,
        position_left: r.position_left as int,
        page_id: r.page_id as int,
        track_id: r.track_id as int,
        owner: r.owner as int,
        created_at: rfc3339_of(r.created_at as int),
        updated_at: rfc3339_of(r.updated_at as int),
    }
}

/// Convert a persisted user-anchor row to its wire record.
pub fn map_user_anchor(r: &UserAnchorRow) -> (a: UserAnchor)
    requires
        ts_in_range(r.created_at as int),
        ts_in_range(r.updated_at as int),
    ensures
        a@ == user_anchor_of_row(*r),
{
    UserAnchor {
        id: r.id,
        title: match &r.title {
            Some(t) => t.clone(),
            None => String::new(),
        },
        track_time: r.track_time,
        position_top: r.position_top,
        position_left: r.position_left,
        page_id: r.page_id,
        track_id: r.track_id,
        owner: r.owner,
        created_at: format_rfc3339(r.created_at),
        updated_at: format_rfc3339(r.updated_at),
    }
}

/// `out` is exactly the row list `rows` sent through the document mapper.
pub open spec fn maps_documents(rows: Seq<DocumentRow>, out: Seq<Document>) -> bool {
    &&& out.len() == rows.len()
    &&& forall|i: int| 0 <= i < rows.len() ==> (#[trigger] out[i])@ == document_of_row(rows[i])
}

/// `out` is exactly the row list `rows` sent through the page mapper.
pub open spec fn maps_pages(rows: Seq<PageRow>, out: Seq<Page>) -> bool {
    &&& out.len() == rows.len()
    &&& forall|i: int| 0 <= i < rows.len() ==> (#[trigger] out[i])@ == page_of_row(rows[i])
}

/// `out` is exactly the row list `rows` sent through the track mapper.
pub open spec fn maps_tracks(rows: Seq<TrackRow>, out: Seq<Track>) -> bool {
    &&& out.len() == rows.len()
    &&& forall|i: int| 0 <= i < rows.len() ==> (#[trigger] out[i])@ == track_of_row(rows[i])
}

/// `out` is exactly the row list `rows` sent through the bookmark mapper.
pub open spec fn maps_bookmarks(rows: Seq<BookmarkRow>, out: Seq<Bookmark>) -> bool {
    &&& out.len() == rows.len()
    &&& forall|i: int| 0 <= i < rows.len() ==> (#[trigger] out[i])@ == bookmark_of_row(rows[i])
}

/// `out` is exactly the row list `rows` sent through the anchor mapper.
pub open spec fn maps_anchors(rows: Seq<AnchorRow>, out: Seq<Anchor>) -> bool {
    &&& out.len() == rows.len()
    &&& forall|i: int| 0 <= i < rows.len() ==> (#[trigger] out[i])@ == anchor_of_row(rows[i])
}

/// `out` is exactly the row list `rows` sent through the user-anchor
/// mapper.
pub open spec fn maps_user_anchors(rows: Seq<UserAnchorRow>, out: Seq<UserAnchor>) -> bool {
    &&& out.len() == rows.len()
    &&& forall|i: int| 0 <= i < rows.len() ==> (#[trigger] out[i])@ == user_anchor_of_row(rows[i])
}

} // verus!
