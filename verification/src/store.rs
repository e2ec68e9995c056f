//! Relational store model: the six tables, their integrity invariant
//! (distinct primary keys, enforced foreign keys, representable
//! timestamps), and the mutating statements the service issues. The store
//! assigns primary keys from one ascending sequence and never reuses one.

use vstd::prelude::*;
use crate::batch::{distinct_keys, first_where, keys_below, lemma_keys_push, lemma_rows_where_all,
    lemma_rows_where_distinct, rows_where};
use crate::error::StoreError;
use crate::time::ts_in_range;

verus! {

/// A persisted course document.
pub struct DocumentRow {
    pub id: i32,
    pub title: String,
    pub created_at: i64,
    pub updated_at: i64,
}

/// A persisted page of a document.
pub struct PageRow {
    pub id: i32,
    pub page_number: i32,
    pub image_path: String,
    pub aspect_ratio: i32,
    pub height: i32,
    pub document_id: i32,
}

/// A persisted audio track of a document.
pub struct TrackRow {
    pub id: i32,
    pub track_number: i32,
    pub title: String,
    pub audio_path: String,
    pub document_id: i32,
}

/// A persisted bookmark on a page of a document.
pub struct BookmarkRow {
    pub id: i32,
    pub title: String,
    pub page_id: i32,
    pub document_id: i32,
}

/// A persisted anchor: a page- and track-time-located annotation owned by
/// the moderators, not by an individual user. Its title column is
/// nullable.
pub struct AnchorRow {
    pub id: i32,
    pub title: Option<String>,
    pub track_time: i64,
    pub position_top: i64,
    pub position_left: i64,
    pub page_id: i32,
    pub track_id: i32,
    pub created_at: i64,
    pub updated_at: i64,
}

/// A persisted user anchor: shaped like an anchor plus the id of the one
/// user that owns it, fixed at creation.
pub struct UserAnchorRow {
    pub id: i32,
    pub title: Option<String>,
    pub track_time: i64,
    pub position_top: i64,
    pub position_left: i64,
    pub page_id: i32,
    pub track_id: i32,
    pub owner: i32,
    pub created_at: i64,
    pub updated_at: i64,
}

/// Some document row carries `id`.
pub open spec fn has_document(docs: Seq<DocumentRow>, id: i32) -> bool {
    exists|i: int| 0 <= i < docs.len() && (#[trigger] docs[i]).id == id
}

/// Some page row carries `id`.
pub open spec fn has_page(pages: Seq<PageRow>, id: i32) -> bool {
    exists|i: int| 0 <= i < pages.len() && (#[trigger] pages[i]).id == id
}

/// Some track row carries `id`.
pub open spec fn has_track(tracks: Seq<TrackRow>, id: i32) -> bool {
    exists|i: int| 0 <= i < tracks.len() && (#[trigger] tracks[i]).id == id
}

/// Every document timestamp is representable.
pub open spec fn documents_ts_ok(docs: Seq<DocumentRow>) -> bool {
    forall|i: int| 0 <= i < docs.len()
        ==> ts_in_range((#[trigger] docs[i]).created_at as int)
            && ts_in_range(docs[i].updated_at as int)
}

/// Every anchor timestamp is representable.
pub open spec fn anchors_ts_ok(anchors: Seq<AnchorRow>) -> bool {
    forall|i: int| 0 <= i < anchors.len()
        ==> ts_in_range((#[trigger] anchors[i]).created_at as int)
            && ts_in_range(anchors[i].updated_at as int)
}

/// Every user-anchor timestamp is representable.
pub open spec fn user_anchors_ts_ok(anchors: Seq<UserAnchorRow>) -> bool {
    forall|i: int| 0 <= i < anchors.len()
        ==> ts_in_range((#[trigger] anchors[i]).created_at as int)
            && ts_in_range(anchors[i].updated_at as int)
}

/// Every page references an existing document.
pub open spec fn pages_fk_ok(pages: Seq<PageRow>, docs: Seq<DocumentRow>) -> bool {
    forall|i: int| 0 <= i < pages.len()
        ==> has_document(docs, (#[trigger] pages[i]).document_id)
}

/// Every track references an existing document.
pub open spec fn tracks_fk_ok(tracks: Seq<TrackRow>, docs: Seq<DocumentRow>) -> bool {
    forall|i: int| 0 <= i < tracks.len()
        ==> has_document(docs, (#[trigger] tracks[i]).document_id)
}

/// Every bookmark references an existing page and document.
pub open spec fn bookmarks_fk_ok(
    bookmarks: Seq<BookmarkRow>,
    pages: Seq<PageRow>,
    docs: Seq<DocumentRow>,
) -> bool {
    forall|i: int| 0 <= i < bookmarks.len()
        ==> has_page(pages, (#[trigger] bookmarks[i]).page_id)
            && has_document(docs, bookmarks[i].document_id)
}

/// Every anchor references an existing page and track.
pub open spec fn anchors_fk_ok(
    anchors: Seq<AnchorRow>,
    pages: Seq<PageRow>,
    tracks: Seq<TrackRow>,
) -> bool {
    forall|i: int| 0 <= i < anchors.len()
        ==> has_page(pages, (#[trigger] anchors[i]).page_id)
            && has_track(tracks, anchors[i].track_id)
}

/// Every user anchor references an existing page and track.
pub open spec fn user_anchors_fk_ok(
    anchors: Seq<UserAnchorRow>,
    pages: Seq<PageRow>,
    tracks: Seq<TrackRow>,
) -> bool {
    forall|i: int| 0 <= i < anchors.len()
        ==> has_page(pages, (#[trigger] anchors[i]).page_id)
            && has_track(tracks, anchors[i].track_id)
}

/// The source of truth: six tables and the next primary key to assign.
pub struct Store {
    pub documents: Vec<DocumentRow>,
    pub pages: Vec<PageRow>,
    pub tracks: Vec<TrackRow>,
    pub bookmarks: Vec<BookmarkRow>,
    pub anchors: Vec<AnchorRow>,
    pub user_anchors: Vec<UserAnchorRow>,
    pub next_id: i32,
}

/// `a` and `b` hold the same rows and the same key counter.
pub open spec fn same_state(a: Store, b: Store) -> bool {
    &&& a.documents@ == b.documents@
    &&& a.pages@ == b.pages@
    &&& a.tracks@ == b.tracks@
    &&& a.bookmarks@ == b.bookmarks@
    &&& a.anchors@ == b.anchors@
    &&& a.user_anchors@ == b.user_anchors@
    &&& a.next_id == b.next_id
}

impl Store {
    /// Integrity invariant: primary keys are pairwise distinct and below
    /// the key counter, foreign keys reference existing parents, and every
    /// stored timestamp is representable.
    pub open spec fn wf(self) -> bool {
        &&& distinct_keys(self.documents@, (|r: DocumentRow| r.id))
        &&& distinct_keys(self.pages@, (|r: PageRow| r.id))
        &&& distinct_keys(self.tracks@, (|r: TrackRow| r.id))
        &&& distinct_keys(self.bookmarks@, (|r: BookmarkRow| r.id))
        &&& distinct_keys(self.anchors@, (|r: AnchorRow| r.id))
        &&& distinct_keys(self.user_anchors@, (|r: UserAnchorRow| r.id))
        &&& keys_below(self.documents@, (|r: DocumentRow| r.id), self.next_id)
        &&& keys_below(self.pages@, (|r: PageRow| r.id), self.next_id)
        &&& keys_below(self.tracks@, (|r: TrackRow| r.id), self.next_id)
        &&& keys_below(self.bookmarks@, (|r: BookmarkRow| r.id), self.next_id)
        &&& keys_below(self.anchors@, (|r: AnchorRow| r.id), self.next_id)
        &&& keys_below(self.user_anchors@, (|r: UserAnchorRow| r.id), self.next_id)
        &&& documents_ts_ok(self.documents@)
        &&& anchors_ts_ok(self.anchors@)
        &&& user_anchors_ts_ok(self.user_anchors@)
        &&& pages_fk_ok(self.pages@, self.documents@)
        &&& tracks_fk_ok(self.tracks@, self.documents@)
        &&& bookmarks_fk_ok(self.bookmarks@, self.pages@, self.documents@)
        &&& anchors_fk_ok(self.anchors@, self.pages@, self.tracks@)
        &&& user_anchors_fk_ok(self.user_anchors@, self.pages@, self.tracks@)
        &&& 1 <= self.next_id
    }

    /// An empty store.
    pub fn new() -> (s: Store)
        ensures
            s.wf(),
            s.documents@.len() == 0,
            s.pages@.len() == 0,
            s.tracks@.len() == 0,
            s.bookmarks@.len() == 0,
            s.anchors@.len() == 0,
            s.user_anchors@.len() == 0,
            s.next_id == 1,
    {
        Store {
            documents: Vec::new(),
            pages: Vec::new(),
            tracks: Vec::new(),
            bookmarks: Vec::new(),
            anchors: Vec::new(),
            user_anchors: Vec::new(),
            next_id: 1,
        }
    }

    /// Whether a document with `id` exists.
    pub fn document_exists(&self, id: i32) -> (b: bool)
        ensures
            b == has_document(self.documents@, id),
    {
        let mut i: usize = 0;
        let mut found = false;
        while i < self.documents.len()
            invariant
                0 <= i <= self.documents@.len(),
                found ==> has_document(self.documents@, id),
                !found ==> forall|j: int| 0 <= j < i ==> (#[trigger] self.documents@[j]).id != id,
            decreases self.documents@.len() - i,
        {
            if self.documents[i].id == id {
                found = true;
            }
            i += 1;
        }
        found
    }

    /// Whether a page with `id` exists.
    pub fn page_exists(&self, id: i32) -> (b: bool)
        ensures
            b == has_page(self.pages@, id),
    {
        let mut i: usize = 0;
        let mut found = false;
        while i < self.pages.len()
            invariant
                0 <= i <= self.pages@.len(),
                found ==> has_page(self.pages@, id),
                !found ==> forall|j: int| 0 <= j < i ==> (#[trigger] self.pages@[j]).id != id,
            decreases self.pages@.len() - i,
        {
            if self.pages[i].id == id {
                found = true;
            }
            i += 1;
        }
        found
    }

    /// Whether a track with `id` exists.
    pub fn track_exists(&self, id: i32) -> (b: bool)
        ensures
            b == has_track(self.tracks@, id),
    {
        let mut i: usize = 0;
        let mut found = false;
        while i < self.tracks.len()
            invariant
                0 <= i <= self.tracks@.len(),
                found ==> has_track(self.tracks@, id),
                !found ==> forall|j: int| 0 <= j < i ==> (#[trigger] self.tracks@[j]).id != id,
            decreases self.tracks@.len() - i,
        {
            if self.tracks[i].id == id {
                found = true;
            }
            i += 1;
        }
        found
    }

    /// The owner of the user anchor with `id`, if such a row exists.
    pub fn user_anchor_owner(&self, id: i32) -> (r: Option<i32>)
        ensures
            r == match first_where(self.user_anchors@, (|a: UserAnchorRow| a.id == id)) {
                Some(row) => Some(row.owner),
                None => None::<i32>,
            },
    {
        proof {
            assert(self.user_anchors@.skip(0) =~= self.user_anchors@);
        }
        let mut i: usize = 0;
        while i < self.user_anchors.len()
            invariant
                0 <= i <= self.user_anchors@.len(),
                first_where(self.user_anchors@, (|a: UserAnchorRow| a.id == id))
                    == first_where(
                    self.user_anchors@.skip(i as int),
                    (|a: UserAnchorRow| a.id == id),
                ),
            decreases self.user_anchors@.len() - i,
        {
            proof {
                assert(self.user_anchors@.skip(i as int)[0] == self.user_anchors@[i as int]);
                assert(self.user_anchors@.skip(i as int).drop_first() =~= self.user_anchors@.skip(
                    i as int + 1,
                ));
            }
            if self.user_anchors[i].id == id {
                proof {
                    assert(self.user_anchors@.skip(i as int).len() > 0);
                    assert(first_where(
                        self.user_anchors@.skip(i as int),
                        (|a: UserAnchorRow| a.id == id),
                    ) == Some(self.user_anchors@[i as int]));
                }
                return Some(self.user_anchors[i].owner);
            }
            i += 1;
        }
        proof {
            assert(self.user_anchors@.skip(self.user_anchors@.len() as int).len() == 0);
        }
        None
    }

    /// Seed a document row, assigning it the next key. The store itself
    /// stamps documents, so the creation instants are taken as given.
    pub fn add_document(&mut self, title: String, created_at: i64, updated_at: i64) -> (r: Result<
        i32,
        StoreError,
    >)
        requires
            old(self).wf(),
            ts_in_range(created_at as int),
            ts_in_range(updated_at as int),
        ensures
            final(self).wf(),
            old(self).next_id == i32::MAX ==> r == Err::<i32, StoreError>(StoreError::KeysExhausted)
                && same_state(*final(self), *old(self)),
            old(self).next_id < i32::MAX ==> r == Ok::<i32, StoreError>(old(self).next_id)
                && final(self).documents@ == old(self).documents@.push(
                    (DocumentRow {
                        id: old(self).next_id,
                        title: title,
                        created_at: created_at,
                        updated_at: updated_at,
                    }))
                && final(self).pages@ == old(self).pages@
                && final(self).tracks@ == old(self).tracks@
                && final(self).bookmarks@ == old(self).bookmarks@
                && final(self).anchors@ == old(self).anchors@
                && final(self).user_anchors@ == old(self).user_anchors@
                && final(self).next_id == old(self).next_id + 1,
    {
        if self.next_id == i32::MAX {
            return Err(StoreError::KeysExhausted);
        }
        let id = self.next_id;
        let row = DocumentRow { id, title, created_at, updated_at };
        let ghost docs0 = self.documents@;
        let ghost bound0 = self.next_id;
        self.documents.push(row);
        self.next_id = self.next_id + 1;
        proof {
            lemma_keys_push(docs0, (|r: DocumentRow| r.id), row, bound0, self.next_id);
            let docs1 = self.documents@;
            assert(pages_fk_ok(self.pages@, docs1)) by {
                assert forall|i: int| 0 <= i < self.pages@.len()
                    implies has_document(docs1, (#[trigger] self.pages@[i]).document_id) by {
                    lemma_has_document_push(docs0, row, self.pages@[i].document_id);
                }
            }
            assert(tracks_fk_ok(self.tracks@, docs1)) by {
                assert forall|i: int| 0 <= i < self.tracks@.len()
                    implies has_document(docs1, (#[trigger] self.tracks@[i]).document_id) by {
                    lemma_has_document_push(docs0, row, self.tracks@[i].document_id);
                }
            }
            assert(bookmarks_fk_ok(self.bookmarks@, self.pages@, docs1)) by {
                assert forall|i: int| 0 <= i < self.bookmarks@.len()
                    implies has_page(self.pages@, (#[trigger] self.bookmarks@[i]).page_id)
                        && has_document(docs1, self.bookmarks@[i].document_id) by {
                    lemma_has_document_push(docs0, row, self.bookmarks@[i].document_id);
                }
            }
            assert(documents_ts_ok(docs1)) by {
                assert forall|i: int| 0 <= i < docs1.len()
                    implies ts_in_range((#[trigger] docs1[i]).created_at as int)
                        && ts_in_range(docs1[i].updated_at as int) by {
                    if i < docs0.len() {
                        assert(docs1[i] == docs0[i]);
                    }
                }
            }
        }
        Ok(id)
    }

    /// Seed a page row under an existing document, assigning it the next
    /// key.
    pub fn add_page(
        &mut self,
        document_id: i32,
        page_number: i32,
        image_path: String,
        aspect_ratio: i32,
        height: i32,
    ) -> (r: Result<i32, StoreError>)
        requires
            old(self).wf(),
        ensures
            final(self).wf(),
            !has_document(old(self).documents@, document_id) ==> r == Err::<i32, StoreError>(
                StoreError::ForeignKeyViolation,
            ) && same_state(*final(self), *old(self)),
            has_document(old(self).documents@, document_id) && old(self).next_id == i32::MAX
                ==> r == Err::<i32, StoreError>(StoreError::KeysExhausted)
                && same_state(*final(self), *old(self)),
            has_document(old(self).documents@, document_id) && old(self).next_id < i32::MAX
                ==> r == Ok::<i32, StoreError>(old(self).next_id)
                && final(self).pages@ == old(self).pages@.push(
                    (PageRow {
                        id: old(self).next_id,
                        page_number: page_number,
                        image_path: image_path,
                        aspect_ratio: aspect_ratio,
                        height: height,
                        document_id: document_id,
                    }))
                && final(self).documents@ == old(self).documents@
                && final(self).tracks@ == old(self).tracks@
                && final(self).bookmarks@ == old(self).bookmarks@
                && final(self).anchors@ == old(self).anchors@
                && final(self).user_anchors@ == old(self).user_anchors@
                && final(self).next_id == old(self).next_id + 1,
    {
        if !self.document_exists(document_id) {
            return Err(StoreError::ForeignKeyViolation);
        }
        if self.next_id == i32::MAX {
            return Err(StoreError::KeysExhausted);
        }
        let id = self.next_id;
        let row = PageRow { id, page_number, image_path, aspect_ratio, height, document_id };
        let ghost pages0 = self.pages@;
        let ghost bound0 = self.next_id;
        self.pages.push(row);
        self.next_id = self.next_id + 1;
        proof {
            lemma_keys_push(pages0, (|r: PageRow| r.id), row, bound0, self.next_id);
            let pages1 = self.pages@;
            assert(pages_fk_ok(pages1, self.documents@)) by {
                assert forall|i: int| 0 <= i < pages1.len()
                    implies has_document(self.documents@, (#[trigger] pages1[i]).document_id) by {
                    if i < pages0.len() {
                        assert(pages1[i] == pages0[i]);
                    }
                }
            }
            assert(bookmarks_fk_ok(self.bookmarks@, pages1, self.documents@)) by {
                assert forall|i: int| 0 <= i < self.bookmarks@.len()
                    implies has_page(pages1, (#[trigger] self.bookmarks@[i]).page_id)
                        && has_document(self.documents@, self.bookmarks@[i].document_id) by {
                    lemma_has_page_push(pages0, row, self.bookmarks@[i].page_id);
                }
            }
            assert(anchors_fk_ok(self.anchors@, pages1, self.tracks@)) by {
                assert forall|i: int| 0 <= i < self.anchors@.len()
                    implies has_page(pages1, (#[trigger] self.anchors@[i]).page_id)
                        && has_track(self.tracks@, self.anchors@[i].track_id) by {
                    lemma_has_page_push(pages0, row, self.anchors@[i].page_id);
                }
            }
            assert(user_anchors_fk_ok(self.user_anchors@, pages1, self.tracks@)) by {
                assert forall|i: int| 0 <= i < self.user_anchors@.len()
                    implies has_page(pages1, (#[trigger] self.user_anchors@[i]).page_id)
                        && has_track(self.tracks@, self.user_anchors@[i].track_id) by {
                    lemma_has_page_push(pages0, row, self.user_anchors@[i].page_id);
                }
            }
        }
        Ok(id)
    }

    /// Seed a track row under an existing document, assigning it the next
    /// key.
    pub fn add_track(
        &mut self,
        document_id: i32,
        track_number: i32,
        title: String,
        audio_path: String,
    ) -> (r: Result<i32, StoreError>)
        requires
            old(self).wf(),
        ensures
            final(self).wf(),
            !has_document(old(self).documents@, document_id) ==> r == Err::<i32, StoreError>(
                StoreError::ForeignKeyViolation,
            ) && same_state(*final(self), *old(self)),
            has_document(old(self).documents@, document_id) && old(self).next_id == i32::MAX
                ==> r == Err::<i32, StoreError>(StoreError::KeysExhausted)
                && same_state(*final(self), *old(self)),
            has_document(old(self).documents@, document_id) && old(self).next_id < i32::MAX
                ==> r == Ok::<i32, StoreError>(old(self).next_id)
                && final(self).tracks@ == old(self).tracks@.push(
                    (TrackRow {
                        id: old(self).next_id,
                        track_number: track_number,
                        title: title,
                        audio_path: audio_path,
                        document_id: document_id,
                    }))
                && final(self).documents@ == old(self).documents@
                && final(self).pages@ == old(self).pages@
                && final(self).bookmarks@ == old(self).bookmarks@
                && final(self).anchors@ == old(self).anchors@
                && final(self).user_anchors@ == old(self).user_anchors@
                && final(self).next_id == old(self).next_id + 1,
    {
        if !self.document_exists(document_id) {
            return Err(StoreError::ForeignKeyViolation);
        }
        if self.next_id == i32::MAX {
            return Err(StoreError::KeysExhausted);
        }
        let id = self.next_id;
        let row = TrackRow { id, track_number, title, audio_path, document_id };
        let ghost tracks0 = self.tracks@;
        let ghost bound0 = self.next_id;
        self.tracks.push(row);
        self.next_id = self.next_id + 1;
        proof {
            lemma_keys_push(tracks0, (|r: TrackRow| r.id), row, bound0, self.next_id);
            let tracks1 = self.tracks@;
            assert(tracks_fk_ok(tracks1, self.documents@)) by {
                assert forall|i: int| 0 <= i < tracks1.len()
                    implies has_document(self.documents@, (#[trigger] tracks1[i]).document_id) by {
                    if i < tracks0.len() {
                        assert(tracks1[i] == tracks0[i]);
                    }
                }
            }
            assert(anchors_fk_ok(self.anchors@, self.pages@, tracks1)) by {
                assert forall|i: int| 0 <= i < self.anchors@.len()
                    implies has_page(self.pages@, (#[trigger] self.anchors@[i]).page_id)
                        && has_track(tracks1, self.anchors@[i].track_id) by {
                    lemma_has_track_push(tracks0, row, self.anchors@[i].track_id);
                }
            }
            assert(user_anchors_fk_ok(self.user_anchors@, self.pages@, tracks1)) by {
                assert forall|i: int| 0 <= i < self.user_anchors@.len()
                    implies has_page(self.pages@, (#[trigger] self.user_anchors@[i]).page_id)
                        && has_track(tracks1, self.user_anchors@[i].track_id) by {
                    lemma_has_track_push(tracks0, row, self.user_anchors@[i].track_id);
                }
            }
        }
        Ok(id)
    }

    /// Insert a bookmark row under an existing page and document,
    /// assigning it the next key. This is the one statement the
    /// bookmark-creation operation issues.
    pub fn insert_bookmark(&mut self, title: String, page_id: i32, document_id: i32) -> (r: Result<
        (),
        StoreError,
    >)
        requires
            old(self).wf(),
        ensures
            final(self).wf(),
            !(has_page(old(self).pages@, page_id) && has_document(
                old(self).documents@,
                document_id,
            )) ==> r == Err::<(), StoreError>(StoreError::ForeignKeyViolation)
                && same_state(*final(self), *old(self)),
            has_page(old(self).pages@, page_id) && has_document(old(self).documents@, document_id)
                && old(self).next_id == i32::MAX ==> r == Err::<(), StoreError>(
                StoreError::KeysExhausted,
            ) && same_state(*final(self), *old(self)),
            has_page(old(self).pages@, page_id) && has_document(old(self).documents@, document_id)
                && old(self).next_id < i32::MAX ==> r == Ok::<(), StoreError>(())
                && final(self).bookmarks@ == old(self).bookmarks@.push(
                    (BookmarkRow {
                        id: old(self).next_id,
                        title: title,
                        page_id: page_id,
                        document_id: document_id,
                    }))
                && final(self).documents@ == old(self).documents@
                && final(self).pages@ == old(self).pages@
                && final(self).tracks@ == old(self).tracks@
                && final(self).anchors@ == old(self).anchors@
                && final(self).user_anchors@ == old(self).user_anchors@
                && final(self).next_id == old(self).next_id + 1,
    {
        if !(self.page_exists(page_id) && self.document_exists(document_id)) {
            return Err(StoreError::ForeignKeyViolation);
        }
        if self.next_id == i32::MAX {
            return Err(StoreError::KeysExhausted);
        }
        let id = self.next_id;
        let row = BookmarkRow { id, title, page_id, document_id };
        let ghost rows0 = self.bookmarks@;
        let ghost bound0 = self.next_id;
        self.bookmarks.push(row);
        self.next_id = self.next_id + 1;
        proof {
            lemma_keys_push(rows0, (|r: BookmarkRow| r.id), row, bound0, self.next_id);
            let rows1 = self.bookmarks@;
            assert(bookmarks_fk_ok(rows1, self.pages@, self.documents@)) by {
                assert forall|i: int| 0 <= i < rows1.len()
                    implies has_page(self.pages@, (#[trigger] rows1[i]).page_id)
                        && has_document(self.documents@, rows1[i].document_id) by {
                    if i < rows0.len() {
                        assert(rows1[i] == rows0[i]);
                    }
                }
            }
        }
        Ok(())
    }

    /// Insert an anchor row under an existing page and track, assigning it
    /// the next key. The creation instants are set by the service, not
    /// here, and arrive as arguments.
    pub fn insert_anchor(
        &mut self,
        title: Option<String>,
        track_time: i64,
        position_top: i64,
        position_left: i64,
        page_id: i32,
        track_id: i32,
        created_at: i64,
        updated_at: i64,
    ) -> (r: Result<(), StoreError>)
        requires
            old(self).wf(),
            ts_in_range(created_at as int),
            ts_in_range(updated_at as int),
        ensures
            final(self).wf(),
            !(has_page(old(self).pages@, page_id) && has_track(old(self).tracks@, track_id))
                ==> r == Err::<(), StoreError>(StoreError::ForeignKeyViolation)
                && same_state(*final(self), *old(self)),
            has_page(old(self).pages@, page_id) && has_track(old(self).tracks@, track_id)
                && old(self).next_id == i32::MAX ==> r == Err::<(), StoreError>(
                StoreError::KeysExhausted,
            ) && same_state(*final(self), *old(self)),
            has_page(old(self).pages@, page_id) && has_track(old(self).tracks@, track_id)
                && old(self).next_id < i32::MAX ==> r == Ok::<(), StoreError>(())
                && final(self).anchors@ == old(self).anchors@.push(
                    (AnchorRow {
                        id: old(self).next_id,
                        title: title,
                        track_time: track_time,
                        position_top: position_top,
                        position_left: position_left,
                        page_id: page_id,
                        track_id: track_id,
                        created_at: created_at,
                        updated_at: updated_at,
                    }))
                && final(self).documents@ == old(self).documents@
                && final(self).pages@ == old(self).pages@
                && final(self).tracks@ == old(self).tracks@
                && final(self).bookmarks@ == old(self).bookmarks@
                && final(self).user_anchors@ == old(self).user_anchors@
                && final(self).next_id == old(self).next_id + 1,
    {
        if !(self.page_exists(page_id) && self.track_exists(track_id)) {
            return Err(StoreError::ForeignKeyViolation);
        }
        if self.next_id == i32::MAX {
            return Err(StoreError::KeysExhausted);
        }
        let id = self.next_id;
        let row = AnchorRow {
            id,
            title,
            track_time,
            position_top,
            position_left,
            page_id,
            track_id,
            created_at,
            updated_at,
        };
        let ghost rows0 = self.anchors@;
        let ghost bound0 = self.next_id;
        self.anchors.push(row);
        self.next_id = self.next_id + 1;
        proof {
            lemma_keys_push(rows0, (|r: AnchorRow| r.id), row, bound0, self.next_id);
            let rows1 = self.anchors@;
            assert(anchors_fk_ok(rows1, self.pages@, self.tracks@)) by {
                assert forall|i: int| 0 <= i < rows1.len()
                    implies has_page(self.pages@, (#[trigger] rows1[i]).page_id)
                        && has_track(self.tracks@, rows1[i].track_id) by {
                    if i < rows0.len() {
                        assert(rows1[i] == rows0[i]);
                    }
                }
            }
            assert(anchors_ts_ok(rows1)) by {
                assert forall|i: int| 0 <= i < rows1.len()
                    implies ts_in_range((#[trigger] rows1[i]).created_at as int)
                        && ts_in_range(rows1[i].updated_at as int) by {
                    if i < rows0.len() {
                        assert(rows1[i] == rows0[i]);
                    }
                }
            }
        }
        Ok(())
    }

    /// Insert a user-anchor row under an existing page and track, owned by
    /// `owner`, assigning it the next key.
    pub fn insert_user_anchor(
        &mut self,
        title: Option<String>,
        track_time: i64,
        position_top: i64,
        position_left: i64,
        page_id: i32,
        track_id: i32,
        owner: i32,
        created_at: i64,
        updated_at: i64,
    ) -> (r: Result<(), StoreError>)
        requires
            old(self).wf(),
            ts_in_range(created_at as int),
            ts_in_range(updated_at as int),
        ensures
            final(self).wf(),
            !(has_page(old(self).pages@, page_id) && has_track(old(self).tracks@, track_id))
                ==> r == Err::<(), StoreError>(StoreError::ForeignKeyViolation)
                && same_state(*final(self), *old(self)),
            has_page(old(self).pages@, page_id) && has_track(old(self).tracks@, track_id)
                && old(self).next_id == i32::MAX ==> r == Err::<(), StoreError>(
                StoreError::KeysExhausted,
            ) && same_state(*final(self), *old(self)),
            has_page(old(self).pages@, page_id) && has_track(old(self).tracks@, track_id)
                && old(self).next_id < i32::MAX ==> r == Ok::<(), StoreError>(())
                && final(self).user_anchors@ == old(self).user_anchors@.push(
                    (UserAnchorRow {
                        id: old(self).next_id,
                        title: title,
                        track_time: track_time,
                        position_top: position_top,
                        position_left: position_left,
                        page_id: page_id,
                        track_id: track_id,
                        owner: owner,
                        created_at: created_at,
                        updated_at: updated_at,
                    }))
                && final(self).documents@ == old(self).documents@
                && final(self).pages@ == old(self).pages@
                && final(self).tracks@ == old(self).tracks@
                && final(self).bookmarks@ == old(self).bookmarks@
                && final(self).anchors@ == old(self).anchors@
                && final(self).next_id == old(self).next_id + 1,
    {
        if !(self.page_exists(page_id) && self.track_exists(track_id)) {
            return Err(StoreError::ForeignKeyViolation);
        }
        if self.next_id == i32::MAX {
            return Err(StoreError::KeysExhausted);
        }
        let id = self.next_id;
        let row = UserAnchorRow {
            id,
            title,
            track_time,
            position_top,
            position_left,
            page_id,
            track_id,
            owner,
            created_at,
            updated_at,
        };
        let ghost rows0 = self.user_anchors@;
        let ghost bound0 = self.next_id;
        self.user_anchors.push(row);
        self.next_id = self.next_id + 1;
        proof {
            lemma_keys_push(rows0, (|r: UserAnchorRow| r.id), row, bound0, self.next_id);
            let rows1 = self.user_anchors@;
            assert(user_anchors_fk_ok(rows1, self.pages@, self.tracks@)) by {
                assert forall|i: int| 0 <= i < rows1.len()
                    implies has_page(self.pages@, (#[trigger] rows1[i]).page_id)
                        && has_track(self.tracks@, rows1[i].track_id) by {
                    if i < rows0.len() {
                        assert(rows1[i] == rows0[i]);
                    }
                }
            }
            assert(user_anchors_ts_ok(rows1)) by {
                assert forall|i: int| 0 <= i < rows1.len()
                    implies ts_in_range((#[trigger] rows1[i]).created_at as int)
                        && ts_in_range(rows1[i].updated_at as int) by {
                    if i < rows0.len() {
                        assert(rows1[i] == rows0[i]);
                    }
                }
            }
        }
        Ok(())
    }

    /// Delete the bookmark with `id`, physically. Deleting a missing row
    /// deletes nothing and is no error.
    pub fn delete_bookmark_row(&mut self, id: i32)
        requires
            old(self).wf(),
        ensures
            final(self).wf(),
            final(self).bookmarks@ == rows_where(
                old(self).bookmarks@,
                (|b: BookmarkRow| b.id != id),
            ),
            final(self).documents@ == old(self).documents@,
            final(self).pages@ == old(self).pages@,
            final(self).tracks@ == old(self).tracks@,
            final(self).anchors@ == old(self).anchors@,
            final(self).user_anchors@ == old(self).user_anchors@,
            final(self).next_id == old(self).next_id,
    {
        let ghost pages_v = self.pages@;
        let ghost docs_v = self.documents@;
        let ghost bound = self.next_id;
        let mut rows: Vec<BookmarkRow> = Vec::new();
        core::mem::swap(&mut rows, &mut self.bookmarks);
        let ghost orig = rows@;
        let mut kept: Vec<BookmarkRow> = Vec::new();
        let ghost done: int = 0;
        while rows.len() > 0
            invariant
                0 <= done <= orig.len(),
                rows@ == orig.subrange(done, orig.len() as int),
                kept@ == rows_where(orig.subrange(0, done), (|b: BookmarkRow| b.id != id)),
            decreases rows.len(),
        {
            let ghost prefix = orig.subrange(0, done);
            let ghost next_prefix = orig.subrange(0, done + 1);
            let b = rows.remove(0);
            proof {
                assert(orig[done] == b);
                assert(next_prefix.drop_last() =~= prefix);
                assert(next_prefix.last() == b);
                assert(rows@ =~= orig.subrange(done + 1, orig.len() as int));
            }
            if b.id != id {
                kept.push(b);
            }
            proof {
                done = done + 1;
            }
        }
        proof {
            assert(orig.subrange(0, orig.len() as int) =~= orig);
        }
        core::mem::swap(&mut self.bookmarks, &mut kept);
        proof {
            let pred = (|b: BookmarkRow| b.id != id);
            let key = (|r: BookmarkRow| r.id);
            lemma_rows_where_distinct(orig, pred, key);
            let filtered = rows_where(orig, pred);
            assert(keys_below(filtered, key, bound)) by {
                lemma_rows_where_all(orig, pred, (|r: BookmarkRow| r.id < bound));
                assert forall|i: int| 0 <= i < filtered.len()
                    implies key(#[trigger] filtered[i]) < bound by {
                    assert((|r: BookmarkRow| r.id < bound)(filtered[i]));
                }
            }
            assert(bookmarks_fk_ok(filtered, pages_v, docs_v)) by {
                lemma_rows_where_all(
                    orig,
                    pred,
                    (|r: BookmarkRow| has_page(pages_v, r.page_id) && has_document(
                        docs_v,
                        r.document_id,
                    )),
                );
                assert forall|i: int| 0 <= i < filtered.len()
                    implies has_page(pages_v, (#[trigger] filtered[i]).page_id) && has_document(
                    docs_v,
                    filtered[i].document_id,
                ) by {
                    assert((|r: BookmarkRow| has_page(pages_v, r.page_id) && has_document(
                        docs_v,
                        r.document_id,
                    ))(filtered[i]));
                }
            }
        }
    }

    /// Delete the anchor with `id`, physically. Deleting a missing row
    /// deletes nothing and is no error.
    pub fn delete_anchor_row(&mut self, id: i32)
        requires
            old(self).wf(),
        ensures
            final(self).wf(),
            final(self).anchors@ == rows_where(old(self).anchors@, (|a: AnchorRow| a.id != id)),
            final(self).documents@ == old(self).documents@,
            final(self).pages@ == old(self).pages@,
            final(self).tracks@ == old(self).tracks@,
            final(self).bookmarks@ == old(self).bookmarks@,
            final(self).user_anchors@ == old(self).user_anchors@,
            final(self).next_id == old(self).next_id,
    {
        let ghost pages_v = self.pages@;
        let ghost tracks_v = self.tracks@;
        let ghost bound = self.next_id;
        let mut rows: Vec<AnchorRow> = Vec::new();
        core::mem::swap(&mut rows, &mut self.anchors);
        let ghost orig = rows@;
        let mut kept: Vec<AnchorRow> = Vec::new();
        let ghost done: int = 0;
        while rows.len() > 0
            invariant
                0 <= done <= orig.len(),
                rows@ == orig.subrange(done, orig.len() as int),
                kept@ == rows_where(orig.subrange(0, done), (|a: AnchorRow| a.id != id)),
            decreases rows.len(),
        {
            let ghost prefix = orig.subrange(0, done);
            let ghost next_prefix = orig.subrange(0, done + 1);
            let a = rows.remove(0);
            proof {
                assert(orig[done] == a);
                assert(next_prefix.drop_last() =~= prefix);
                assert(next_prefix.last() == a);
                assert(rows@ =~= orig.subrange(done + 1, orig.len() as int));
            }
            if a.id != id {
                kept.push(a);
            }
            proof {
                done = done + 1;
            }
        }
        proof {
            assert(orig.subrange(0, orig.len() as int) =~= orig);
        }
        core::mem::swap(&mut self.anchors, &mut kept);
        proof {
            let pred = (|a: AnchorRow| a.id != id);
            let key = (|r: AnchorRow| r.id);
            lemma_rows_where_distinct(orig, pred, key);
            let filtered = rows_where(orig, pred);
            assert(keys_below(filtered, key, bound)) by {
                lemma_rows_where_all(orig, pred, (|r: AnchorRow| r.id < bound));
                assert forall|i: int| 0 <= i < filtered.len()
                    implies key(#[trigger] filtered[i]) < bound by {
                    assert((|r: AnchorRow| r.id < bound)(filtered[i]));
                }
            }
            assert(anchors_fk_ok(filtered, pages_v, tracks_v)) by {
                lemma_rows_where_all(
                    orig,
                    pred,
                    (|r: AnchorRow| has_page(pages_v, r.page_id) && has_track(
                        tracks_v,
                        r.track_id,
                    )),
                );
                assert forall|i: int| 0 <= i < filtered.len()
                    implies has_page(pages_v, (#[trigger] filtered[i]).page_id) && has_track(
                    tracks_v,
                    filtered[i].track_id,
                ) by {
                    assert((|r: AnchorRow| has_page(pages_v, r.page_id) && has_track(
                        tracks_v,
                        r.track_id,
                    ))(filtered[i]));
                }
            }
            assert(anchors_ts_ok(filtered)) by {
                lemma_rows_where_all(
                    orig,
                    pred,
                    (|r: AnchorRow| ts_in_range(r.created_at as int) && ts_in_range(
                        r.updated_at as int,
                    )),
                );
                assert forall|i: int| 0 <= i < filtered.len()
                    implies ts_in_range((#[trigger] filtered[i]).created_at as int) && ts_in_range(
                    filtered[i].updated_at as int,
                ) by {
                    assert((|r: AnchorRow| ts_in_range(r.created_at as int) && ts_in_range(
                        r.updated_at as int,
                    ))(filtered[i]));
                }
            }
        }
    }

    /// Delete the user anchor with `id`, physically. Deleting a missing
    /// row deletes nothing and is no error.
    pub fn delete_user_anchor_row(&mut self, id: i32)
        requires
            old(self).wf(),
        ensures
            final(self).wf(),
            final(self).user_anchors@ == rows_where(
                old(self).user_anchors@,
                (|a: UserAnchorRow| a.id != id),
            ),
            final(self).documents@ == old(self).documents@,
            final(self).pages@ == old(self).pages@,
            final(self).tracks@ == old(self).tracks@,
            final(self).bookmarks@ == old(self).bookmarks@,
            final(self).anchors@ == old(self).anchors@,
            final(self).next_id == old(self).next_id,
    {
        let ghost pages_v = self.pages@;
        let ghost tracks_v = self.tracks@;
        let ghost bound = self.next_id;
        let mut rows: Vec<UserAnchorRow> = Vec::new();
        core::mem::swap(&mut rows, &mut self.user_anchors);
        let ghost orig = rows@;
        let mut kept: Vec<UserAnchorRow> = Vec::new();
        let ghost done: int = 0;
        while rows.len() > 0
            invariant
                0 <= done <= orig.len(),
                rows@ == orig.subrange(done, orig.len() as int),
                kept@ == rows_where(orig.subrange(0, done), (|a: UserAnchorRow| a.id != id)),
            decreases rows.len(),
        {
            let ghost prefix = orig.subrange(0, done);
            let ghost next_prefix = orig.subrange(0, done + 1);
            let a = rows.remove(0);
            proof {
                assert(orig[done] == a);
                assert(next_prefix.drop_last() =~= prefix);
                assert(next_prefix.last() == a);
                assert(rows@ =~= orig.subrange(done + 1, orig.len() as int));
            }
            if a.id != id {
                kept.push(a);
            }
            proof {
                done = done + 1;
            }
        }
        proof {
            assert(orig.subrange(0, orig.len() as int) =~= orig);
        }
        core::mem::swap(&mut self.user_anchors, &mut kept);
        proof {
            let pred = (|a: UserAnchorRow| a.id != id);
            let key = (|r: UserAnchorRow| r.id);
            lemma_rows_where_distinct(orig, pred, key);
            let filtered = rows_where(orig, pred);
            assert(keys_below(filtered, key, bound)) by {
                lemma_rows_where_all(orig, pred, (|r: UserAnchorRow| r.id < bound));
                assert forall|i: int| 0 <= i < filtered.len()
                    implies key(#[trigger] filtered[i]) < bound by {
                    assert((|r: UserAnchorRow| r.id < bound)(filtered[i]));
                }
            }
            assert(user_anchors_fk_ok(filtered, pages_v, tracks_v)) by {
                lemma_rows_where_all(
                    orig,
                    pred,
                    (|r: UserAnchorRow| has_page(pages_v, r.page_id) && has_track(
                        tracks_v,
                        r.track_id,
                    )),
                );
                assert forall|i: int| 0 <= i < filtered.len()
                    implies has_page(pages_v, (#[trigger] filtered[i]).page_id) && has_track(
                    tracks_v,
                    filtered[i].track_id,
                ) by {
                    assert((|r: UserAnchorRow| has_page(pages_v, r.page_id) && has_track(
                        tracks_v,
                        r.track_id,
                    ))(filtered[i]));
                }
            }
            assert(user_anchors_ts_ok(filtered)) by {
                lemma_rows_where_all(
                    orig,
                    pred,
                    (|r: UserAnchorRow| ts_in_range(r.created_at as int) && ts_in_range(
                        r.updated_at as int,
                    )),
                );
                assert forall|i: int| 0 <= i < filtered.len()
                    implies ts_in_range((#[trigger] filtered[i]).created_at as int) && ts_in_range(
                    filtered[i].updated_at as int,
                ) by {
                    assert((|r: UserAnchorRow| ts_in_range(r.created_at as int) && ts_in_range(
                        r.updated_at as int,
                    ))(filtered[i]));
                }
            }
        }
    }

    /// Set the title of the track with `id` and report the index of the
    /// updated row; an operation that expects exactly one row fails closed
    /// when none matches.
    pub fn update_track_row(&mut self, id: i32, title: String) -> (r: Result<usize, StoreError>)
        requires
            old(self).wf(),
        ensures
            final(self).wf(),
            first_where(old(self).tracks@, (|t: TrackRow| t.id == id)) is None ==> r == Err::<
                usize,
                StoreError,
            >(StoreError::RowNotFound) && same_state(*final(self), *old(self)),
            first_where(old(self).tracks@, (|t: TrackRow| t.id == id)) matches Some(t0)
                ==> r matches Ok(j) && 0 <= j < old(self).tracks@.len()
                && old(self).tracks@[j as int] == t0
                && final(self).tracks@ == old(self).tracks@.update(
                    j as int,
                    (TrackRow {
                        id: t0.id,
                        track_number: t0.track_number,
                        title: title,
                        audio_path: t0.audio_path,
                        document_id: t0.document_id,
                    }),
                )
                && final(self).documents@ == old(self).documents@
                && final(self).pages@ == old(self).pages@
                && final(self).bookmarks@ == old(self).bookmarks@
                && final(self).anchors@ == old(self).anchors@
                && final(self).user_anchors@ == old(self).user_anchors@
                && final(self).next_id == old(self).next_id,
    {
        proof {
            assert(self.tracks@.skip(0) =~= self.tracks@);
        }
        let mut i: usize = 0;
        while i < self.tracks.len()
            invariant
                0 <= i <= self.tracks@.len(),
                same_state(*self, *old(self)),
                self.wf(),
                first_where(self.tracks@, (|t: TrackRow| t.id == id)) == first_where(
                    self.tracks@.skip(i as int),
                    (|t: TrackRow| t.id == id),
                ),
            decreases self.tracks@.len() - i,
        {
            let ghost tracks0 = self.tracks@;
            proof {
                assert(self.tracks@.skip(i as int)[0] == self.tracks@[i as int]);
                assert(self.tracks@.skip(i as int).drop_first() =~= self.tracks@.skip(
                    i as int + 1,
                ));
            }
            if self.tracks[i].id == id {
                proof {
                    assert(self.tracks@.skip(i as int).len() > 0);
                    assert(first_where(self.tracks@.skip(i as int), (|t: TrackRow| t.id == id))
                        == Some(self.tracks@[i as int]));
                }
                let ghost t0 = self.tracks@[i as int];
                let mut row = self.tracks.remove(i);
                row.title = title;
                let ghost row_g = row;
                self.tracks.insert(i, row);
                proof {
                    let tracks1 = self.tracks@;
                    assert(tracks1 =~= tracks0.update(i as int, row_g));
                    let key = (|r: TrackRow| r.id);
                    assert(distinct_keys(tracks1, key)) by {
                        assert forall|a: int, b: int|
                            0 <= a < b < tracks1.len()
                            implies key(#[trigger] tracks1[a]) != key(#[trigger] tracks1[b]) by {
                            assert(key(tracks0[a]) != key(tracks0[b]));
                        }
                    }
                    assert(keys_below(tracks1, key, self.next_id)) by {
                        assert forall|a: int| 0 <= a < tracks1.len()
                            implies key(#[trigger] tracks1[a]) < self.next_id by {
                            assert(key(tracks0[a]) < self.next_id);
                        }
                    }
                    assert(tracks_fk_ok(tracks1, self.documents@)) by {
                        assert forall|a: int| 0 <= a < tracks1.len()
                            implies has_document(
                            self.documents@,
                            (#[trigger] tracks1[a]).document_id,
                        ) by {
                            assert(has_document(self.documents@, tracks0[a].document_id));
                        }
                    }
                    assert(anchors_fk_ok(self.anchors@, self.pages@, tracks1)) by {
                        assert forall|a: int| 0 <= a < self.anchors@.len()
                            implies has_page(self.pages@, (#[trigger] self.anchors@[a]).page_id)
                                && has_track(tracks1, self.anchors@[a].track_id) by {
                            lemma_has_track_update(tracks0, i as int, row_g, self.anchors@[a].track_id);
                        }
                    }
                    assert(user_anchors_fk_ok(self.user_anchors@, self.pages@, tracks1)) by {
                        assert forall|a: int| 0 <= a < self.user_anchors@.len()
                            implies has_page(self.pages@, (#[trigger] self.user_anchors@[a]).page_id)
                                && has_track(tracks1, self.user_anchors@[a].track_id) by {
                            lemma_has_track_update(
                                tracks0,
                                i as int,
                                row_g,
                                self.user_anchors@[a].track_id,
                            );
                        }
                    }
                }
                return Ok(i);
            }
            i += 1;
        }
        proof {
            assert(self.tracks@.skip(self.tracks@.len() as int).len() == 0);
        }
        Err(StoreError::RowNotFound)
    }
}

/// A document found among `docs` is still found after a push.
proof fn lemma_has_document_push(docs: Seq<DocumentRow>, row: DocumentRow, id: i32)
    requires
        has_document(docs, id),
    ensures
        has_document(docs.push(row), id),
{
    let i = choose|i: int| 0 <= i < docs.len() && (#[trigger] docs[i]).id == id;
    assert(docs.push(row)[i] == docs[i]);
}

/// A page found among `pages` is still found after a push.
proof fn lemma_has_page_push(pages: Seq<PageRow>, row: PageRow, id: i32)
    requires
        has_page(pages, id),
    ensures
        has_page(pages.push(row), id),
{
    let i = choose|i: int| 0 <= i < pages.len() && (#[trigger] pages[i]).id == id;
    assert(pages.push(row)[i] == pages[i]);
}

/// A track found among `tracks` is still found after a push.
proof fn lemma_has_track_push(tracks: Seq<TrackRow>, row: TrackRow, id: i32)
    requires
        has_track(tracks, id),
    ensures
        has_track(tracks.push(row), id),
{
    let i = choose|i: int| 0 <= i < tracks.len() && (#[trigger] tracks[i]).id == id;
    assert(tracks.push(row)[i] == tracks[i]);
}

/// A track found among `tracks` is still found after a row is replaced by
/// one carrying the same key.
proof fn lemma_has_track_update(tracks: Seq<TrackRow>, j: int, row: TrackRow, id: i32)
    requires
        0 <= j < tracks.len(),
        row.id == tracks[j].id,
        has_track(tracks, id),
    ensures
        has_track(tracks.update(j, row), id),
{
    let i = choose|i: int| 0 <= i < tracks.len() && (#[trigger] tracks[i]).id == id;
    if i == j {
        assert(tracks.update(j, row)[j] == row);
    } else {
        assert(tracks.update(j, row)[i] == tracks[i]);
    }
}

} // verus!
