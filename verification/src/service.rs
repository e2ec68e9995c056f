//! RPC service facade: one operation per request. Reads go straight to
//! the store model and through the entity mapper; mutations first consult
//! the authorization policy, then issue one store statement (two for
//! deleting a user anchor, which must resolve the owner first), and either
//! fully succeed or fail with one clear denial or store failure.

use vstd::prelude::*;
use crate::auth::{caller_elevated, decide, decision_of, is_authenticated, Action, Caller, Decision,
    DenyReason};
use crate::batch::{contains_id, distinct_keys, first_where, group_pairs,
    lemma_batch_by_ids_bounded, lemma_first_where_some, lemma_page_of_push,
    lemma_rows_where_empty, lemma_rows_where_membership, page_of, rows_where, values_for};
use crate::entity::{anchor_of_row, bookmark_of_row, map_anchor, map_bookmark,
    map_document, map_page, map_track, map_user_anchor, maps_anchors, maps_bookmarks,
    maps_documents, maps_pages, maps_tracks, maps_user_anchors, track_of_row, user_anchor_of_row,
    Anchor, Bookmark, Document, Page, Track, UserAnchor};
use crate::error::{ServiceError, StoreError};
use crate::store::{has_document, has_page, has_track, same_state, AnchorRow, BookmarkRow,
    DocumentRow, PageRow, Store, TrackRow, UserAnchorRow};
use crate::time::{now_timestamp, ts_in_range};

verus! {

/// A page of documents plus the number of rows returned. `total` counts
/// the rows in this response, not the whole table: a list-style read
/// reports what it saw, a known, accepted limitation.
pub struct DocumentList {
    pub total: usize,
    pub documents: Vec<Document>,
}

/// A page of pages plus the number of rows returned.
pub struct PageList {
    pub total: usize,
    pub pages: Vec<Page>,
}

/// A page of tracks plus the number of rows returned.
pub struct TrackList {
    pub total: usize,
    pub tracks: Vec<Track>,
}

/// A page of bookmarks plus the number of rows returned.
pub struct BookmarkList {
    pub total: usize,
    pub bookmarks: Vec<Bookmark>,
}

/// The courses-domain service: the store model it answers from, and one
/// method per operation of the RPC surface.
pub struct CoursesService {
    pub store: Store,
}

impl CoursesService {
    /// The service is usable while its store is well-formed.
    pub open spec fn wf(self) -> bool {
        self.store.wf()
    }

    /// Wrap a store.
    pub fn new(store: Store) -> (s: CoursesService)
        requires
            store.wf(),
        ensures
            s.wf(),
            same_state(s.store, store),
    {
        CoursesService { store }
    }

    /// List documents under `LIMIT limit OFFSET offset`, in store order.
    #[verifier::loop_isolation(false)]
    pub fn get_documents(&self, limit: u32, offset: u32) -> (r: DocumentList)
        requires
            self.wf(),
        ensures
            maps_documents(
                page_of(self.store.documents@, offset as int, limit as int),
                r.documents@,
            ),
            r.total == r.documents@.len(),
    {
        let ghost s = self.store.documents@;
        let mut out: Vec<Document> = Vec::new();
        let mut i: usize = 0;
        while i < self.store.documents.len()
            invariant
                0 <= i <= s.len(),
                maps_documents(page_of(s.take(i as int), offset as int, limit as int), out@),
            decreases s.len() - i,
        {
            proof {
                assert(s.take(i as int + 1).drop_last() =~= s.take(i as int));
                assert(s.take(i as int + 1).last() == s[i as int]);
                assert(s.take(i as int).len() == i as int);
                lemma_page_of_push(s.take(i as int), s[i as int], offset as int, limit as int);
                assert(ts_in_range(s[i as int].created_at as int));
            }
            if i >= (offset as usize) && i - (offset as usize) < (limit as usize) {
                out.push(map_document(&self.store.documents[i]));
            }
            i += 1;
        }
        proof {
            assert(s.take(s.len() as int) =~= s);
        }
        DocumentList { total: out.len(), documents: out }
    }

    /// Fetch the documents named by `ids`, in store order; unmatched ids
    /// are silently dropped, never an error.
    #[verifier::loop_isolation(false)]
    pub fn get_documents_by_ids(&self, ids: &Vec<i32>) -> (r: Vec<Document>)
        requires
            self.wf(),
        ensures
            maps_documents(
                rows_where(self.store.documents@, (|d: DocumentRow| ids@.contains(d.id))),
                r@,
            ),
    {
        let ghost s = self.store.documents@;
        let ghost pred = (|d: DocumentRow| ids@.contains(d.id));
        let mut out: Vec<Document> = Vec::new();
        let mut i: usize = 0;
        while i < self.store.documents.len()
            invariant
                0 <= i <= s.len(),
                maps_documents(rows_where(s.take(i as int), pred), out@),
            decreases s.len() - i,
        {
            proof {
                assert(s.take(i as int + 1).drop_last() =~= s.take(i as int));
                assert(s.take(i as int + 1).last() == s[i as int]);
                assert(ts_in_range(s[i as int].created_at as int));
            }
            if contains_id(ids, self.store.documents[i].id) {
                out.push(map_document(&self.store.documents[i]));
            }
            i += 1;
        }
        proof {
            assert(s.take(s.len() as int) =~= s);
        }
        out
    }

    /// List the pages of one document under `LIMIT limit OFFSET offset`,
    /// in store order.
    #[verifier::loop_isolation(false)]
    pub fn get_document_pages(&self, document_id: i32, limit: u32, offset: u32) -> (r: PageList)
        requires
            self.wf(),
        ensures
            maps_pages(
                page_of(
                    rows_where(self.store.pages@, (|p: PageRow| p.document_id == document_id)),
                    offset as int,
                    limit as int,
                ),
                r.pages@,
            ),
            r.total == r.pages@.len(),
    {
        let ghost s = self.store.pages@;
        let ghost pred = (|p: PageRow| p.document_id == document_id);
        let mut out: Vec<Page> = Vec::new();
        let mut matched: usize = 0;
        let mut i: usize = 0;
        while i < self.store.pages.len()
            invariant
                0 <= i <= s.len(),
                matched as nat == rows_where(s.take(i as int), pred).len(),
                maps_pages(
                    page_of(rows_where(s.take(i as int), pred), offset as int, limit as int),
                    out@,
                ),
            decreases s.len() - i,
        {
            proof {
                assert(s.take(i as int + 1).drop_last() =~= s.take(i as int));
                assert(s.take(i as int + 1).last() == s[i as int]);
                lemma_rows_where_membership(s.take(i as int), pred);
                lemma_page_of_push(
                    rows_where(s.take(i as int), pred),
                    s[i as int],
                    offset as int,
                    limit as int,
                );
            }
            if self.store.pages[i].document_id == document_id {
                if matched >= (offset as usize) && matched - (offset as usize) < (limit as usize) {
                    out.push(map_page(&self.store.pages[i]));
                }
                matched += 1;
            }
            i += 1;
        }
        proof {
            assert(s.take(s.len() as int) =~= s);
        }
        PageList { total: out.len(), pages: out }
    }

    /// Fetch the pages named by `ids`, in store order; unmatched ids are
    /// silently dropped.
    #[verifier::loop_isolation(false)]
    pub fn get_pages_by_ids(&self, ids: &Vec<i32>) -> (r: Vec<Page>)
        requires
            self.wf(),
        ensures
            maps_pages(rows_where(self.store.pages@, (|p: PageRow| ids@.contains(p.id))), r@),
    {
        let ghost s = self.store.pages@;
        let ghost pred = (|p: PageRow| ids@.contains(p.id));
        let mut out: Vec<Page> = Vec::new();
        let mut i: usize = 0;
        while i < self.store.pages.len()
            invariant
                0 <= i <= s.len(),
                maps_pages(rows_where(s.take(i as int), pred), out@),
            decreases s.len() - i,
        {
            proof {
                assert(s.take(i as int + 1).drop_last() =~= s.take(i as int));
                assert(s.take(i as int + 1).last() == s[i as int]);
            }
            if contains_id(ids, self.store.pages[i].id) {
                out.push(map_page(&self.store.pages[i]));
            }
            i += 1;
        }
        proof {
            assert(s.take(s.len() as int) =~= s);
        }
        out
    }

    /// List the tracks of one document under `LIMIT limit OFFSET offset`,
    /// in store order.
    #[verifier::loop_isolation(false)]
    pub fn get_document_tracks(&self, document_id: i32, limit: u32, offset: u32) -> (r: TrackList)
        requires
            self.wf(),
        ensures
            maps_tracks(
                page_of(
                    rows_where(self.store.tracks@, (|t: TrackRow| t.document_id == document_id)),
                    offset as int,
                    limit as int,
                ),
                r.tracks@,
            ),
            r.total == r.tracks@.len(),
    {
        let ghost s = self.store.tracks@;
        let ghost pred = (|t: TrackRow| t.document_id == document_id);
        let mut out: Vec<Track> = Vec::new();
        let mut matched: usize = 0;
        let mut i: usize = 0;
        while i < self.store.tracks.len()
            invariant
                0 <= i <= s.len(),
                matched as nat == rows_where(s.take(i as int), pred).len(),
                maps_tracks(
                    page_of(rows_where(s.take(i as int), pred), offset as int, limit as int),
                    out@,
                ),
            decreases s.len() - i,
        {
            proof {
                assert(s.take(i as int + 1).drop_last() =~= s.take(i as int));
                assert(s.take(i as int + 1).last() == s[i as int]);
                lemma_rows_where_membership(s.take(i as int), pred);
                lemma_page_of_push(
                    rows_where(s.take(i as int), pred),
                    s[i as int],
                    offset as int,
                    limit as int,
                );
            }
            if self.store.tracks[i].document_id == document_id {
                if matched >= (offset as usize) && matched - (offset as usize) < (limit as usize) {
                    out.push(map_track(&self.store.tracks[i]));
                }
                matched += 1;
            }
            i += 1;
        }
        proof {
            assert(s.take(s.len() as int) =~= s);
        }
        TrackList { total: out.len(), tracks: out }
    }

    /// Fetch the tracks named by `ids`, in store order; unmatched ids are
    /// silently dropped.
    #[verifier::loop_isolation(false)]
    pub fn get_tracks_by_ids(&self, ids: &Vec<i32>) -> (r: Vec<Track>)
        requires
            self.wf(),
        ensures
            maps_tracks(rows_where(self.store.tracks@, (|t: TrackRow| ids@.contains(t.id))), r@),
    {
        let ghost s = self.store.tracks@;
        let ghost pred = (|t: TrackRow| ids@.contains(t.id));
        let mut out: Vec<Track> = Vec::new();
        let mut i: usize = 0;
        while i < self.store.tracks.len()
            invariant
                0 <= i <= s.len(),
                maps_tracks(rows_where(s.take(i as int), pred), out@),
            decreases s.len() - i,
        {
            proof {
                assert(s.take(i as int + 1).drop_last() =~= s.take(i as int));
                assert(s.take(i as int + 1).last() == s[i as int]);
            }
            if contains_id(ids, self.store.tracks[i].id) {
                out.push(map_track(&self.store.tracks[i]));
            }
            i += 1;
        }
        proof {
            assert(s.take(s.len() as int) =~= s);
        }
        out
    }

    /// List the bookmarks of one document under `LIMIT limit OFFSET
    /// offset`, in store order.
    #[verifier::loop_isolation(false)]
    pub fn get_document_bookmarks(&self, document_id: i32, limit: u32, offset: u32) -> (r:
        BookmarkList)
        requires
            self.wf(),
        ensures
            maps_bookmarks(
                page_of(
                    rows_where(
                        self.store.bookmarks@,
                        (|b: BookmarkRow| b.document_id == document_id),
                    ),
                    offset as int,
                    limit as int,
                ),
                r.bookmarks@,
            ),
            r.total == r.bookmarks@.len(),
    {
        let ghost s = self.store.bookmarks@;
        let ghost pred = (|b: BookmarkRow| b.document_id == document_id);
        let mut out: Vec<Bookmark> = Vec::new();
        let mut matched: usize = 0;
        let mut i: usize = 0;
        while i < self.store.bookmarks.len()
            invariant
                0 <= i <= s.len(),
                matched as nat == rows_where(s.take(i as int), pred).len(),
                maps_bookmarks(
                    page_of(rows_where(s.take(i as int), pred), offset as int, limit as int),
                    out@,
                ),
            decreases s.len() - i,
        {
            proof {
                assert(s.take(i as int + 1).drop_last() =~= s.take(i as int));
                assert(s.take(i as int + 1).last() == s[i as int]);
                lemma_rows_where_membership(s.take(i as int), pred);
                lemma_page_of_push(
                    rows_where(s.take(i as int), pred),
                    s[i as int],
                    offset as int,
                    limit as int,
                );
            }
            if self.store.bookmarks[i].document_id == document_id {
                if matched >= (offset as usize) && matched - (offset as usize) < (limit as usize) {
                    out.push(map_bookmark(&self.store.bookmarks[i]));
                }
                matched += 1;
            }
            i += 1;
        }
        proof {
            assert(s.take(s.len() as int) =~= s);
        }
        BookmarkList { total: out.len(), bookmarks: out }
    }

    /// Fetch the bookmarks named by `ids`, in store order; unmatched ids
    /// are silently dropped.
    #[verifier::loop_isolation(false)]
    pub fn get_bookmarks_by_ids(&self, ids: &Vec<i32>) -> (r: Vec<Bookmark>)
        requires
            self.wf(),
        ensures
            maps_bookmarks(
                rows_where(self.store.bookmarks@, (|b: BookmarkRow| ids@.contains(b.id))),
                r@,
            ),
    {
        let ghost s = self.store.bookmarks@;
        let ghost pred = (|b: BookmarkRow| ids@.contains(b.id));
        let mut out: Vec<Bookmark> = Vec::new();
        let mut i: usize = 0;
        while i < self.store.bookmarks.len()
            invariant
                0 <= i <= s.len(),
                maps_bookmarks(rows_where(s.take(i as int), pred), out@),
            decreases s.len() - i,
        {
            proof {
                assert(s.take(i as int + 1).drop_last() =~= s.take(i as int));
                assert(s.take(i as int + 1).last() == s[i as int]);
            }
            if contains_id(ids, self.store.bookmarks[i].id) {
                out.push(map_bookmark(&self.store.bookmarks[i]));
            }
            i += 1;
        }
        proof {
            assert(s.take(s.len() as int) =~= s);
        }
        out
    }

    /// Fetch the anchors named by `ids`, in store order; unmatched ids are
    /// silently dropped.
    #[verifier::loop_isolation(false)]
    pub fn get_anchors_by_ids(&self, ids: &Vec<i32>) -> (r: Vec<Anchor>)
        requires
            self.wf(),
        ensures
            maps_anchors(rows_where(self.store.anchors@, (|a: AnchorRow| ids@.contains(a.id))), r@),
    {
        let ghost s = self.store.anchors@;
        let ghost pred = (|a: AnchorRow| ids@.contains(a.id));
        let mut out: Vec<Anchor> = Vec::new();
        let mut i: usize = 0;
        while i < self.store.anchors.len()
            invariant
                0 <= i <= s.len(),
                maps_anchors(rows_where(s.take(i as int), pred), out@),
            decreases s.len() - i,
        {
            proof {
                assert(s.take(i as int + 1).drop_last() =~= s.take(i as int));
                assert(s.take(i as int + 1).last() == s[i as int]);
                assert(ts_in_range(s[i as int].created_at as int));
            }
            if contains_id(ids, self.store.anchors[i].id) {
                out.push(map_anchor(&self.store.anchors[i]));
            }
            i += 1;
        }
        proof {
            assert(s.take(s.len() as int) =~= s);
        }
        out
    }

    /// Fetch the user anchors named by `ids`, in store order; unmatched
    /// ids are silently dropped.
    #[verifier::loop_isolation(false)]
    pub fn get_user_anchors_by_ids(&self, ids: &Vec<i32>) -> (r: Vec<UserAnchor>)
        requires
            self.wf(),
        ensures
            maps_user_anchors(
                rows_where(self.store.user_anchors@, (|a: UserAnchorRow| ids@.contains(a.id))),
                r@,
            ),
    {
        let ghost s = self.store.user_anchors@;
        let ghost pred = (|a: UserAnchorRow| ids@.contains(a.id));
        let mut out: Vec<UserAnchor> = Vec::new();
        let mut i: usize = 0;
        while i < self.store.user_anchors.len()
            invariant
                0 <= i <= s.len(),
                maps_user_anchors(rows_where(s.take(i as int), pred), out@),
            decreases s.len() - i,
        {
            proof {
                assert(s.take(i as int + 1).drop_last() =~= s.take(i as int));
                assert(s.take(i as int + 1).last() == s[i as int]);
                assert(ts_in_range(s[i as int].created_at as int));
            }
            if contains_id(ids, self.store.user_anchors[i].id) {
                out.push(map_user_anchor(&self.store.user_anchors[i]));
            }
            i += 1;
        }
        proof {
            assert(s.take(s.len() as int) =~= s);
        }
        out
    }

    /// Fetch all anchors on the pages named by `ids`, grouped by page:
    /// one entry per page that has a matching anchor, carrying its
    /// anchors in store order. A page with no matching anchor is absent
    /// from the result, never present with an empty list.
    #[verifier::loop_isolation(false)]
    pub fn get_anchors_by_page_ids(&self, ids: &Vec<i32>) -> (r: Vec<(i32, Vec<Anchor>)>)
        requires
            self.wf(),
        ensures
            ({
                let rows = rows_where(
                    self.store.anchors@,
                    (|a: AnchorRow| ids@.contains(a.page_id)),
                );
                &&& distinct_keys(r@, (|g: (i32, Vec<Anchor>)| g.0))
                &&& forall|i: int| 0 <= i < r@.len() ==> maps_anchors(
                    anchors_of_page(rows, (#[trigger] r@[i]).0),
                    r@[i].1@,
                ) && r@[i].1@.len() > 0 && ids@.contains(r@[i].0)
                &&& forall|k: i32| #![trigger anchors_of_page(rows, k)]
                    (anchors_of_page(rows, k).len() > 0 <==> exists|i: int|
                        0 <= i < r@.len() && (#[trigger] r@[i]).0 == k)
            }),
    {
        let ghost s = self.store.anchors@;
        let ghost pred = (|a: AnchorRow| ids@.contains(a.page_id));
        let mut pairs: Vec<(i32, Anchor)> = Vec::new();
        let mut i: usize = 0;
        while i < self.store.anchors.len()
            invariant
                0 <= i <= s.len(),
                pairs@.len() == rows_where(s.take(i as int), pred).len(),
                forall|j: int| 0 <= j < pairs@.len() ==> (#[trigger] pairs@[j]).0 == rows_where(
                    s.take(i as int),
                    pred,
                )[j].page_id && pairs@[j].1@ == anchor_of_row(rows_where(s.take(i as int), pred)[j]),
            decreases s.len() - i,
        {
            proof {
                assert(s.take(i as int + 1).drop_last() =~= s.take(i as int));
                assert(s.take(i as int + 1).last() == s[i as int]);
                assert(ts_in_range(s[i as int].created_at as int));
            }
            if contains_id(ids, self.store.anchors[i].page_id) {
                let a = map_anchor(&self.store.anchors[i]);
                pairs.push((self.store.anchors[i].page_id, a));
            }
            i += 1;
        }
        proof {
            assert(s.take(s.len() as int) =~= s);
        }
        let ghost pairs_v = pairs@;
        let groups = group_pairs(pairs);
        proof {
            let rows = rows_where(s, pred);
            assert forall|i: int| 0 <= i < groups@.len()
                implies maps_anchors(anchors_of_page(rows, (#[trigger] groups@[i]).0), groups@[i].1@)
                    && groups@[i].1@.len() > 0 && ids@.contains(groups@[i].0) by {
                let k0 = groups@[i].0;
                lemma_anchor_pairs_values(rows, pairs_v, k0);
                let rowseq = anchors_of_page(rows, k0);
                assert(rowseq.len() > 0);
                assert(rowseq.contains(rowseq[0]));
                lemma_rows_where_membership(rows, (|a: AnchorRow| a.page_id == k0));
                assert(rows.contains(rowseq[0]) && rowseq[0].page_id == k0);
                lemma_rows_where_membership(s, pred);
                assert(ids@.contains(rowseq[0].page_id));
            }
            assert forall|k: i32| #![trigger anchors_of_page(rows, k)]
                (anchors_of_page(rows, k).len() > 0 <==> exists|i: int|
                    0 <= i < groups@.len() && (#[trigger] groups@[i]).0 == k) by {
                lemma_anchor_pairs_values(rows, pairs_v, k);
            }
        }
        groups
    }

    /// Fetch all user anchors on the pages named by `ids`, grouped by
    /// page, with the same shape as the anchor grouping.
    #[verifier::loop_isolation(false)]
    pub fn get_user_anchors_by_page_ids(&self, ids: &Vec<i32>) -> (r: Vec<(i32, Vec<UserAnchor>)>)
        requires
            self.wf(),
        ensures
            ({
                let rows = rows_where(
                    self.store.user_anchors@,
                    (|a: UserAnchorRow| ids@.contains(a.page_id)),
                );
                &&& distinct_keys(r@, (|g: (i32, Vec<UserAnchor>)| g.0))
                &&& forall|i: int| 0 <= i < r@.len() ==> maps_user_anchors(
                    user_anchors_of_page(rows, (#[trigger] r@[i]).0),
                    r@[i].1@,
                ) && r@[i].1@.len() > 0 && ids@.contains(r@[i].0)
                &&& forall|k: i32| #![trigger user_anchors_of_page(rows, k)]
                    (user_anchors_of_page(rows, k).len() > 0 <==> exists|i: int|
                        0 <= i < r@.len() && (#[trigger] r@[i]).0 == k)
            }),
    {
        let ghost s = self.store.user_anchors@;
        let ghost pred = (|a: UserAnchorRow| ids@.contains(a.page_id));
        let mut pairs: Vec<(i32, UserAnchor)> = Vec::new();
        let mut i: usize = 0;
        while i < self.store.user_anchors.len()
            invariant
                0 <= i <= s.len(),
                pairs@.len() == rows_where(s.take(i as int), pred).len(),
                forall|j: int| 0 <= j < pairs@.len() ==> (#[trigger] pairs@[j]).0 == rows_where(
                    s.take(i as int),
                    pred,
                )[j].page_id && pairs@[j].1@ == user_anchor_of_row(
                    rows_where(s.take(i as int), pred)[j],
                ),
            decreases s.len() - i,
        {
            proof {
                assert(s.take(i as int + 1).drop_last() =~= s.take(i as int));
                assert(s.take(i as int + 1).last() == s[i as int]);
                assert(ts_in_range(s[i as int].created_at as int));
            }
            if contains_id(ids, self.store.user_anchors[i].page_id) {
                let a = map_user_anchor(&self.store.user_anchors[i]);
                pairs.push((self.store.user_anchors[i].page_id, a));
            }
            i += 1;
        }
        proof {
            assert(s.take(s.len() as int) =~= s);
        }
        let ghost pairs_v = pairs@;
        let groups = group_pairs(pairs);
        proof {
            let rows = rows_where(s, pred);
            assert forall|i: int| 0 <= i < groups@.len()
                implies maps_user_anchors(
                    user_anchors_of_page(rows, (#[trigger] groups@[i]).0),
                    groups@[i].1@,
                ) && groups@[i].1@.len() > 0 && ids@.contains(groups@[i].0) by {
                let k0 = groups@[i].0;
                lemma_user_anchor_pairs_values(rows, pairs_v, k0);
                let rowseq = user_anchors_of_page(rows, k0);
                assert(rowseq.len() > 0);
                assert(rowseq.contains(rowseq[0]));
                lemma_rows_where_membership(rows, (|a: UserAnchorRow| a.page_id == k0));
                assert(rows.contains(rowseq[0]) && rowseq[0].page_id == k0);
                lemma_rows_where_membership(s, pred);
                assert(ids@.contains(rowseq[0].page_id));
            }
            assert forall|k: i32| #![trigger user_anchors_of_page(rows, k)]
                (user_anchors_of_page(rows, k).len() > 0 <==> exists|i: int|
                    0 <= i < groups@.len() && (#[trigger] groups@[i]).0 == k) by {
                lemma_user_anchor_pairs_values(rows, pairs_v, k);
            }
        }
        groups
    }

    /// Set the title of one track, the only externally mutable field of
    /// any entity. Demands an elevated caller; fails closed as a store
    /// failure when no track carries `track_id`.
    pub fn update_track_title(&mut self, track_id: i32, title: String, caller: Option<Caller>) -> (r:
        Result<Track, ServiceError>)
        requires
            old(self).wf(),
        ensures
            final(self).wf(),
            !is_authenticated(caller) ==> r == Err::<Track, ServiceError>(
                ServiceError::PermissionDenied(DenyReason::NotAuthenticated),
            ) && same_state(final(self).store, old(self).store),
            is_authenticated(caller) && !caller_elevated(caller) ==> r == Err::<Track,
                ServiceError,
            >(ServiceError::PermissionDenied(DenyReason::InsufficientRole)) && same_state(
                final(self).store,
                old(self).store,
            ),
            caller_elevated(caller) && first_where(
                old(self).store.tracks@,
                (|t: TrackRow| t.id == track_id),
            ) is None ==> r == Err::<Track, ServiceError>(
                ServiceError::StoreFailure(StoreError::RowNotFound),
            ) && same_state(final(self).store, old(self).store),
            caller_elevated(caller) ==> (first_where(
                old(self).store.tracks@,
                (|t: TrackRow| t.id == track_id),
            ) matches Some(t0) ==> (r matches Ok(t) && t@ == track_of_row(
                (TrackRow {
                    id: t0.id,
                    track_number: t0.track_number,
                    title: title,
                    audio_path: t0.audio_path,
                    document_id: t0.document_id,
                }),
            ) && t@.id == track_id as int && t@.title == title@ && final(self).store.tracks@
                == tracks_retitled(old(self).store.tracks@, track_id, title)
                && final(self).store.documents@ == old(self).store.documents@
                && final(self).store.pages@ == old(self).store.pages@
                && final(self).store.bookmarks@ == old(self).store.bookmarks@
                && final(self).store.anchors@ == old(self).store.anchors@
                && final(self).store.user_anchors@ == old(self).store.user_anchors@
                && final(self).store.next_id == old(self).store.next_id)),
    {
        match decide(caller, Action::UpdateTrackTitle, None) {
            Decision::Deny(reason) => Err(ServiceError::PermissionDenied(reason)),
            Decision::Allow => {
                let ghost tracks0 = self.store.tracks@;
                let ghost pred = (|t: TrackRow| t.id == track_id);
                match self.store.update_track_row(track_id, title) {
                    Err(e) => Err(ServiceError::StoreFailure(e)),
                    Ok(j) => {
                        proof {
                            lemma_first_where_some(tracks0, pred);
                            match first_where(tracks0, pred) {
                                Some(t0) => {
                                    let tracks1 = self.store.tracks@;
                                    assert(t0.id == track_id);
                                    assert(tracks1 =~= tracks_retitled(
                                        tracks0,
                                        track_id,
                                        title,
                                    )) by {
                                        assert forall|i: int| 0 <= i < tracks1.len()
                                            implies tracks1[i] == tracks_retitled(
                                            tracks0,
                                            track_id,
                                            title,
                                        )[i] by {
                                            if i != j as int {
                                                if i < j as int {
                                                    assert(tracks0[i].id != tracks0[j as int].id);
                                                } else {
                                                    assert(tracks0[j as int].id != tracks0[i].id);
                                                }
                                            }
                                        }
                                    }
                                },
                                None => {
                                    assert(false);
                                },
                            }
                        }
                        Ok(map_track(&self.store.tracks[j]))
                    },
                }
            },
        }
    }

    /// Create a bookmark. Demands an elevated caller; the store enforces
    /// that the page and document exist.
    pub fn create_bookmark(
        &mut self,
        title: String,
        page_id: i32,
        document_id: i32,
        caller: Option<Caller>,
    ) -> (r: Result<Bookmark, ServiceError>)
        requires
            old(self).wf(),
        ensures
            final(self).wf(),
            !is_authenticated(caller) ==> r == Err::<Bookmark, ServiceError>(
                ServiceError::PermissionDenied(DenyReason::NotAuthenticated),
            ) && same_state(final(self).store, old(self).store),
            is_authenticated(caller) && !caller_elevated(caller) ==> r == Err::<Bookmark,
                ServiceError,
            >(ServiceError::PermissionDenied(DenyReason::InsufficientRole)) && same_state(
                final(self).store,
                old(self).store,
            ),
            caller_elevated(caller) && !(has_page(old(self).store.pages@, page_id) && has_document(
                old(self).store.documents@,
                document_id,
            )) ==> r == Err::<Bookmark, ServiceError>(
                ServiceError::StoreFailure(StoreError::ForeignKeyViolation),
            ) && same_state(final(self).store, old(self).store),
            caller_elevated(caller) && has_page(old(self).store.pages@, page_id) && has_document(
                old(self).store.documents@,
                document_id,
            ) && old(self).store.next_id == i32::MAX ==> r == Err::<Bookmark, ServiceError>(
                ServiceError::StoreFailure(StoreError::KeysExhausted),
            ) && same_state(final(self).store, old(self).store),
            caller_elevated(caller) && has_page(old(self).store.pages@, page_id) && has_document(
                old(self).store.documents@,
                document_id,
            ) && old(self).store.next_id < i32::MAX ==> (r matches Ok(b) && b@ == bookmark_of_row(
                (BookmarkRow {
                    id: old(self).store.next_id,
                    title: title,
                    page_id: page_id,
                    document_id: document_id,
                }),
            ) && final(self).store.bookmarks@ == old(self).store.bookmarks@.push(
                (BookmarkRow {
                    id: old(self).store.next_id,
                    title: title,
                    page_id: page_id,
                    document_id: document_id,
                }),
            ) && final(self).store.documents@ == old(self).store.documents@
                && final(self).store.pages@ == old(self).store.pages@
                && final(self).store.tracks@ == old(self).store.tracks@
                && final(self).store.anchors@ == old(self).store.anchors@
                && final(self).store.user_anchors@ == old(self).store.user_anchors@
                && final(self).store.next_id == old(self).store.next_id + 1),
    {
        match decide(caller, Action::CreateBookmark, None) {
            Decision::Deny(reason) => Err(ServiceError::PermissionDenied(reason)),
            Decision::Allow => {
                match self.store.insert_bookmark(title, page_id, document_id) {
                    Err(e) => Err(ServiceError::StoreFailure(e)),
                    Ok(()) => {
                        let n = self.store.bookmarks.len();
                        Ok(map_bookmark(&self.store.bookmarks[n - 1]))
                    },
                }
            },
        }
    }

    /// Delete a bookmark, physically and irreversibly. Demands an
    /// elevated caller; deleting a missing row succeeds and deletes
    /// nothing.
    pub fn delete_bookmark(&mut self, bookmark_id: i32, caller: Option<Caller>) -> (r: Result<
        (),
        ServiceError,
    >)
        requires
            old(self).wf(),
        ensures
            final(self).wf(),
            !is_authenticated(caller) ==> r == Err::<(), ServiceError>(
                ServiceError::PermissionDenied(DenyReason::NotAuthenticated),
            ) && same_state(final(self).store, old(self).store),
            is_authenticated(caller) && !caller_elevated(caller) ==> r == Err::<(), ServiceError>(
                ServiceError::PermissionDenied(DenyReason::InsufficientRole),
            ) && same_state(final(self).store, old(self).store),
            caller_elevated(caller) ==> r == Ok::<(), ServiceError>(())
                && final(self).store.bookmarks@ == rows_where(
                old(self).store.bookmarks@,
                (|b: BookmarkRow| b.id != bookmark_id),
            ) && final(self).store.documents@ == old(self).store.documents@
                && final(self).store.pages@ == old(self).store.pages@
                && final(self).store.tracks@ == old(self).store.tracks@
                && final(self).store.anchors@ == old(self).store.anchors@
                && final(self).store.user_anchors@ == old(self).store.user_anchors@
                && final(self).store.next_id == old(self).store.next_id,
    {
        match decide(caller, Action::DeleteBookmark, None) {
            Decision::Deny(reason) => Err(ServiceError::PermissionDenied(reason)),
            Decision::Allow => {
                self.store.delete_bookmark_row(bookmark_id);
                Ok(())
            },
        }
    }

    /// Create an anchor. Demands an elevated caller; the store enforces
    /// that the page and track exist. The service stamps the record once:
    /// its creation and update instants are identical.
    pub fn create_anchor(
        &mut self,
        title: Option<String>,
        track_time: i64,
        position_top: i64,
        position_left: i64,
        page_id: i32,
        track_id: i32,
        caller: Option<Caller>,
    ) -> (r: Result<Anchor, ServiceError>)
        requires
            old(self).wf(),
        ensures
            final(self).wf(),
            !is_authenticated(caller) ==> r == Err::<Anchor, ServiceError>(
                ServiceError::PermissionDenied(DenyReason::NotAuthenticated),
            ) && same_state(final(self).store, old(self).store),
            is_authenticated(caller) && !caller_elevated(caller) ==> r == Err::<Anchor,
                ServiceError,
            >(ServiceError::PermissionDenied(DenyReason::InsufficientRole)) && same_state(
                final(self).store,
                old(self).store,
            ),
            caller_elevated(caller) && !(has_page(old(self).store.pages@, page_id) && has_track(
                old(self).store.tracks@,
                track_id,
            )) ==> r == Err::<Anchor, ServiceError>(
                ServiceError::StoreFailure(StoreError::ForeignKeyViolation),
            ) && same_state(final(self).store, old(self).store),
            caller_elevated(caller) && has_page(old(self).store.pages@, page_id) && has_track(
                old(self).store.tracks@,
                track_id,
            ) && old(self).store.next_id == i32::MAX ==> r == Err::<Anchor, ServiceError>(
                ServiceError::StoreFailure(StoreError::KeysExhausted),
            ) && same_state(final(self).store, old(self).store),
            caller_elevated(caller) && has_page(old(self).store.pages@, page_id) && has_track(
                old(self).store.tracks@,
                track_id,
            ) && old(self).store.next_id < i32::MAX ==> (r matches Ok(a) && ({
                let row = final(self).store.anchors@.last();
                &&& final(self).store.anchors@ == old(self).store.anchors@.push(row)
                &&& row.id == old(self).store.next_id
                &&& row.title == title
                &&& row.track_time == track_time
                &&& row.position_top == position_top
                &&& row.position_left == position_left
                &&& row.page_id == page_id
                &&& row.track_id == track_id
                &&& row.created_at == row.updated_at
                &&& ts_in_range(row.created_at as int)
                &&& a@ == anchor_of_row(row)
                &&& a@.created_at == a@.updated_at
            }) && final(self).store.documents@ == old(self).store.documents@
                && final(self).store.pages@ == old(self).store.pages@
                && final(self).store.tracks@ == old(self).store.tracks@
                && final(self).store.bookmarks@ == old(self).store.bookmarks@
                && final(self).store.user_anchors@ == old(self).store.user_anchors@
                && final(self).store.next_id == old(self).store.next_id + 1),
    {
        match decide(caller, Action::CreateAnchor, None) {
            Decision::Deny(reason) => Err(ServiceError::PermissionDenied(reason)),
            Decision::Allow => {
                let now = now_timestamp();
                match self.store.insert_anchor(
                    title,
                    track_time,
                    position_top,
                    position_left,
                    page_id,
                    track_id,
                    now,
                    now,
                ) {
                    Err(e) => Err(ServiceError::StoreFailure(e)),
                    Ok(()) => {
                        let n = self.store.anchors.len();
                        Ok(map_anchor(&self.store.anchors[n - 1]))
                    },
                }
            },
        }
    }

    /// Create a user anchor. Demands any authenticated caller; the
    /// resulting owner is the caller, fixed at creation and never
    /// transferred. The service stamps the record once.
    pub fn create_user_anchor(
        &mut self,
        title: Option<String>,
        track_time: i64,
        position_top: i64,
        position_left: i64,
        page_id: i32,
        track_id: i32,
        caller: Option<Caller>,
    ) -> (r: Result<UserAnchor, ServiceError>)
        requires
            old(self).wf(),
        ensures
            final(self).wf(),
            !is_authenticated(caller) ==> r == Err::<UserAnchor, ServiceError>(
                ServiceError::PermissionDenied(DenyReason::NotAuthenticated),
            ) && same_state(final(self).store, old(self).store),
            is_authenticated(caller) && !(has_page(old(self).store.pages@, page_id) && has_track(
                old(self).store.tracks@,
                track_id,
            )) ==> r == Err::<UserAnchor, ServiceError>(
                ServiceError::StoreFailure(StoreError::ForeignKeyViolation),
            ) && same_state(final(self).store, old(self).store),
            is_authenticated(caller) && has_page(old(self).store.pages@, page_id) && has_track(
                old(self).store.tracks@,
                track_id,
            ) && old(self).store.next_id == i32::MAX ==> r == Err::<UserAnchor, ServiceError>(
                ServiceError::StoreFailure(StoreError::KeysExhausted),
            ) && same_state(final(self).store, old(self).store),
            is_authenticated(caller) && has_page(old(self).store.pages@, page_id) && has_track(
                old(self).store.tracks@,
                track_id,
            ) && old(self).store.next_id < i32::MAX ==> (r matches Ok(a) && ({
                let row = final(self).store.user_anchors@.last();
                &&& final(self).store.user_anchors@ == old(self).store.user_anchors@.push(row)
                &&& row.id == old(self).store.next_id
                &&& row.title == title
                &&& row.track_time == track_time
                &&& row.position_top == position_top
                &&& row.position_left == position_left
                &&& row.page_id == page_id
                &&& row.track_id == track_id
                &&& row.owner == (caller->Some_0).id
                &&& row.created_at == row.updated_at
                &&& ts_in_range(row.created_at as int)
                &&& a@ == user_anchor_of_row(row)
                &&& a@.created_at == a@.updated_at
            }) && final(self).store.documents@ == old(self).store.documents@
                && final(self).store.pages@ == old(self).store.pages@
                && final(self).store.tracks@ == old(self).store.tracks@
                && final(self).store.bookmarks@ == old(self).store.bookmarks@
                && final(self).store.anchors@ == old(self).store.anchors@
                && final(self).store.next_id == old(self).store.next_id + 1),
    {
        match decide(caller, Action::CreateUserAnchor, None) {
            Decision::Deny(reason) => Err(ServiceError::PermissionDenied(reason)),
            Decision::Allow => match caller {
                None => {
                    // the policy allows this action only to a present caller
                    proof {
                        assert(false);
                    }
                    Err(ServiceError::PermissionDenied(DenyReason::NotAuthenticated))
                },
                Some(c) => {
                    let now = now_timestamp();
                    match self.store.insert_user_anchor(
                        title,
                        track_time,
                        position_top,
                        position_left,
                        page_id,
                        track_id,
                        c.id,
                        now,
                        now,
                    ) {
                        Err(e) => Err(ServiceError::StoreFailure(e)),
                        Ok(()) => {
                            let n = self.store.user_anchors.len();
                            Ok(map_user_anchor(&self.store.user_anchors[n - 1]))
                        },
                    }
                },
            },
        }
    }

    /// Delete an anchor, physically and irreversibly. Demands an elevated
    /// caller; deleting a missing row succeeds and deletes nothing.
    pub fn delete_anchor(&mut self, id: i32, caller: Option<Caller>) -> (r: Result<
        (),
        ServiceError,
    >)
        requires
            old(self).wf(),
        ensures
            final(self).wf(),
            !is_authenticated(caller) ==> r == Err::<(), ServiceError>(
                ServiceError::PermissionDenied(DenyReason::NotAuthenticated),
            ) && same_state(final(self).store, old(self).store),
            is_authenticated(caller) && !caller_elevated(caller) ==> r == Err::<(), ServiceError>(
                ServiceError::PermissionDenied(DenyReason::InsufficientRole),
            ) && same_state(final(self).store, old(self).store),
            caller_elevated(caller) ==> r == Ok::<(), ServiceError>(())
                && final(self).store.anchors@ == rows_where(
                old(self).store.anchors@,
                (|a: AnchorRow| a.id != id),
            ) && final(self).store.documents@ == old(self).store.documents@
                && final(self).store.pages@ == old(self).store.pages@
                && final(self).store.tracks@ == old(self).store.tracks@
                && final(self).store.bookmarks@ == old(self).store.bookmarks@
                && final(self).store.user_anchors@ == old(self).store.user_anchors@
                && final(self).store.next_id == old(self).store.next_id,
    {
        match decide(caller, Action::DeleteAnchor, None) {
            Decision::Deny(reason) => Err(ServiceError::PermissionDenied(reason)),
            Decision::Allow => {
                self.store.delete_anchor_row(id);
                Ok(())
            },
        }
    }

    /// Delete a user anchor: the sole two-step operation. The owner of
    /// the target is read first, then the ownership rule is applied, then
    /// the row is deleted. Succeeds exactly when the caller owns the
    /// target or holds an elevated role; a missing caller is denied
    /// before the store is consulted, and a missing row fails closed as a
    /// store failure.
    pub fn delete_user_anchor(&mut self, id: i32, caller: Option<Caller>) -> (r: Result<
        (),
        ServiceError,
    >)
        requires
            old(self).wf(),
        ensures
            final(self).wf(),
            !is_authenticated(caller) ==> r == Err::<(), ServiceError>(
                ServiceError::PermissionDenied(DenyReason::NotAuthenticated),
            ) && same_state(final(self).store, old(self).store),
            is_authenticated(caller) && first_where(
                old(self).store.user_anchors@,
                (|a: UserAnchorRow| a.id == id),
            ) is None ==> r == Err::<(), ServiceError>(
                ServiceError::StoreFailure(StoreError::RowNotFound),
            ) && same_state(final(self).store, old(self).store),
            is_authenticated(caller) ==> (first_where(
                old(self).store.user_anchors@,
                (|a: UserAnchorRow| a.id == id),
            ) matches Some(row) && decision_of(
                caller,
                Action::DeleteUserAnchor,
                Some(row.owner),
            ) == Decision::Allow ==> r == Ok::<(), ServiceError>(())
                && final(self).store.user_anchors@ == rows_where(
                old(self).store.user_anchors@,
                (|a: UserAnchorRow| a.id != id),
            ) && final(self).store.documents@ == old(self).store.documents@
                && final(self).store.pages@ == old(self).store.pages@
                && final(self).store.tracks@ == old(self).store.tracks@
                && final(self).store.bookmarks@ == old(self).store.bookmarks@
                && final(self).store.anchors@ == old(self).store.anchors@
                && final(self).store.next_id == old(self).store.next_id),
            is_authenticated(caller) ==> (first_where(
                old(self).store.user_anchors@,
                (|a: UserAnchorRow| a.id == id),
            ) matches Some(row) && decision_of(
                caller,
                Action::DeleteUserAnchor,
                Some(row.owner),
            ) != Decision::Allow ==> r == Err::<(), ServiceError>(
                ServiceError::PermissionDenied(DenyReason::NotOwner),
            ) && same_state(final(self).store, old(self).store)),
    {
        match caller {
            None => Err(ServiceError::PermissionDenied(DenyReason::NotAuthenticated)),
            Some(_) => {
                match self.store.user_anchor_owner(id) {
                    None => Err(ServiceError::StoreFailure(StoreError::RowNotFound)),
                    Some(owner) => {
                        match decide(caller, Action::DeleteUserAnchor, Some(owner)) {
                            Decision::Deny(reason) => Err(
                                ServiceError::PermissionDenied(reason),
                            ),
                            Decision::Allow => {
                                self.store.delete_user_anchor_row(id);
                                Ok(())
                            },
                        }
                    },
                }
            },
        }
    }
}

/// The track table after `UPDATE tracks SET title WHERE id`: every row
/// carrying `id` (at most one in a well-formed store) gets the new title,
/// every other row is untouched.
pub open spec fn tracks_retitled(rows: Seq<TrackRow>, id: i32, title: String) -> Seq<TrackRow> {
    rows.map_values(
        |t: TrackRow|
            if t.id == id {
                TrackRow {
                    id: t.id,
                    track_number: t.track_number,
                    title: title,
                    audio_path: t.audio_path,
                    document_id: t.document_id,
                }
            } else {
                t
            },
    )
}

/// A flat batch-by-id read never returns more rows than the id list
/// names: in a well-formed store the primary keys are pairwise distinct,
/// so each returned row is matched by a distinct requested id. Together
/// with the retrieval contracts this pins the batch gets down: only the
/// matching subset comes back, never more rows than ids, and an unmatched
/// id raises no error.
pub proof fn lemma_batch_get_bounded(s: Store, ids: Seq<i32>)
    requires
        s.wf(),
    ensures
        rows_where(s.documents@, (|d: DocumentRow| ids.contains(d.id))).len() <= ids.len(),
        rows_where(s.pages@, (|p: PageRow| ids.contains(p.id))).len() <= ids.len(),
        rows_where(s.tracks@, (|t: TrackRow| ids.contains(t.id))).len() <= ids.len(),
        rows_where(s.bookmarks@, (|b: BookmarkRow| ids.contains(b.id))).len() <= ids.len(),
        rows_where(s.anchors@, (|a: AnchorRow| ids.contains(a.id))).len() <= ids.len(),
        rows_where(s.user_anchors@, (|a: UserAnchorRow| ids.contains(a.id))).len() <= ids.len(),
{
    lemma_batch_by_ids_bounded(
        s.documents@,
        ids,
        (|d: DocumentRow| d.id),
        (|d: DocumentRow| ids.contains(d.id)),
    );
    lemma_batch_by_ids_bounded(
        s.pages@,
        ids,
        (|p: PageRow| p.id),
        (|p: PageRow| ids.contains(p.id)),
    );
    lemma_batch_by_ids_bounded(
        s.tracks@,
        ids,
        (|t: TrackRow| t.id),
        (|t: TrackRow| ids.contains(t.id)),
    );
    lemma_batch_by_ids_bounded(
        s.bookmarks@,
        ids,
        (|b: BookmarkRow| b.id),
        (|b: BookmarkRow| ids.contains(b.id)),
    );
    lemma_batch_by_ids_bounded(
        s.anchors@,
        ids,
        (|a: AnchorRow| a.id),
        (|a: AnchorRow| ids.contains(a.id)),
    );
    lemma_batch_by_ids_bounded(
        s.user_anchors@,
        ids,
        (|a: UserAnchorRow| a.id),
        (|a: UserAnchorRow| ids.contains(a.id)),
    );
}

/// Round trip: among rows whose ids all differ from a freshly assigned
/// one, a batch get by exactly the fresh id, issued after the new row is
/// appended, returns that row alone. With the mapper being a function of
/// the row, the response of such a get is identical to the creation
/// response.
pub proof fn lemma_fresh_anchor_round_trip(rows: Seq<AnchorRow>, row: AnchorRow, ids: Seq<i32>)
    requires
        forall|i: int| 0 <= i < rows.len() ==> (#[trigger] rows[i]).id != row.id,
        ids == seq![row.id],
    ensures
        rows_where(rows.push(row), (|a: AnchorRow| ids.contains(a.id))) == seq![row],
{
    let pred = (|a: AnchorRow| ids.contains(a.id));
    assert(ids[0] == row.id);
    assert(pred(row)) by {
        assert(ids.contains(row.id));
    }
    assert forall|i: int| 0 <= i < rows.len() implies !pred(#[trigger] rows[i]) by {
        if ids.contains(rows[i].id) {
            let j = choose|j: int| 0 <= j < ids.len() && ids[j] == rows[i].id;
            assert(j == 0);
            assert(false);
        }
    }
    lemma_rows_where_empty(rows, pred);
    assert(rows.push(row).drop_last() =~= rows);
    assert(rows.push(row).last() == row);
    assert(rows_where(rows.push(row), pred) =~= seq![row]);
}

/// The anchors of `rows` located on page `k`, in their original order.
pub open spec fn anchors_of_page(rows: Seq<AnchorRow>, k: i32) -> Seq<AnchorRow> {
    rows_where(rows, (|a: AnchorRow| a.page_id == k))
}

/// The user anchors of `rows` located on page `k`, in their original
/// order.
pub open spec fn user_anchors_of_page(rows: Seq<UserAnchorRow>, k: i32) -> Seq<UserAnchorRow> {
    rows_where(rows, (|a: UserAnchorRow| a.page_id == k))
}

/// When `pairs` carries, pair by pair, the page key and the mapped record
/// of each row of `rows`, the values grouped under any key `k` are exactly
/// the mapped anchors of page `k`.
proof fn lemma_anchor_pairs_values(rows: Seq<AnchorRow>, pairs: Seq<(i32, Anchor)>, k: i32)
    requires
        pairs.len() == rows.len(),
        forall|j: int| 0 <= j < rows.len() ==> (#[trigger] pairs[j]).0 == rows[j].page_id
            && pairs[j].1@ == anchor_of_row(rows[j]),
    ensures
        maps_anchors(anchors_of_page(rows, k), values_for(pairs, k)),
    decreases rows.len(),
{
    if rows.len() == 0 {
    } else {
        assert forall|j: int| 0 <= j < rows.drop_last().len()
            implies (#[trigger] pairs.drop_last()[j]).0 == rows.drop_last()[j].page_id
                && pairs.drop_last()[j].1@ == anchor_of_row(rows.drop_last()[j]) by {
            assert(pairs.drop_last()[j] == pairs[j]);
            assert(rows.drop_last()[j] == rows[j]);
        }
        lemma_anchor_pairs_values(rows.drop_last(), pairs.drop_last(), k);
        let n = rows.len() - 1;
        assert(pairs[n as int].0 == rows[n as int].page_id);
        let pred = (|a: AnchorRow| a.page_id == k);
        let fr = anchors_of_page(rows, k);
        let vr = values_for(pairs, k);
        let frd = anchors_of_page(rows.drop_last(), k);
        let vrd = values_for(pairs.drop_last(), k);
        if rows.last().page_id == k {
            assert(fr == frd.push(rows.last()));
            assert(vr == vrd.push(pairs.last().1));
            assert forall|i: int| 0 <= i < fr.len()
                implies (#[trigger] vr[i])@ == anchor_of_row(fr[i]) by {
                if i < fr.len() - 1 {
                    assert(vr[i] == vrd[i]);
                    assert(fr[i] == frd[i]);
                } else {
                    assert(pairs.last().1@ == anchor_of_row(rows.last()));
                }
            }
        } else {
            assert(fr == frd);
            assert(vr == vrd);
        }
    }
}

/// The user-anchor counterpart of [`lemma_anchor_pairs_values`].
proof fn lemma_user_anchor_pairs_values(
    rows: Seq<UserAnchorRow>,
    pairs: Seq<(i32, UserAnchor)>,
    k: i32,
)
    requires
        pairs.len() == rows.len(),
        forall|j: int| 0 <= j < rows.len() ==> (#[trigger] pairs[j]).0 == rows[j].page_id
            && pairs[j].1@ == user_anchor_of_row(rows[j]),
    ensures
        maps_user_anchors(user_anchors_of_page(rows, k), values_for(pairs, k)),
    decreases rows.len(),
{
    if rows.len() == 0 {
    } else {
        assert forall|j: int| 0 <= j < rows.drop_last().len()
            implies (#[trigger] pairs.drop_last()[j]).0 == rows.drop_last()[j].page_id
                && pairs.drop_last()[j].1@ == user_anchor_of_row(rows.drop_last()[j]) by {
            assert(pairs.drop_last()[j] == pairs[j]);
            assert(rows.drop_last()[j] == rows[j]);
        }
        lemma_user_anchor_pairs_values(rows.drop_last(), pairs.drop_last(), k);
        let n = rows.len() - 1;
        assert(pairs[n as int].0 == rows[n as int].page_id);
        let fr = user_anchors_of_page(rows, k);
        let vr = values_for(pairs, k);
        let frd = user_anchors_of_page(rows.drop_last(), k);
        let vrd = values_for(pairs.drop_last(), k);
        if rows.last().page_id == k {
            assert(fr == frd.push(rows.last()));
            assert(vr == vrd.push(pairs.last().1));
            assert forall|i: int| 0 <= i < fr.len()
                implies (#[trigger] vr[i])@ == user_anchor_of_row(fr[i]) by {
                if i < fr.len() - 1 {
                    assert(vr[i] == vrd[i]);
                    assert(fr[i] == frd[i]);
                } else {
                    assert(pairs.last().1@ == user_anchor_of_row(rows.last()));
                }
            }
        } else {
            assert(fr == frd);
            assert(vr == vrd);
        }
    }
}

} // verus!
