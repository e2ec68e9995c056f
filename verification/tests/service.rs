//! The service facade end to end: batched reads, grouping, the CRUD
//! operations under the policy, and the error taxonomy.

use courses_service::auth::{Caller, DenyReason, Role};
use courses_service::entity::Anchor;
use courses_service::error::{ServiceError, StoreError};
use courses_service::service::CoursesService;
use courses_service::store::Store;
use courses_service::time::timestamp_in_range;

fn standard(id: i32) -> Option<Caller> {
    Some(Caller { id, role: Role::Standard })
}

fn moderator(id: i32) -> Option<Caller> {
    Some(Caller { id, role: Role::Moderator })
}

fn administrator(id: i32) -> Option<Caller> {
    Some(Caller { id, role: Role::Administrator })
}

/// One document (id 1) with two pages (ids 2, 3) and two tracks (ids 4,
/// 5), stamped at the Unix epoch.
fn seeded() -> CoursesService {
    let mut st = Store::new();
    st.add_document(String::from("Algebra"), 0, 0).unwrap();
    st.add_page(1, 1, String::from("p1.png"), 75, 1200).unwrap();
    st.add_page(1, 2, String::from("p2.png"), 75, 1200).unwrap();
    st.add_track(1, 1, String::from("Intro"), String::from("a1.mp3")).unwrap();
    st.add_track(1, 2, String::from("Chapter One"), String::from("a2.mp3")).unwrap();
    CoursesService::new(st)
}

fn anchors_of<'a>(groups: &'a [(i32, Vec<Anchor>)], key: i32) -> Option<&'a Vec<Anchor>> {
    groups.iter().find(|g| g.0 == key).map(|g| &g.1)
}

#[test]
fn get_documents_reports_rows_and_renders_timestamps() {
    let svc = seeded();
    let r = svc.get_documents(10, 0);
    assert_eq!(r.total, 1);
    assert_eq!(r.documents.len(), 1);
    assert_eq!(r.documents[0].id, 1);
    assert_eq!(r.documents[0].title, "Algebra");
    assert_eq!(r.documents[0].created_at, "1970-01-01T00:00:00+00:00");
    assert_eq!(r.documents[0].updated_at, "1970-01-01T00:00:00+00:00");
}

#[test]
fn document_accessors_expose_id_and_title() {
    let svc = seeded();
    let r = svc.get_documents(10, 0);
    assert_eq!(r.documents[0].id(), 1);
    assert_eq!(r.documents[0].title(), "Algebra");
}

#[test]
fn rfc3339_rendering_depends_on_the_instant() {
    let mut st = Store::new();
    st.add_document(String::from("Later"), 1431648000, 1431648000).unwrap();
    let svc = CoursesService::new(st);
    let r = svc.get_documents(10, 0);
    assert_eq!(r.documents[0].created_at, "2015-05-15T00:00:00+00:00");
}

#[test]
fn get_documents_total_counts_current_page_only() {
    let mut st = Store::new();
    st.add_document(String::from("A"), 0, 0).unwrap();
    st.add_document(String::from("B"), 0, 0).unwrap();
    st.add_document(String::from("C"), 0, 0).unwrap();
    let svc = CoursesService::new(st);
    let r = svc.get_documents(1, 1);
    assert_eq!(r.total, 1);
    assert_eq!(r.documents.len(), 1);
    assert_eq!(r.documents[0].title, "B");
    let beyond = svc.get_documents(10, 5);
    assert_eq!(beyond.total, 0);
    assert!(beyond.documents.is_empty());
}

#[test]
fn get_documents_by_ids_drops_unknown_ids() {
    let svc = seeded();
    let r = svc.get_documents_by_ids(&vec![1, 999, -5]);
    assert_eq!(r.len(), 1);
    assert_eq!(r[0].id, 1);
}

#[test]
fn get_pages_by_ids_returns_matching_subset() {
    let svc = seeded();
    let ids = vec![3, 2, 42];
    let r = svc.get_pages_by_ids(&ids);
    assert_eq!(r.len(), 2);
    assert!(r.len() <= ids.len());
    assert_eq!(r[0].id, 2);
    assert_eq!(r[1].id, 3);
    assert_eq!(r[0].document_id, 1);
}

#[test]
fn get_document_pages_windows_the_children() {
    let svc = seeded();
    let all = svc.get_document_pages(1, 10, 0);
    assert_eq!(all.total, 2);
    assert_eq!(all.pages[0].page_number, 1);
    assert_eq!(all.pages[1].page_number, 2);
    let second = svc.get_document_pages(1, 10, 1);
    assert_eq!(second.total, 1);
    assert_eq!(second.pages[0].page_number, 2);
    let none = svc.get_document_pages(77, 10, 0);
    assert_eq!(none.total, 0);
}

#[test]
fn get_document_tracks_lists_in_store_order() {
    let svc = seeded();
    let r = svc.get_document_tracks(1, 10, 0);
    assert_eq!(r.total, 2);
    assert_eq!(r.tracks[0].id, 4);
    assert_eq!(r.tracks[0].title, "Intro");
    assert_eq!(r.tracks[1].id, 5);
    assert_eq!(r.tracks[1].audio_path, "a2.mp3");
}

#[test]
fn get_tracks_by_ids_drops_unknown_ids() {
    let svc = seeded();
    let r = svc.get_tracks_by_ids(&vec![5, 1000]);
    assert_eq!(r.len(), 1);
    assert_eq!(r[0].id, 5);
    assert_eq!(r[0].title, "Chapter One");
}

#[test]
fn update_track_title_as_administrator_and_read_back() {
    let mut svc = seeded();
    let t = svc
        .update_track_title(5, String::from("New"), administrator(1))
        .unwrap();
    assert_eq!(t.id, 5);
    assert_eq!(t.title, "New");
    assert_eq!(t.document_id, 1);
    let read = svc.get_tracks_by_ids(&vec![5]);
    assert_eq!(read.len(), 1);
    assert_eq!(read[0].title, "New");
    let other = svc.get_tracks_by_ids(&vec![4]);
    assert_eq!(other[0].title, "Intro");
}

#[test]
fn update_track_title_denied_without_elevated_role() {
    let mut svc = seeded();
    let anon = svc.update_track_title(5, String::from("New"), None);
    assert_eq!(
        anon.unwrap_err(),
        ServiceError::PermissionDenied(DenyReason::NotAuthenticated)
    );
    let std_caller = svc.update_track_title(5, String::from("New"), standard(2));
    assert_eq!(
        std_caller.unwrap_err(),
        ServiceError::PermissionDenied(DenyReason::InsufficientRole)
    );
    let read = svc.get_tracks_by_ids(&vec![5]);
    assert_eq!(read[0].title, "Chapter One");
}

#[test]
fn update_missing_track_fails_closed() {
    let mut svc = seeded();
    let r = svc.update_track_title(99, String::from("New"), moderator(1));
    assert_eq!(r.unwrap_err(), ServiceError::StoreFailure(StoreError::RowNotFound));
}

#[test]
fn create_bookmark_as_moderator() {
    let mut svc = seeded();
    let b = svc
        .create_bookmark(String::from("Mark"), 2, 1, moderator(1))
        .unwrap();
    assert_eq!(b.id, 6);
    assert_eq!(b.title, "Mark");
    assert_eq!(b.page_id, 2);
    assert_eq!(b.document_id, 1);
    let read = svc.get_bookmarks_by_ids(&vec![6]);
    assert_eq!(read.len(), 1);
    assert_eq!(read[0].title, "Mark");
    let listed = svc.get_document_bookmarks(1, 10, 0);
    assert_eq!(listed.total, 1);
}

#[test]
fn create_bookmark_denied_without_elevated_role() {
    let mut svc = seeded();
    let anon = svc.create_bookmark(String::from("Mark"), 2, 1, None);
    assert_eq!(
        anon.unwrap_err(),
        ServiceError::PermissionDenied(DenyReason::NotAuthenticated)
    );
    let std_caller = svc.create_bookmark(String::from("Mark"), 2, 1, standard(9));
    assert_eq!(
        std_caller.unwrap_err(),
        ServiceError::PermissionDenied(DenyReason::InsufficientRole)
    );
    assert_eq!(svc.get_document_bookmarks(1, 10, 0).total, 0);
}

#[test]
fn create_bookmark_on_missing_parent_is_a_store_failure() {
    let mut svc = seeded();
    let bad_page = svc.create_bookmark(String::from("Mark"), 77, 1, moderator(1));
    assert_eq!(
        bad_page.unwrap_err(),
        ServiceError::StoreFailure(StoreError::ForeignKeyViolation)
    );
    let bad_doc = svc.create_bookmark(String::from("Mark"), 2, 55, moderator(1));
    assert_eq!(
        bad_doc.unwrap_err(),
        ServiceError::StoreFailure(StoreError::ForeignKeyViolation)
    );
}

#[test]
fn delete_bookmark_removes_the_row() {
    let mut svc = seeded();
    let b = svc
        .create_bookmark(String::from("Mark"), 2, 1, moderator(1))
        .unwrap();
    assert_eq!(svc.delete_bookmark(b.id, moderator(1)), Ok(()));
    assert!(svc.get_bookmarks_by_ids(&vec![b.id]).is_empty());
    // deleting a missing row deletes nothing and is no error
    assert_eq!(svc.delete_bookmark(b.id, moderator(1)), Ok(()));
}

#[test]
fn delete_bookmark_denied_for_standard_caller() {
    let mut svc = seeded();
    let b = svc
        .create_bookmark(String::from("Mark"), 2, 1, moderator(1))
        .unwrap();
    let r = svc.delete_bookmark(b.id, standard(9));
    assert_eq!(
        r.unwrap_err(),
        ServiceError::PermissionDenied(DenyReason::InsufficientRole)
    );
    assert_eq!(svc.get_bookmarks_by_ids(&vec![b.id]).len(), 1);
}

#[test]
fn create_anchor_stamps_both_instants_identically_and_round_trips() {
    let mut svc = seeded();
    let a = svc
        .create_anchor(Some(String::from("Note")), 12000, 10, 20, 2, 4, moderator(1))
        .unwrap();
    assert_eq!(a.created_at, a.updated_at);
    let read = svc.get_anchors_by_ids(&vec![a.id]);
    assert_eq!(read.len(), 1);
    let back = &read[0];
    assert_eq!(back.id, a.id);
    assert_eq!(back.title, a.title);
    assert_eq!(back.track_time, a.track_time);
    assert_eq!(back.position_top, a.position_top);
    assert_eq!(back.position_left, a.position_left);
    assert_eq!(back.page_id, a.page_id);
    assert_eq!(back.track_id, a.track_id);
    assert_eq!(back.created_at, a.created_at);
    assert_eq!(back.updated_at, a.updated_at);
}

#[test]
fn absent_anchor_title_surfaces_as_empty_string() {
    let mut svc = seeded();
    let a = svc
        .create_anchor(None, 500, 1, 2, 3, 5, administrator(2))
        .unwrap();
    assert_eq!(a.title, "");
    let read = svc.get_anchors_by_ids(&vec![a.id]);
    assert_eq!(read[0].title, "");
}

#[test]
fn create_anchor_denied_without_elevated_role() {
    let mut svc = seeded();
    let anon = svc.create_anchor(None, 0, 0, 0, 2, 4, None);
    assert_eq!(
        anon.unwrap_err(),
        ServiceError::PermissionDenied(DenyReason::NotAuthenticated)
    );
    let std_caller = svc.create_anchor(None, 0, 0, 0, 2, 4, standard(3));
    assert_eq!(
        std_caller.unwrap_err(),
        ServiceError::PermissionDenied(DenyReason::InsufficientRole)
    );
}

#[test]
fn create_anchor_on_missing_parent_is_a_store_failure() {
    let mut svc = seeded();
    let r = svc.create_anchor(None, 0, 0, 0, 2, 99, moderator(1));
    assert_eq!(
        r.unwrap_err(),
        ServiceError::StoreFailure(StoreError::ForeignKeyViolation)
    );
}

#[test]
fn delete_anchor_requires_elevated_role() {
    let mut svc = seeded();
    let a = svc.create_anchor(None, 0, 0, 0, 2, 4, moderator(1)).unwrap();
    let denied = svc.delete_anchor(a.id, standard(9));
    assert_eq!(
        denied.unwrap_err(),
        ServiceError::PermissionDenied(DenyReason::InsufficientRole)
    );
    assert_eq!(svc.delete_anchor(a.id, administrator(9)), Ok(()));
    assert!(svc.get_anchors_by_ids(&vec![a.id]).is_empty());
}

#[test]
fn anchors_group_by_page_and_empty_pages_are_absent() {
    let mut svc = seeded();
    let a1 = svc
        .create_anchor(Some(String::from("first")), 100, 1, 1, 2, 4, moderator(1))
        .unwrap();
    let a2 = svc
        .create_anchor(Some(String::from("second")), 200, 2, 2, 2, 5, moderator(1))
        .unwrap();
    let groups = svc.get_anchors_by_page_ids(&vec![2, 3]);
    assert_eq!(groups.len(), 1);
    let on_page2 = anchors_of(&groups, 2).expect("page 2 must be present");
    assert_eq!(on_page2.len(), 2);
    assert_eq!(on_page2[0].id, a1.id);
    assert_eq!(on_page2[0].title, "first");
    assert_eq!(on_page2[1].id, a2.id);
    assert_eq!(on_page2[1].title, "second");
    assert!(anchors_of(&groups, 3).is_none());
}

#[test]
fn user_anchor_owner_is_the_caller() {
    let mut svc = seeded();
    let ua = svc
        .create_user_anchor(Some(String::from("mine")), 300, 4, 5, 3, 4, standard(7))
        .unwrap();
    assert_eq!(ua.owner, 7);
    assert_eq!(ua.created_at, ua.updated_at);
    let read = svc.get_user_anchors_by_ids(&vec![ua.id]);
    assert_eq!(read.len(), 1);
    assert_eq!(read[0].owner, 7);
}

#[test]
fn create_user_anchor_denied_anonymous() {
    let mut svc = seeded();
    let r = svc.create_user_anchor(None, 0, 0, 0, 3, 4, None);
    assert_eq!(
        r.unwrap_err(),
        ServiceError::PermissionDenied(DenyReason::NotAuthenticated)
    );
}

#[test]
fn delete_user_anchor_applies_the_ownership_rule() {
    let mut svc = seeded();
    let ua = svc
        .create_user_anchor(None, 0, 0, 0, 3, 4, standard(7))
        .unwrap();
    let stranger = svc.delete_user_anchor(ua.id, standard(8));
    assert_eq!(
        stranger.unwrap_err(),
        ServiceError::PermissionDenied(DenyReason::NotOwner)
    );
    assert_eq!(svc.get_user_anchors_by_ids(&vec![ua.id]).len(), 1);
    assert_eq!(svc.delete_user_anchor(ua.id, moderator(8)), Ok(()));
    assert!(svc.get_user_anchors_by_ids(&vec![ua.id]).is_empty());
}

#[test]
fn delete_user_anchor_by_its_owner() {
    let mut svc = seeded();
    let ua = svc
        .create_user_anchor(None, 0, 0, 0, 3, 4, standard(7))
        .unwrap();
    assert_eq!(svc.delete_user_anchor(ua.id, standard(7)), Ok(()));
    assert!(svc.get_user_anchors_by_ids(&vec![ua.id]).is_empty());
}

#[test]
fn delete_user_anchor_of_missing_row_fails_closed() {
    let mut svc = seeded();
    let r = svc.delete_user_anchor(404, standard(7));
    assert_eq!(r.unwrap_err(), ServiceError::StoreFailure(StoreError::RowNotFound));
}

#[test]
fn delete_user_anchor_denied_anonymous_before_any_lookup() {
    let mut svc = seeded();
    let r = svc.delete_user_anchor(404, None);
    assert_eq!(
        r.unwrap_err(),
        ServiceError::PermissionDenied(DenyReason::NotAuthenticated)
    );
}

#[test]
fn user_anchors_group_by_page() {
    let mut svc = seeded();
    svc.create_user_anchor(None, 1, 1, 1, 2, 4, standard(7)).unwrap();
    svc.create_user_anchor(None, 2, 2, 2, 3, 4, standard(7)).unwrap();
    let groups = svc.get_user_anchors_by_page_ids(&vec![2, 3]);
    assert_eq!(groups.len(), 2);
    assert!(groups.iter().any(|g| g.0 == 2 && g.1.len() == 1));
    assert!(groups.iter().any(|g| g.0 == 3 && g.1.len() == 1));
}

#[test]
fn exhausted_key_sequence_is_a_store_failure() {
    let mut st = Store {
        documents: Vec::new(),
        pages: Vec::new(),
        tracks: Vec::new(),
        bookmarks: Vec::new(),
        anchors: Vec::new(),
        user_anchors: Vec::new(),
        next_id: i32::MAX,
    };
    let r = st.add_document(String::from("too late"), 0, 0);
    assert_eq!(r.unwrap_err(), StoreError::KeysExhausted);
}

#[test]
fn error_messages_name_the_failure() {
    assert_eq!(
        ServiceError::PermissionDenied(DenyReason::NotAuthenticated).message(),
        "you must be logged in to perform this operation"
    );
    assert_eq!(
        ServiceError::PermissionDenied(DenyReason::InsufficientRole).message(),
        "only moderators or administrators may perform this operation"
    );
    assert_eq!(
        ServiceError::PermissionDenied(DenyReason::NotOwner).message(),
        "you may not delete other users' anchors"
    );
    assert_eq!(
        ServiceError::StoreFailure(StoreError::RowNotFound).message(),
        "no matching row"
    );
    assert_eq!(
        ServiceError::StoreFailure(StoreError::ForeignKeyViolation).message(),
        "a referenced row does not exist"
    );
    assert_eq!(
        ServiceError::StoreFailure(StoreError::KeysExhausted).message(),
        "no fresh key available"
    );
}

#[test]
fn timestamp_range_check_matches_the_calendar_limits() {
    assert!(timestamp_in_range(0));
    assert!(timestamp_in_range(1431648000));
    assert!(timestamp_in_range(-8334601228800));
    assert!(timestamp_in_range(8210266876799));
    assert!(!timestamp_in_range(i64::MAX));
    assert!(!timestamp_in_range(i64::MIN));
}
