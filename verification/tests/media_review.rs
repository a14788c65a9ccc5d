use yaiko::media_review::{MediaReviewStore, ReviewError, ReviewState};

#[test]
fn assigns_feedback_and_decides() {
    let mut s = MediaReviewStore::new(2, 2);
    let x = s.create("p", "t", "r", "v1", "owner").unwrap().requests[0].clone();
    let who = "checker";
    let a = s.assign("p", "t", "r", x.revision, who).unwrap().requests[0].clone();
    let f = s.feedback("p", "t", "r", a.revision, "fix audio").unwrap().requests[0].clone();
    let d = s.decide("p", "t", "r", f.revision, ReviewState::Approved).unwrap();
    assert_eq!(d.requests[0].state, ReviewState::Approved)
}

#[test]
fn rejects_scope_conflict_unassigned_and_capacity() {
    let mut s = MediaReviewStore::new(1, 1);
    let x = s.create("p", "t", "r", "v", "o").unwrap().requests[0].clone();
    assert_eq!(s.assign("p", "x", "r", 1, "u"), Err(ReviewError::ScopeMismatch));
    assert_eq!(s.decide("p", "t", "r", x.revision, ReviewState::Approved), Err(ReviewError::StateConflict));
    let first = s.feedback("p", "t", "r", x.revision, "a");
    assert_eq!(first, Ok(s.snapshot("p", "t").unwrap()));
    assert_eq!(s.feedback("p", "t", "r", 2, "b"), Err(ReviewError::Capacity));
}

#[test]
fn requests_are_ordered_by_id_and_revisions_checked() {
    let mut s = MediaReviewStore::new(2, 2);
    s.create("p", "t", "b", "v", "o").unwrap();
    let snap = s.create("p", "t", "a", "v", "o").unwrap();
    assert_eq!(snap.requests.iter().map(|r| r.id.as_str()).collect::<Vec<_>>(), vec!["a", "b"]);
    assert_eq!(s.create("p", "t", "a", "v", "o"), Err(ReviewError::Duplicate));
    assert_eq!(s.assign("p", "t", "a", 7, "u"), Err(ReviewError::RevisionConflict));
}
