use yaiko::rbac::{RbacError, RbacPolicy};

fn names(v: &[&str]) -> Vec<String> {
    v.iter().map(|s| s.to_string()).collect()
}

#[test]
fn inherits_and_matches_permissions() {
    let mut p = RbacPolicy::new();
    p.add_role("viewer", names(&["media.read"]), names(&[])).unwrap();
    p.add_role("editor", names(&["media.write"]), names(&["viewer"])).unwrap();
    assert!(p.allows(names(&["editor"]), "media.read").unwrap());
    assert!(p.allows(names(&["editor"]), "media.write").unwrap());
    assert!(!p.allows(names(&["viewer"]), "media.write").unwrap());
}

#[test]
fn validates_missing_roles_and_cycles() {
    let mut p = RbacPolicy::new();
    assert_eq!(p.add_role("editor", names(&["media.write"]), names(&["missing"])), Err(RbacError::MissingRole));
    p.add_role("admin", names(&["*"]), names(&[])).unwrap();
    assert!(p.allows(names(&["admin"]), "anything").unwrap());
    assert_eq!(p.allows(names(&["missing"]), "x"), Err(RbacError::MissingRole));
}

#[test]
fn revisiting_a_role_in_one_check_is_refused() {
    let mut p = RbacPolicy::default();
    p.add_role("base", names(&["read"]), names(&[])).unwrap();
    p.add_role("a", names(&[]), names(&["base"])).unwrap();
    p.add_role("b", names(&[]), names(&["base"])).unwrap();
    p.add_role("top", names(&[]), names(&["a", "b"])).unwrap();
    assert_eq!(p.allows(names(&["top"]), "write"), Err(RbacError::Cycle));
    assert!(p.allows(names(&["top"]), "read").unwrap());
    assert_eq!(p.add_role("self", names(&[]), names(&["self"])), Err(RbacError::Cycle));
    assert_eq!(p.add_role("base", names(&[]), names(&[])), Err(RbacError::DuplicateRole));
    assert_eq!(p.add_role("x", names(&["bad perm"]), names(&[])), Err(RbacError::InvalidPermission));
    assert_eq!(p.allows(names(&["base"]), "bad perm"), Err(RbacError::InvalidPermission));
    assert_eq!(p.add_role("a/b", names(&[]), names(&[])), Err(RbacError::InvalidName));
}
