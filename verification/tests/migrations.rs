use sha2::{Digest, Sha256};
use yaiko::migrations::{Migration, MigrationError, MigrationRunner};

fn migrations() -> Vec<Migration> {
    vec![
        Migration::new(2, "add captions", "CREATE TABLE captions;", Some("DROP TABLE captions;".into())),
        Migration::new(1, "create projects", "CREATE TABLE projects;", Some("DROP TABLE projects;".into())),
    ]
}

#[test]
fn validates_orders_plans_and_applies_migrations() {
    let mut runner = MigrationRunner::new();
    let plan = runner.plan(&migrations()).unwrap();
    assert_eq!(plan.pending.iter().map(|migration| migration.version).collect::<Vec<_>>(), vec![1, 2]);
    runner.apply(&migrations()).unwrap();
    assert_eq!(runner.plan(&migrations()).unwrap().pending.len(), 0);
    assert_eq!(runner.applied().len(), 2);
}

#[test]
fn detects_checksum_drift_and_supports_rollback() {
    let mut runner = MigrationRunner::new();
    runner.apply(&migrations()).unwrap();
    let mut changed = migrations();
    changed[0] = Migration::new(2, "add captions", "ALTERED", Some("DROP TABLE captions;".into()));
    assert_eq!(runner.plan(&changed).unwrap_err(), MigrationError::ChecksumDrift { version: 2 });
    let rolled_back = runner.rollback(&migrations(), 2).unwrap();
    assert_eq!(rolled_back.version, 2);
    assert_eq!(runner.applied().len(), 1);
}

#[test]
fn rejects_duplicate_versions_and_invalid_checksums() {
    let mut duplicate = migrations();
    duplicate.push(Migration::new(1, "duplicate", "SELECT 1", None));
    assert_eq!(MigrationRunner::validate(&duplicate).unwrap_err(), MigrationError::DuplicateVersion);
    let mut invalid = migrations();
    invalid[0].checksum = "bad".into();
    assert_eq!(MigrationRunner::validate(&invalid).unwrap_err(), MigrationError::InvalidChecksum);
}

#[test]
fn checksum_covers_name_and_both_scripts() {
    let m = Migration::new(7, "n", "up", Some("down".into()));
    assert_eq!(m.checksum, format!("sha256:{:x}", Sha256::digest(b"n\nup\ndown")));
    let without_down = Migration::new(7, "n", "up", None);
    assert_eq!(without_down.checksum, format!("sha256:{:x}", Sha256::digest(b"n\nup\n")));
    assert!(m.verify_checksum());
    let mut tampered = m.clone();
    tampered.up_sql = "UP".into();
    assert!(!tampered.verify_checksum());
}

#[test]
fn validate_orders_by_version() {
    let ordered = MigrationRunner::validate(&migrations()).unwrap();
    assert_eq!(ordered.iter().map(|m| m.version).collect::<Vec<_>>(), vec![1, 2]);
    assert_eq!(ordered[0].name, "create projects");
}

#[test]
fn applying_twice_adds_nothing_and_reports_applied_records() {
    let mut runner = MigrationRunner::new();
    let first = runner.apply(&migrations()).unwrap();
    assert_eq!(first.pending.len(), 2);
    assert!(first.already_applied.is_empty());
    let second = runner.apply(&migrations()).unwrap();
    assert!(second.pending.is_empty());
    assert_eq!(second.already_applied.iter().map(|a| a.version).collect::<Vec<_>>(), vec![1, 2]);
    let applied = runner.applied();
    assert_eq!(applied[0].checksum, migrations()[1].checksum);
}

#[test]
fn rollback_errors() {
    let mut runner = MigrationRunner::new();
    assert_eq!(runner.rollback(&migrations(), 9).unwrap_err(), MigrationError::UnknownMigration { version: 9 });
    assert_eq!(runner.rollback(&migrations(), 1).unwrap_err(), MigrationError::UnknownMigration { version: 1 });
    let no_down = vec![Migration::new(3, "seed", "INSERT 1;", None)];
    runner.apply(&no_down).unwrap();
    assert_eq!(runner.rollback(&no_down, 3).unwrap_err(), MigrationError::MissingRollback { version: 3 });
    assert_eq!(runner.applied().len(), 1);
}
