//! Database-level operations: lifecycle and table namespace management.

use rdb::{DbBase, DbError, Disk};

fn s(x: &str) -> String {
    x.to_string()
}

#[test]
fn create_database_twice_fails() {
    let mut disk = Disk::new();
    DbBase::new(&mut disk, s("db"), s("json")).unwrap();
    let r = DbBase::new(&mut disk, s("db"), s("json"));
    assert!(matches!(r, Err(DbError::AlreadyExists)));
}

#[test]
fn open_missing_database_fails() {
    let disk = Disk::new();
    let r = DbBase::from_name(&disk, s("db"), s("json"));
    assert!(matches!(r, Err(DbError::NotFound)));
}

#[test]
fn new_database_tracks_no_tables() {
    let mut disk = Disk::new();
    let base = DbBase::new(&mut disk, s("db"), s("json")).unwrap();
    assert!(base.table_names().is_empty());
}

#[test]
fn add_table_then_get_table_is_empty() {
    let mut disk = Disk::new();
    let mut base = DbBase::new(&mut disk, s("db"), s("json")).unwrap();
    base.add_table(&mut disk, s("orders")).unwrap();
    let t = base.get_table(&disk, s("orders")).unwrap();
    assert!(t.key_names().is_empty());
    assert_eq!(t.get(&s("anything")), Err(DbError::KeyNotFound));
}

#[test]
fn add_table_twice_fails() {
    let mut disk = Disk::new();
    let mut base = DbBase::new(&mut disk, s("db"), s("json")).unwrap();
    base.add_table(&mut disk, s("t")).unwrap();
    let r = base.add_table(&mut disk, s("t"));
    assert!(matches!(r, Err(DbError::TableAlreadyExists)));
}

#[test]
fn add_table_over_orphaned_file_fails() {
    let mut disk = Disk::new();
    let mut base = DbBase::new(&mut disk, s("db"), s("json")).unwrap();
    disk.write_file(&s("db"), &s("t.json"), s("{}"));
    let r = base.add_table(&mut disk, s("t"));
    assert!(matches!(r, Err(DbError::AlreadyExists)));
    assert!(base.table_names().is_empty());
}

#[test]
fn drop_missing_table_fails_and_leaves_directory() {
    let mut disk = Disk::new();
    let mut base = DbBase::new(&mut disk, s("db1"), s("json")).unwrap();
    let r = base.drop_table(&mut disk, s("never"));
    assert!(matches!(r, Err(DbError::TableNotFound)));
    assert!(disk.list_dir(&s("db1")).is_empty());
}

#[test]
fn drop_table_deletes_file_and_untracks() {
    let mut disk = Disk::new();
    let mut base = DbBase::new(&mut disk, s("db"), s("json")).unwrap();
    base.add_table(&mut disk, s("t")).unwrap();
    assert_eq!(disk.list_dir(&s("db")), vec![s("t.json")]);
    base.drop_table(&mut disk, s("t")).unwrap();
    assert!(disk.list_dir(&s("db")).is_empty());
    assert!(base.table_names().is_empty());
    let r = base.get_table(&disk, s("t"));
    assert!(matches!(r, Err(DbError::TableNotFound)));
}

#[test]
fn get_untracked_table_fails() {
    let mut disk = Disk::new();
    let base = DbBase::new(&mut disk, s("db"), s("json")).unwrap();
    let r = base.get_table(&disk, s("t"));
    assert!(matches!(r, Err(DbError::TableNotFound)));
}

#[test]
fn get_table_with_missing_file_fails() {
    let mut disk = Disk::new();
    let mut base = DbBase::new(&mut disk, s("db"), s("json")).unwrap();
    base.add_table(&mut disk, s("t")).unwrap();
    disk.remove_file(&s("db"), &s("t.json"));
    let r = base.get_table(&disk, s("t"));
    assert!(matches!(r, Err(DbError::NotFound)));
}

#[test]
fn corrupt_table_file_fails_to_load() {
    let mut disk = Disk::new();
    DbBase::new(&mut disk, s("db"), s("json")).unwrap();
    disk.write_file(&s("db"), &s("t.json"), s("not a mapping"));
    let base = DbBase::from_name(&disk, s("db"), s("json")).unwrap();
    assert_eq!(base.table_names(), vec![s("t")]);
    let r = base.get_table(&disk, s("t"));
    assert!(matches!(r, Err(DbError::CorruptData)));
}

#[test]
fn open_derives_tables_from_directory() {
    let mut disk = Disk::new();
    let mut base = DbBase::new(&mut disk, s("db"), s("json")).unwrap();
    base.add_table(&mut disk, s("a")).unwrap();
    base.add_table(&mut disk, s("b")).unwrap();
    disk.write_file(&s("db"), &s("readme.txt"), s("no table"));
    let reopened = DbBase::from_name(&disk, s("db"), s("json")).unwrap();
    let mut names = reopened.table_names();
    names.sort();
    assert_eq!(names, vec![s("a"), s("b")]);
}

#[test]
fn open_or_create_opens_existing() {
    let mut disk = Disk::new();
    let mut base = DbBase::new(&mut disk, s("db"), s("json")).unwrap();
    base.add_table(&mut disk, s("t")).unwrap();
    let other = DbBase::new(&mut disk, s("other"), s("json")).unwrap();
    let reopened = other.from_name_or_new(&mut disk, s("db"), s("json"));
    assert_eq!(reopened.table_names(), vec![s("t")]);
}

#[test]
fn open_or_create_creates_missing() {
    let mut disk = Disk::new();
    let seed = DbBase::new(&mut disk, s("seed"), s("json")).unwrap();
    let made = seed.from_name_or_new(&mut disk, s("db"), s("json"));
    assert!(made.table_names().is_empty());
    assert!(disk.has_dir(&s("db")));
}

#[test]
fn extension_is_threaded_through_stores() {
    let mut disk = Disk::new();
    let mut base = DbBase::new(&mut disk, s("db"), s("data")).unwrap();
    base.add_table(&mut disk, s("t")).unwrap();
    assert_eq!(disk.list_dir(&s("db")), vec![s("t.data")]);
    let reopened = DbBase::from_name(&disk, s("db"), s("data")).unwrap();
    assert_eq!(reopened.table_names(), vec![s("t")]);
}
