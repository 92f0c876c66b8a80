//! Key-level operations on one table.

use rdb::{DbBase, DbError, DbTable, DbValue, Disk};

fn s(x: &str) -> String {
    x.to_string()
}

fn fresh_table(disk: &mut Disk, db: &str, table: &str) -> (DbBase, DbTable) {
    let mut base = DbBase::new(disk, s(db), s("json")).unwrap();
    let t = base.add_table(disk, s(table)).unwrap();
    (base, t)
}

#[test]
fn add_then_get_returns_value() {
    let mut disk = Disk::new();
    let (_base, mut t) = fresh_table(&mut disk, "db", "t");
    t.add(&mut disk, s("k"), DbValue::Int(42)).unwrap();
    assert_eq!(t.get(&s("k")), Ok(DbValue::Int(42)));
}

#[test]
fn add_then_get_structured_value() {
    let mut disk = Disk::new();
    let (_base, mut t) = fresh_table(&mut disk, "db", "t");
    let v = DbValue::Arr(vec![
        DbValue::Null,
        DbValue::Bool(true),
        DbValue::Str(s("x")),
        DbValue::Obj(vec![(s("n"), DbValue::Int(-7))]),
    ]);
    t.add(&mut disk, s("k"), v).unwrap();
    let expected = DbValue::Arr(vec![
        DbValue::Null,
        DbValue::Bool(true),
        DbValue::Str(s("x")),
        DbValue::Obj(vec![(s("n"), DbValue::Int(-7))]),
    ]);
    assert_eq!(t.get(&s("k")), Ok(expected));
}

#[test]
fn add_existing_key_fails_and_keeps_value() {
    let mut disk = Disk::new();
    let (_base, mut t) = fresh_table(&mut disk, "db", "t");
    t.add(&mut disk, s("k"), DbValue::Int(1)).unwrap();
    let r = t.add(&mut disk, s("k"), DbValue::Int(2));
    assert_eq!(r, Err(DbError::KeyAlreadyExists));
    assert_eq!(t.get(&s("k")), Ok(DbValue::Int(1)));
}

#[test]
fn update_present_key_overwrites() {
    let mut disk = Disk::new();
    let (_base, mut t) = fresh_table(&mut disk, "db", "t");
    t.add(&mut disk, s("k"), DbValue::Int(1)).unwrap();
    t.update(&mut disk, s("k"), DbValue::Int(2)).unwrap();
    assert_eq!(t.get(&s("k")), Ok(DbValue::Int(2)));
}

#[test]
fn update_absent_key_fails_and_leaves_table() {
    let mut disk = Disk::new();
    let (_base, mut t) = fresh_table(&mut disk, "db", "t");
    t.add(&mut disk, s("a"), DbValue::Int(1)).unwrap();
    let r = t.update(&mut disk, s("missing"), DbValue::Int(9));
    assert_eq!(r, Err(DbError::KeyNotFound));
    assert_eq!(t.get(&s("a")), Ok(DbValue::Int(1)));
    assert_eq!(t.key_names(), vec![s("a")]);
}

#[test]
fn remove_then_get_fails() {
    let mut disk = Disk::new();
    let (_base, mut t) = fresh_table(&mut disk, "db", "t");
    t.add(&mut disk, s("k"), DbValue::Int(5)).unwrap();
    t.remove(&mut disk, s("k")).unwrap();
    assert_eq!(t.get(&s("k")), Err(DbError::KeyNotFound));
}

#[test]
fn remove_prunes_key_list() {
    let mut disk = Disk::new();
    let (_base, mut t) = fresh_table(&mut disk, "db", "t");
    t.add(&mut disk, s("a"), DbValue::Int(1)).unwrap();
    t.add(&mut disk, s("b"), DbValue::Int(2)).unwrap();
    t.remove(&mut disk, s("a")).unwrap();
    assert_eq!(t.key_names(), vec![s("b")]);
}

#[test]
fn remove_absent_key_fails() {
    let mut disk = Disk::new();
    let (_base, mut t) = fresh_table(&mut disk, "db", "t");
    let r = t.remove(&mut disk, s("nope"));
    assert_eq!(r, Err(DbError::KeyNotFound));
}

#[test]
fn get_absent_key_fails() {
    let mut disk = Disk::new();
    let (_base, t) = fresh_table(&mut disk, "db", "t");
    assert_eq!(t.get(&s("nope")), Err(DbError::KeyNotFound));
}

#[test]
fn extreme_integers_survive_persistence() {
    let mut disk = Disk::new();
    let (base, mut t) = fresh_table(&mut disk, "db", "t");
    t.add(&mut disk, s("lo"), DbValue::Int(i64::MIN)).unwrap();
    t.add(&mut disk, s("hi"), DbValue::Int(i64::MAX)).unwrap();
    let again = base.get_table(&disk, s("t")).unwrap();
    assert_eq!(again.get(&s("lo")), Ok(DbValue::Int(i64::MIN)));
    assert_eq!(again.get(&s("hi")), Ok(DbValue::Int(i64::MAX)));
}
