//! End-to-end scenarios across database, table and codec, plus the file
//! name helpers.

use rdb::{table_file_name, table_stem, DbBase, DbValue, Disk};

fn s(x: &str) -> String {
    x.to_string()
}

#[test]
fn shop_orders_scenario() {
    let mut disk = Disk::new();
    let mut shop = DbBase::new(&mut disk, s("shop"), s("json")).unwrap();
    let mut orders = shop.add_table(&mut disk, s("orders")).unwrap();
    orders
        .add(
            &mut disk,
            s("order-1"),
            DbValue::Obj(vec![(s("item"), DbValue::Str(s("pen"))), (s("qty"), DbValue::Int(3))]),
        )
        .unwrap();
    orders
        .update(
            &mut disk,
            s("order-1"),
            DbValue::Obj(vec![(s("item"), DbValue::Str(s("pen"))), (s("qty"), DbValue::Int(5))]),
        )
        .unwrap();

    // A fresh instance, as a new process would build it.
    let reopened = DbBase::from_name(&disk, s("shop"), s("json")).unwrap();
    let orders_again = reopened.get_table(&disk, s("orders")).unwrap();
    let got = orders_again.get(&s("order-1")).unwrap();
    assert_eq!(
        got,
        DbValue::Obj(vec![(s("item"), DbValue::Str(s("pen"))), (s("qty"), DbValue::Int(5))])
    );
}

#[test]
fn loading_twice_yields_identical_tables() {
    let mut disk = Disk::new();
    let mut base = DbBase::new(&mut disk, s("db"), s("json")).unwrap();
    let mut t = base.add_table(&mut disk, s("t")).unwrap();
    t.add(&mut disk, s("b"), DbValue::Int(2)).unwrap();
    t.add(&mut disk, s("a"), DbValue::Int(1)).unwrap();

    let first = base.get_table(&disk, s("t")).unwrap();
    let second = base.get_table(&disk, s("t")).unwrap();
    assert_eq!(first.key_names(), second.key_names());
    assert_eq!(first.get(&s("a")), second.get(&s("a")));
    assert_eq!(first.get(&s("b")), second.get(&s("b")));
}

#[test]
fn mutation_survives_reopening() {
    let mut disk = Disk::new();
    let mut base = DbBase::new(&mut disk, s("db"), s("json")).unwrap();
    let mut t = base.add_table(&mut disk, s("t")).unwrap();
    t.add(&mut disk, s("keep"), DbValue::Str(s("v"))).unwrap();
    t.add(&mut disk, s("gone"), DbValue::Str(s("w"))).unwrap();
    t.remove(&mut disk, s("gone")).unwrap();

    let reopened = DbBase::from_name(&disk, s("db"), s("json")).unwrap();
    let t2 = reopened.get_table(&disk, s("t")).unwrap();
    assert_eq!(t2.get(&s("keep")), Ok(DbValue::Str(s("v"))));
    assert!(t2.get(&s("gone")).is_err());
    assert_eq!(t2.key_names(), vec![s("keep")]);
}

#[test]
fn file_name_is_stem_dot_extension() {
    assert_eq!(table_file_name(&s("t"), &s("json")), s("t.json"));
    assert_eq!(table_file_name(&s(""), &s("json")), s(".json"));
}

#[test]
fn stem_strips_only_the_suffix() {
    assert_eq!(table_stem(&s("t.json"), &s("json")), Some(s("t")));
    assert_eq!(table_stem(&s("a.json.json"), &s("json")), Some(s("a.json")));
    assert_eq!(table_stem(&s(".json"), &s("json")), Some(s("")));
    assert_eq!(table_stem(&s("t.txt"), &s("json")), None);
    assert_eq!(table_stem(&s("json"), &s("json")), None);
    assert_eq!(table_stem(&s("tjson"), &s("json")), None);
}
