use std::rc::Rc;

use fedimint_consensus::db::{DbTx, MemDatabase, WriteConflict};

fn value(tx: &DbTx<u64>, key: &[u8]) -> Option<u64> {
    tx.get_bytes(key).map(|v| *v)
}

fn committed(db: &MemDatabase<u64>, key: &[u8]) -> Option<u64> {
    db.get(key).map(|v| *v)
}

#[test]
fn test_dbtx_insert_elements() {
    let mut db: MemDatabase<u64> = MemDatabase::new();
    let mut tx = db.begin_transaction();
    assert!(tx.insert_bytes(&[1, 1], Rc::new(11)).is_none());
    assert!(tx.insert_bytes(&[1, 2], Rc::new(12)).is_none());
    assert_eq!(tx.insert_bytes(&[1, 1], Rc::new(111)).map(|v| *v), Some(11));
    tx.commit(&mut db).unwrap();
    assert_eq!(committed(&db, &[1, 1]), Some(111));
    assert_eq!(committed(&db, &[1, 2]), Some(12));
}

#[test]
fn test_dbtx_remove_nonexisting() {
    let db: MemDatabase<u64> = MemDatabase::new();
    let mut tx = db.begin_transaction();
    assert!(tx.remove(&[9]).is_none());
}

#[test]
fn test_dbtx_remove_existing() {
    let mut db: MemDatabase<u64> = MemDatabase::new();
    let mut tx = db.begin_transaction();
    tx.insert_bytes(&[7], Rc::new(70));
    tx.commit(&mut db).unwrap();
    let mut tx = db.begin_transaction();
    assert_eq!(tx.remove(&[7]).map(|v| *v), Some(70));
    assert_eq!(value(&tx, &[7]), None);
    tx.commit(&mut db).unwrap();
    assert_eq!(committed(&db, &[7]), None);
}

#[test]
fn test_dbtx_read_own_writes() {
    let db: MemDatabase<u64> = MemDatabase::new();
    let mut tx = db.begin_transaction();
    tx.insert_bytes(&[42], Rc::new(42));
    assert_eq!(value(&tx, &[42]), Some(42));
}

#[test]
fn test_dbtx_prevent_dirty_reads() {
    let db: MemDatabase<u64> = MemDatabase::new();
    let mut tx1 = db.begin_transaction();
    tx1.insert_bytes(&[42], Rc::new(42));
    let tx2 = db.begin_transaction();
    assert_eq!(value(&tx2, &[42]), None);
}

#[test]
fn test_dbtx_find_by_prefix() {
    let mut db: MemDatabase<u64> = MemDatabase::new();
    let mut tx = db.begin_transaction();
    tx.insert_bytes(&[2, 3], Rc::new(23));
    tx.insert_bytes(&[1, 5], Rc::new(15));
    tx.insert_bytes(&[2, 1], Rc::new(21));
    tx.insert_bytes(&[2], Rc::new(2));
    tx.insert_bytes(&[3, 0], Rc::new(30));
    let found: Vec<(Vec<u8>, u64)> =
        tx.find_by_prefix(&[2]).into_iter().map(|(k, v)| (k, *v)).collect();
    assert_eq!(found, vec![(vec![2], 2), (vec![2, 1], 21), (vec![2, 3], 23)]);
    tx.commit(&mut db).unwrap();
    let found: Vec<Vec<u8>> = db.find_by_prefix(&[1]).into_iter().map(|(k, _)| k).collect();
    assert_eq!(found, vec![vec![1, 5]]);
    assert!(db.find_by_prefix(&[4]).is_empty());
    assert_eq!(db.find_by_prefix(&[]).len(), 5);
}

#[test]
fn test_dbtx_commit() {
    let mut db: MemDatabase<u64> = MemDatabase::new();
    assert_eq!(db.current_version(), 0);
    let mut tx = db.begin_transaction();
    tx.insert_bytes(&[1], Rc::new(1));
    tx.insert_bytes(&[2], Rc::new(2));
    assert_eq!(tx.commit(&mut db), Ok(()));
    assert_eq!(db.current_version(), 1);
    let tx = db.begin_transaction();
    assert_eq!(value(&tx, &[1]), Some(1));
    assert_eq!(value(&tx, &[2]), Some(2));
}

#[test]
fn test_dbtx_prevent_nonrepeatable_reads() {
    let mut db: MemDatabase<u64> = MemDatabase::new();
    let reader = db.begin_transaction();
    assert_eq!(value(&reader, &[42]), None);
    let mut writer = db.begin_transaction();
    writer.insert_bytes(&[42], Rc::new(42));
    writer.commit(&mut db).unwrap();
    assert_eq!(value(&reader, &[42]), None);
    assert_eq!(committed(&db, &[42]), Some(42));
}

#[test]
fn test_dbtx_rollback_to_savepoint() {
    let db: MemDatabase<u64> = MemDatabase::new();
    let mut tx = db.begin_transaction();
    tx.insert_bytes(&[20], Rc::new(2000));
    tx.set_savepoint();
    tx.insert_bytes(&[21], Rc::new(2001));
    tx.insert_bytes(&[20], Rc::new(2002));
    assert!(tx.rollback_to_savepoint());
    assert_eq!(value(&tx, &[20]), Some(2000));
    assert_eq!(value(&tx, &[21]), None);
    tx.insert_bytes(&[22], Rc::new(2003));
    assert!(tx.rollback_to_savepoint());
    assert_eq!(value(&tx, &[22]), None);
    assert_eq!(value(&tx, &[20]), Some(2000));
}

#[test]
fn rollback_without_savepoint_changes_nothing() {
    let db: MemDatabase<u64> = MemDatabase::new();
    let mut tx = db.begin_transaction();
    tx.insert_bytes(&[5], Rc::new(5));
    assert!(!tx.rollback_to_savepoint());
    assert_eq!(value(&tx, &[5]), Some(5));
}

#[test]
fn test_dbtx_phantom_entry() {
    let mut db: MemDatabase<u64> = MemDatabase::new();
    let mut tx = db.begin_transaction();
    tx.insert_bytes(&[1, 1], Rc::new(1));
    tx.commit(&mut db).unwrap();
    let reader = db.begin_transaction();
    assert_eq!(reader.find_by_prefix(&[1]).len(), 1);
    let mut writer = db.begin_transaction();
    writer.insert_bytes(&[1, 2], Rc::new(2));
    writer.commit(&mut db).unwrap();
    assert_eq!(reader.find_by_prefix(&[1]).len(), 1);
    assert_eq!(db.find_by_prefix(&[1]).len(), 2);
}

#[test]
fn test_dbtx_write_conflict() {
    let mut db: MemDatabase<u64> = MemDatabase::new();
    let mut tx = db.begin_transaction();
    tx.insert_bytes(&[42], Rc::new(42));
    tx.commit(&mut db).unwrap();
    let mut tx2 = db.begin_transaction();
    let mut tx3 = db.begin_transaction();
    tx2.insert_bytes(&[42], Rc::new(43));
    tx3.insert_bytes(&[42], Rc::new(44));
    assert_eq!(tx2.commit(&mut db), Ok(()));
    assert_eq!(tx3.commit(&mut db), Err(WriteConflict));
    assert_eq!(committed(&db, &[42]), Some(43));
}

#[test]
fn disjoint_concurrent_writers_both_commit() {
    let mut db: MemDatabase<u64> = MemDatabase::new();
    let mut a = db.begin_transaction();
    let mut b = db.begin_transaction();
    a.insert_bytes(&[1], Rc::new(1));
    b.insert_bytes(&[2], Rc::new(2));
    assert_eq!(a.commit(&mut db), Ok(()));
    assert_eq!(b.commit(&mut db), Ok(()));
    assert_eq!(committed(&db, &[1]), Some(1));
    assert_eq!(committed(&db, &[2]), Some(2));
}

#[test]
fn removal_conflicts_with_concurrent_write() {
    let mut db: MemDatabase<u64> = MemDatabase::new();
    let mut a = db.begin_transaction();
    let mut b = db.begin_transaction();
    a.insert_bytes(&[1], Rc::new(1));
    b.remove(&[1]);
    assert_eq!(a.commit(&mut db), Ok(()));
    assert_eq!(b.commit(&mut db), Err(WriteConflict));
}

#[test]
fn module_view_sees_and_writes_only_its_subspace() {
    let mut db: MemDatabase<u64> = MemDatabase::new();
    let mut tx = db.begin_transaction();
    tx.insert_bytes(&[9, 9, 1], Rc::new(1));
    tx.insert_bytes(&[9, 9, 2], Rc::new(2));
    tx.insert_bytes(&[9, 8, 1], Rc::new(3));
    tx.commit(&mut db).unwrap();
    let mut tx = db.begin_transaction();
    let mut sub = tx.module_view(&[9, 9]);
    assert_eq!(value(&sub, &[1]), Some(1));
    assert_eq!(value(&sub, &[2]), Some(2));
    assert_eq!(sub.find_by_prefix(&[]).len(), 2);
    sub.insert_bytes(&[3], Rc::new(4));
    sub.remove(&[1]);
    tx.apply_module_writes(&[9, 9], &sub);
    assert_eq!(value(&tx, &[9, 9, 3]), Some(4));
    assert_eq!(value(&tx, &[9, 9, 1]), None);
    assert_eq!(value(&tx, &[9, 8, 1]), Some(3));
    assert_eq!(value(&tx, &[3]), None);
}
