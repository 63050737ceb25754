use monotree::Database;
use monotree::MemoryDB;

fn key(byte: u8) -> [u8; 32] {
    [byte; 32]
}

#[test]
fn plain_writes_read_back() {
    let mut db = MemoryDB::new("mem");
    let k = key(0x01);
    assert_eq!(db.get(&k).unwrap(), None);
    db.put(&k, vec![1, 2, 3]).unwrap();
    assert_eq!(db.get(&k).unwrap(), Some(vec![1, 2, 3]));
    db.delete(&k).unwrap();
    assert_eq!(db.get(&k).unwrap(), None);
}

#[test]
fn non_digest_wide_keys_are_refused() {
    let mut db = MemoryDB::new("mem");
    assert!(db.get(&[1, 2, 3][..]).is_err());
    assert!(db.put(&[1, 2, 3][..], vec![0]).is_err());
    assert!(db.delete(&[1, 2, 3][..]).is_err());
}

#[test]
fn batch_reads_consult_deletes_then_writes_then_store() {
    let mut db = MemoryDB::new("mem");
    let k = key(0x07);
    db.put(&k, vec![0xaa]).unwrap();

    db.init_batch().unwrap();
    // a pending delete shadows the stored value
    db.delete(&k).unwrap();
    assert_eq!(db.get(&k).unwrap(), None);
    // a later pending write un-shadows the key
    db.put(&k, vec![0xbb]).unwrap();
    assert_eq!(db.get(&k).unwrap(), Some(vec![0xbb]));
    // committing keeps exactly the visible state
    db.finish_batch().unwrap();
    assert_eq!(db.get(&k).unwrap(), Some(vec![0xbb]));
}

#[test]
fn commit_applies_pending_deletes() {
    let mut db = MemoryDB::new("mem");
    let k1 = key(0x11);
    let k2 = key(0x22);
    db.put(&k1, vec![1]).unwrap();

    db.init_batch().unwrap();
    db.put(&k2, vec![2]).unwrap();
    db.delete(&k1).unwrap();
    assert_eq!(db.get(&k1).unwrap(), None);
    assert_eq!(db.get(&k2).unwrap(), Some(vec![2]));
    db.finish_batch().unwrap();
    assert_eq!(db.get(&k1).unwrap(), None);
    assert_eq!(db.get(&k2).unwrap(), Some(vec![2]));
}

#[test]
fn put_then_delete_in_one_batch_ends_absent() {
    let mut db = MemoryDB::new("mem");
    let k = key(0x33);
    db.init_batch().unwrap();
    db.put(&k, vec![9]).unwrap();
    db.delete(&k).unwrap();
    assert_eq!(db.get(&k).unwrap(), None);
    db.finish_batch().unwrap();
    assert_eq!(db.get(&k).unwrap(), None);
}
