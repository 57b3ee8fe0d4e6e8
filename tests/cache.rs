use tinystore::cache::BlockCache;
use tinystore::error::ErrorKind;
use tinystore::txn::TransactionId;

fn txid(ts: u128) -> TransactionId {
    TransactionId::with_nonce(ts, 0)
}

#[test]
fn cache_reads_writes_and_commits() {
    let t1 = txid(1);
    let t2 = txid(2);
    let mut c = BlockCache::new();
    let a = "a".to_string();
    assert_eq!(c.get(&a, &t1), None);
    assert_eq!(c.write(&a, &t1, vec![1]).unwrap_err().kind, ErrorKind::NotFound);
    c.insert(a.clone(), vec![0]);
    c.write(&a, &t1, vec![1]).unwrap();
    c.write(&a, &t1, vec![2]).unwrap();
    assert_eq!(c.get(&a, &t1), Some(vec![2]));
    assert_eq!(c.get(&a, &t2), Some(vec![0]));
    assert_eq!(c.write(&a, &t2, vec![3]).unwrap_err().kind, ErrorKind::Conflict);
    // a dirty slot stays
    assert!(c.is_dirty(&a));
    assert!(!c.evict(&a));
    c.commit(&t1);
    assert_eq!(c.get(&a, &t2), Some(vec![2]));
    assert!(!c.is_dirty(&a));
    assert!(c.evict(&a));
    assert_eq!(c.get(&a, &t2), None);
}

#[test]
fn cache_rollback() {
    let t1 = txid(1);
    let mut c = BlockCache::new();
    let a = "a".to_string();
    c.insert(a.clone(), vec![5]);
    c.write(&a, &t1, vec![6]).unwrap();
    c.rollback(&t1);
    assert_eq!(c.get(&a, &t1), Some(vec![5]));
    c.rollback(&t1);
    assert_eq!(c.get(&a, &t1), Some(vec![5]));
}
