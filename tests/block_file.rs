use tinystore::block_file::BlockFile;
use tinystore::error::ErrorKind;
use tinystore::txn::TransactionId;

fn txid(ts: u128) -> TransactionId {
    TransactionId::with_nonce(ts, 0)
}

#[test]
fn create_read_commit_finalize() {
    let t1 = txid(1);
    let t2 = txid(2);
    let mut f = BlockFile::new();
    f.create_block(&t1, "a".to_string(), vec![1, 2, 3]).unwrap();
    assert_eq!(f.get_block(&t1, &"a".to_string()).unwrap(), vec![1, 2, 3]);
    // not yet visible to another transaction
    assert_eq!(f.get_block(&t2, &"a".to_string()).unwrap_err().kind, ErrorKind::NotFound);
    f.commit(&t1);
    // the staged copy stays until finalization
    assert_eq!(f.pending.len(), 1);
    assert_eq!(f.listing.canonical, vec!["a".to_string()]);
    assert!(f.mutated.canonical.is_empty());
    f.finalize(&t1);
    assert!(f.pending.is_empty());
    assert_eq!(f.get_block(&t2, &"a".to_string()).unwrap(), vec![1, 2, 3]);
}

#[test]
fn reserved_and_duplicate_names() {
    let t = txid(1);
    let mut f = BlockFile::new();
    let e = f.create_block(&t, ".pending".to_string(), vec![]).unwrap_err();
    assert_eq!(e.kind, ErrorKind::BadRequest);
    f.create_block(&t, "a".to_string(), vec![0]).unwrap();
    let e = f.create_block(&t, "a".to_string(), vec![1]).unwrap_err();
    assert_eq!(e.kind, ErrorKind::BadRequest);
}

#[test]
fn writes_and_deletes() {
    let t1 = txid(1);
    let t2 = txid(2);
    let mut f = BlockFile::new();
    f.create_block(&t1, "a".to_string(), vec![1]).unwrap();
    f.create_block(&t1, "b".to_string(), vec![2]).unwrap();
    f.commit(&t1);
    f.finalize(&t1);
    f.write_block(&t2, &"a".to_string(), vec![9]).unwrap();
    f.delete_block(&t2, &"b".to_string()).unwrap();
    assert_eq!(f.get_block(&t2, &"a".to_string()).unwrap(), vec![9]);
    assert_eq!(f.get_block(&t2, &"b".to_string()).unwrap_err().kind, ErrorKind::NotFound);
    let t3 = txid(3);
    assert_eq!(f.get_block(&t3, &"a".to_string()).unwrap(), vec![1]);
    f.commit(&t2);
    assert_eq!(f.get_block(&t3, &"a".to_string()).unwrap(), vec![9]);
    assert_eq!(f.get_block(&t3, &"b".to_string()).unwrap_err().kind, ErrorKind::NotFound);
    assert_eq!(f.dir.get_block(&"b".to_string()), None);
}

#[test]
fn write_to_missing_block_and_conflicts() {
    let t1 = txid(1);
    let t2 = txid(2);
    let mut f = BlockFile::new();
    assert_eq!(f.write_block(&t1, &"x".to_string(), vec![]).unwrap_err().kind, ErrorKind::NotFound);
    f.create_block(&t1, "x".to_string(), vec![]).unwrap();
    let e = f.create_block(&t2, "y".to_string(), vec![]).unwrap_err();
    assert_eq!(e.kind, ErrorKind::Conflict);
}

#[test]
fn rollback_leaves_no_trace_in_the_listing() {
    let t1 = txid(1);
    let mut f = BlockFile::new();
    f.create_block(&t1, "a".to_string(), vec![1]).unwrap();
    f.rollback(&t1);
    f.rollback(&t1);
    assert_eq!(f.get_block(&t1, &"a".to_string()).unwrap_err().kind, ErrorKind::NotFound);
    f.finalize(&t1);
    assert!(f.pending.is_empty());
}

#[test]
fn missing_blob_is_internal() {
    let t = txid(1);
    let mut f = BlockFile::new();
    f.listing.canonical.push("ghost".to_string());
    assert_eq!(f.get_block(&t, &"ghost".to_string()).unwrap_err().kind, ErrorKind::Internal);
}

#[test]
fn replay_after_interrupted_commit() {
    let t1 = txid(1);
    let t3 = txid(3);
    let mut f = BlockFile::new();
    f.create_block(&t1, "k".to_string(), vec![7, 7]).unwrap();
    // the listing was published, the staged blobs were not yet copied
    f.listing.commit(&t1);
    assert_eq!(f.get_block(&t3, &"k".to_string()).unwrap_err().kind, ErrorKind::Internal);
    f.replay(&t1);
    assert_eq!(f.get_block(&t3, &"k".to_string()).unwrap(), vec![7, 7]);
}

#[test]
fn unique_ids_are_fresh() {
    let t = txid(1);
    let mut f = BlockFile::new();
    let id = f.unique_id(&t).unwrap();
    assert_eq!(id.len(), 36);
    f.create_block(&t, id.clone(), vec![]).unwrap();
    let other = f.unique_id(&t).unwrap();
    assert_ne!(other, id);
}

#[test]
fn a_block_deleted_before_commit_is_not_published() {
    let t = txid(1);
    let mut f = BlockFile::new();
    f.create_block(&t, "a".to_string(), vec![1]).unwrap();
    f.delete_block(&t, &"a".to_string()).unwrap();
    f.commit(&t);
    assert!(f.listing.canonical.is_empty());
    assert_eq!(f.dir.get_block(&"a".to_string()), None);
}

#[test]
fn rollback_drops_the_staging_directory() {
    let t1 = txid(1);
    let mut f = BlockFile::new();
    f.create_block(&t1, "a".to_string(), vec![1]).unwrap();
    assert_eq!(f.pending.len(), 1);
    f.rollback(&t1);
    assert!(f.pending.is_empty());
}

#[test]
fn host_directory_conflicts_and_missing_names() {
    let mut d = tinystore::host_dir::HostDir::new();
    d.create_block("x".to_string(), vec![1]).unwrap();
    assert_eq!(d.create_block("x".to_string(), vec![2]).unwrap_err().kind, ErrorKind::Conflict);
    d.delete_block(&"x".to_string()).unwrap();
    assert_eq!(d.delete_block(&"x".to_string()).unwrap_err().kind, ErrorKind::NotFound);
}
