use tinystore::btree_file::BTreeFile;
use tinystore::error::ErrorKind;
use tinystore::range::{BTreeRange, Bound};
use tinystore::schema::{Column, ValueType};
use tinystore::txn::TransactionId;
use tinystore::value::{Int, Value};

fn txid(ts: u128) -> TransactionId {
    TransactionId::with_nonce(ts, 0)
}

fn int_index() -> BTreeFile {
    BTreeFile::create(vec![Column::new("x", ValueType::I64, None)]).unwrap()
}

fn k(x: i64) -> Vec<Value> {
    vec![Value::from_i64(x)]
}

fn i32v(x: i32) -> Value {
    Value::Int(Int::I32(x))
}

fn inclusive(lo: i64, hi: i64) -> BTreeRange {
    BTreeRange::new(vec![Bound::In(Value::from_i64(lo))], vec![Bound::In(Value::from_i64(hi))])
}

#[test]
fn single_column_scenario() {
    let t = txid(1);
    let mut b = int_index();
    for x in [3, 1, 4, 1, 5, 9, 2, 6] {
        b.insert(&t, k(x)).unwrap();
    }
    let all = BTreeRange::all();
    let fwd = b.stream(&t, &all, false).unwrap();
    assert_eq!(fwd, vec![k(1), k(2), k(3), k(4), k(5), k(6), k(9)]);
    let rev = b.stream(&t, &all, true).unwrap();
    assert_eq!(rev, vec![k(9), k(6), k(5), k(4), k(3), k(2), k(1)]);
    assert_eq!(b.len(&t, &inclusive(2, 6)).unwrap(), 5);
}

#[test]
fn two_column_scenario() {
    let t = txid(1);
    let mut b = BTreeFile::create(vec![
        Column::new("a", ValueType::I32, None),
        Column::new("b", ValueType::I32, None),
    ])
    .unwrap();
    for (a, c) in [(1, 10), (1, 20), (2, 10), (2, 20)] {
        b.insert(&t, vec![i32v(a), i32v(c)]).unwrap();
    }
    let r1 = BTreeRange::new(
        vec![Bound::In(i32v(1)), Bound::In(i32v(15))],
        vec![Bound::In(i32v(1)), Bound::Unbounded],
    );
    assert_eq!(b.stream(&t, &r1, false).unwrap(), vec![vec![i32v(1), i32v(20)]]);
    let r2 = BTreeRange::new(
        vec![Bound::In(i32v(1)), Bound::Unbounded],
        vec![Bound::In(i32v(2)), Bound::In(i32v(10))],
    );
    assert_eq!(
        b.stream(&t, &r2, false).unwrap(),
        vec![vec![i32v(1), i32v(10)], vec![i32v(1), i32v(20)], vec![i32v(2), i32v(10)]]
    );
}

#[test]
fn tombstone_then_reinsert() {
    let t = txid(1);
    let mut b = int_index();
    b.insert(&t, k(5)).unwrap();
    b.delete(&t, &inclusive(5, 5)).unwrap();
    assert!(b.stream(&t, &BTreeRange::all(), false).unwrap().is_empty());
    assert!(b.is_empty(&t));
    b.insert(&t, k(5)).unwrap();
    assert_eq!(b.stream(&t, &BTreeRange::all(), false).unwrap(), vec![k(5)]);
}

#[test]
fn insert_then_get() {
    let t = txid(1);
    let mut b = int_index();
    assert_eq!(b.get(&t, &k(7)).unwrap(), None);
    b.insert(&t, k(7)).unwrap();
    assert_eq!(b.get(&t, &k(7)).unwrap(), Some(k(7)));
    assert_eq!(b.get(&t, &k(8)).unwrap(), None);
}

#[test]
fn commit_makes_keys_visible_to_later_transactions() {
    let t1 = txid(1);
    let t2 = txid(2);
    let mut b = int_index();
    b.insert(&t1, k(42)).unwrap();
    assert_eq!(b.get(&t2, &k(42)).unwrap(), None);
    b.commit(&t1);
    b.finalize(&t1);
    assert_eq!(b.stream(&t2, &BTreeRange::all(), false).unwrap(), vec![k(42)]);
}

#[test]
fn rollback_discards_writes() {
    let t1 = txid(1);
    let mut b = int_index();
    b.insert(&t1, k(1)).unwrap();
    b.rollback(&t1);
    b.rollback(&t1);
    assert!(b.is_empty(&t1));
}

#[test]
fn second_writer_conflicts() {
    let t1 = txid(1);
    let t2 = txid(2);
    let mut b = int_index();
    b.insert(&t1, k(1)).unwrap();
    let e = b.insert(&t2, k(2)).unwrap_err();
    assert_eq!(e.kind, ErrorKind::Conflict);
    let e = b.delete(&t2, &BTreeRange::all()).unwrap_err();
    assert_eq!(e.kind, ErrorKind::Conflict);
}

#[test]
fn invalid_keys_and_ranges_are_bad_requests() {
    let t = txid(1);
    let mut b = int_index();
    assert_eq!(b.insert(&t, vec![]).unwrap_err().kind, ErrorKind::BadRequest);
    assert_eq!(b.insert(&t, vec![Value::from_text("x")]).unwrap_err().kind, ErrorKind::BadRequest);
    let bad = BTreeRange::new(vec![Bound::In(Value::from_u64(1))], vec![]);
    assert_eq!(b.stream(&t, &bad, false).unwrap_err().kind, ErrorKind::BadRequest);
    assert_eq!(b.len(&t, &bad).unwrap_err().kind, ErrorKind::BadRequest);
}

#[test]
fn schema_errors() {
    let e = BTreeFile::create(vec![Column::new("s", ValueType::Str, None)]).err().unwrap();
    assert_eq!(e.kind, ErrorKind::BadRequest);
    let e = BTreeFile::create(vec![Column::new("x", ValueType::I64, Some(4))]).err().unwrap();
    assert_eq!(e.kind, ErrorKind::BadRequest);
}

#[test]
fn order_derivation() {
    // key size 8 + 2 = 10: (4000 - 16) / (10 + 16) = 153
    assert_eq!(int_index().order(), 153);
    // key size 2000 + 2: the quotient is 1, so the order is 2
    let b = BTreeFile::create(vec![Column::new("s", ValueType::Str, Some(2000))]).unwrap();
    assert_eq!(b.order(), 2);
}

fn lcg(seed: &mut u64) -> u64 {
    *seed = seed.wrapping_mul(6364136223846793005).wrapping_add(1442695040888963407);
    *seed >> 33
}

#[test]
fn random_inserts_stream_sorted_with_many_splits() {
    let t = txid(1);
    // order 2: every few keys split a node
    let mut b = BTreeFile::create(vec![Column::new("s", ValueType::Str, Some(2000))]).unwrap();
    let mut seed = 7u64;
    let mut expected: Vec<String> = Vec::new();
    for _ in 0..300 {
        let s = format!("{:06}", lcg(&mut seed) % 1000);
        b.insert(&t, vec![Value::from_text(&s)]).unwrap();
        expected.push(s);
    }
    expected.sort();
    expected.dedup();
    let got: Vec<Vec<Value>> = b.stream(&t, &BTreeRange::all(), false).unwrap();
    let want: Vec<Vec<Value>> = expected.iter().map(|s| vec![Value::from_text(s)]).collect();
    assert_eq!(got, want);
    let mut rev = b.stream(&t, &BTreeRange::all(), true).unwrap();
    rev.reverse();
    assert_eq!(rev, want);
}

#[test]
fn random_integer_inserts_stream_sorted() {
    let t = txid(1);
    let mut b = int_index();
    let mut seed = 11u64;
    let mut expected: Vec<i64> = Vec::new();
    for _ in 0..2000 {
        let x = (lcg(&mut seed) % 5000) as i64 - 2500;
        b.insert(&t, k(x)).unwrap();
        expected.push(x);
    }
    expected.sort();
    expected.dedup();
    let got = b.stream(&t, &BTreeRange::all(), false).unwrap();
    assert_eq!(got, expected.iter().map(|x| k(*x)).collect::<Vec<_>>());
}

#[test]
fn partitioned_ranges_count_adds_up() {
    let t = txid(1);
    let mut b = int_index();
    let keys: Vec<Vec<Value>> = (0..100).map(k).collect();
    b.insert_from(&t, &keys).unwrap();
    let whole = b.len(&t, &inclusive(10, 50)).unwrap();
    let left = BTreeRange::new(vec![Bound::In(Value::from_i64(10))], vec![Bound::Ex(Value::from_i64(30))]);
    let right = inclusive(30, 50);
    assert_eq!(whole, 41);
    assert_eq!(b.len(&t, &left).unwrap() + b.len(&t, &right).unwrap(), whole);
}

#[test]
fn delete_range_in_a_deep_tree() {
    let t = txid(1);
    let mut b = BTreeFile::create(vec![Column::new("s", ValueType::Str, Some(2000))]).unwrap();
    for i in 0..50 {
        b.insert(&t, vec![Value::from_text(&format!("{:03}", i))]).unwrap();
    }
    let r = BTreeRange::new(
        vec![Bound::In(Value::from_text("010"))],
        vec![Bound::Ex(Value::from_text("040"))],
    );
    b.delete(&t, &r).unwrap();
    assert_eq!(b.len(&t, &BTreeRange::all()).unwrap(), 20);
    assert_eq!(b.get(&t, &vec![Value::from_text("020")]).unwrap(), None);
    assert_eq!(
        b.get(&t, &vec![Value::from_text("040")]).unwrap(),
        Some(vec![Value::from_text("040")])
    );
    b.insert(&t, vec![Value::from_text("020")]).unwrap();
    assert_eq!(b.len(&t, &BTreeRange::all()).unwrap(), 21);
}

#[test]
fn update_overwrites_keys_in_range() {
    let t = txid(1);
    let mut b = int_index();
    for x in [1, 2, 3, 10] {
        b.insert(&t, k(x)).unwrap();
    }
    b.update(&t, &inclusive(1, 3), k(7)).unwrap();
    assert_eq!(b.stream(&t, &BTreeRange::all(), false).unwrap(), vec![k(7), k(10)]);
    // an empty range changes nothing
    b.update(&t, &inclusive(20, 30), k(25)).unwrap();
    assert_eq!(b.stream(&t, &BTreeRange::all(), false).unwrap(), vec![k(7), k(10)]);
    assert_eq!(b.update(&t, &inclusive(1, 3), vec![]).unwrap_err().kind, ErrorKind::BadRequest);
}
