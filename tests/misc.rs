use tinystore::class::{CollectionBaseType, IdRef, TableBaseType};
use tinystore::collator::{compare, compare_value};
use tinystore::error::ErrorKind;
use tinystore::range::{bisect_left, bisect_left_range, bisect_right, bisect_right_range, is_sorted, Bound};
use tinystore::tensor::{AxisBounds, AxisIter, Bounds, Shape};
use tinystore::txn::{TransactionId, TxnLock};
use tinystore::value::{Int, UInt, Value};

#[test]
fn values_collate_across_widths_and_types() {
    assert_eq!(compare_value(&Value::Int(Int::I16(-1)), &Value::UInt(UInt::U8(0))), -1);
    assert_eq!(compare_value(&Value::Int(Int::I32(7)), &Value::UInt(UInt::U64(7))), 0);
    assert_eq!(compare_value(&Value::from_bool(true), &Value::from_i64(0)), -1);
    assert_eq!(compare_value(&Value::from_text("b"), &Value::from_text("ab")), 1);
    assert_eq!(compare_value(&Value::from_text("ab"), &Value::from_text("abc")), -1);
    assert_eq!(
        compare(&vec![Value::from_i64(1), Value::from_i64(2)], &vec![Value::from_i64(1)]),
        std::cmp::Ordering::Greater
    );
}

#[test]
fn bisections() {
    let keys: Vec<Vec<Value>> = [1, 3, 3, 5].iter().map(|x| vec![Value::from_i64(*x)]).collect();
    assert!(is_sorted(&keys));
    assert_eq!(bisect_left(&keys, &vec![Value::from_i64(3)]), 1);
    assert_eq!(bisect_right(&keys, &vec![Value::from_i64(3)]), 3);
    assert_eq!(bisect_left_range(&keys, &vec![Bound::Ex(Value::from_i64(3))]), 3);
    assert_eq!(bisect_right_range(&keys, &vec![Bound::In(Value::from_i64(3))]), 3);
    let unsorted: Vec<Vec<Value>> = [2, 1].iter().map(|x| vec![Value::from_i64(*x)]).collect();
    assert!(!is_sorted(&unsorted));
}

#[test]
fn transactional_lock() {
    let t1 = TransactionId::with_nonce(1, 0);
    let t2 = TransactionId::with_nonce(2, 0);
    let mut l = TxnLock::new(10u64);
    l.write(&t1, 11).unwrap();
    assert_eq!(*l.read(&t1), 11);
    assert_eq!(*l.read(&t2), 10);
    assert_eq!(l.write(&t2, 12).unwrap_err().kind, ErrorKind::Conflict);
    l.rollback(&t1);
    l.rollback(&t1);
    assert_eq!(*l.read(&t1), 10);
    l.write(&t2, 12).unwrap();
    l.commit(&t2);
    assert_eq!(*l.read(&t1), 12);
    l.write(&t1, 13).unwrap();
    assert_eq!(*l.read(&t1), 13);
    // finalizing releases the pending state of every earlier transaction
    l.finalize(&t2);
    assert_eq!(*l.read(&t1), 12);
    l.finalize(&t2);
    assert_eq!(*l.read(&t1), 12);
}

#[test]
fn transaction_ids() {
    let a = TransactionId::new(5);
    assert_eq!(a.timestamp, 5);
    let b = TransactionId::with_nonce(5, 1);
    let c = TransactionId::with_nonce(6, 0);
    assert!(b.less_than(&c));
    assert!(!c.less_than(&b));
    assert!(b.at_or_before(&b));
}

#[test]
fn tensor_bounds() {
    let shape = Shape::new(vec![2, 3, 4]);
    assert_eq!(shape.size(), 24);
    let all = Bounds::all(&shape);
    assert_eq!(all.size(), 24);
    assert!(all.contains_coord(&vec![1, 2, 3]));
    assert!(!shape.contains_coord(&vec![2, 0, 0]));
    let b = Bounds::new(vec![AxisBounds::At(1), AxisBounds::In(1..3)]);
    assert!(shape.contains_bounds(&b));
    let full = shape.slice_bounds(b);
    assert_eq!(full.len(), 3);
    let s = full.to_shape();
    assert_eq!(s.0, vec![2, 4]);
    assert_eq!(full.size(), 8);
    assert!(full.contains_coord(&vec![1, 2, 0]));
    assert!(!full.contains_coord(&vec![0, 2, 0]));
    assert_eq!(full.as_coord(), None);
    let point = Bounds::new(vec![AxisBounds::At(1), AxisBounds::At(2)]);
    assert_eq!(point.as_coord(), Some(vec![1, 2]));
    assert!(AxisBounds::At(3).is_index());
    assert_eq!(AxisBounds::Of(vec![0, 2]).dim(), 2);
    assert_eq!(AxisBounds::all(5).dim(), 5);
    let too_big = Bounds::new(vec![AxisBounds::In(0..5)]);
    assert_eq!(shape.validate_bounds(&too_big).unwrap_err().kind, ErrorKind::Unsupported);
    assert_eq!(shape.validate_coord(&vec![0, 3]).unwrap_err().kind, ErrorKind::Unsupported);
    let mut n = Bounds::new(vec![AxisBounds::At(0)]);
    n.normalize(&shape);
    assert_eq!(n.len(), 3);
}

#[test]
fn axis_walks() {
    let mut w = AxisIter::Each(vec![4, 2], 0);
    assert_eq!(w.next(), Some(4));
    assert_eq!(w.next(), Some(2));
    assert_eq!(w.next(), None);
    let mut s = AxisIter::Step(3..5);
    assert_eq!(s.next(), Some(3));
    assert_eq!(s.next(), Some(4));
    assert_eq!(s.next(), None);
    let mut o = AxisIter::One(Some(9));
    assert_eq!(o.next(), Some(9));
    assert_eq!(o.next(), None);
}

#[test]
fn collection_types_from_paths() {
    let p = |s: &[&str]| s.iter().map(|x| x.to_string()).collect::<Vec<String>>();
    assert_eq!(CollectionBaseType::from_path(&p(&["btree"])).unwrap(), CollectionBaseType::BTree);
    assert_eq!(
        CollectionBaseType::from_path(&p(&["table", "index"])).unwrap(),
        CollectionBaseType::Table(TableBaseType::Index)
    );
    assert_eq!(CollectionBaseType::from_path(&p(&["tensor"])).unwrap(), CollectionBaseType::Tensor);
    assert_eq!(CollectionBaseType::from_path(&p(&["nope"])).unwrap_err().kind, ErrorKind::NotFound);
    assert_eq!(CollectionBaseType::from_path(&p(&[])).unwrap_err().kind, ErrorKind::Unsupported);
    let r = IdRef::new("x".to_string());
    assert_eq!(r.id(), "x");
    assert_eq!(r.into_id(), "x".to_string());
}
