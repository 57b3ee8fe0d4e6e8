use vstd::prelude::*;

use crate::value::{Value, ValueView, values_view};

verus! {

/// A key: one value per column.
pub type Key = Vec<Value>;

/// The view of a key.
pub type KeyView = Seq<ValueView>;

pub open spec fn int_cmp(a: int, b: int) -> int {
    if a < b {
        -1
    } else if a > b {
        1
    } else {
        0
    }
}

/// Lexicographic comparison of byte strings from position `i` on.
pub open spec fn bytes_cmp_from(a: Seq<u8>, b: Seq<u8>, i: int) -> int
    decreases a.len() - i,
{
    if i >= a.len() {
        if i >= b.len() {
            0
        } else {
            -1
        }
    } else if i >= b.len() {
        1
    } else if a[i] < b[i] {
        -1
    } else if a[i] > b[i] {
        1
    } else {
        bytes_cmp_from(a, b, i + 1)
    }
}

pub open spec fn rank(v: ValueView) -> int {
    match v {
        ValueView::Bool(_) => 0,
        ValueView::Number(_) => 1,
        ValueView::Text(_) => 2,
    }
}

pub open spec fn bool_int(b: bool) -> int {
    if b {
        1
    } else {
        0
    }
}

/// The collation of two values: booleans before numbers before strings;
/// within a type, `false < true`, numeric order, and byte-lexicographic order.
pub open spec fn value_cmp(a: ValueView, b: ValueView) -> int {
    match (a, b) {
        (ValueView::Bool(x), ValueView::Bool(y)) => int_cmp(bool_int(x), bool_int(y)),
        (ValueView::Number(x), ValueView::Number(y)) => int_cmp(x, y),
        (ValueView::Text(x), ValueView::Text(y)) => bytes_cmp_from(x, y, 0),
        _ => int_cmp(rank(a), rank(b)),
    }
}

/// Lexicographic comparison of keys from column `i` on.
pub open spec fn key_cmp_from(a: KeyView, b: KeyView, i: int) -> int
    decreases a.len() - i,
{
    if i >= a.len() {
        if i >= b.len() {
            0
        } else {
            -1
        }
    } else if i >= b.len() {
        1
    } else if value_cmp(a[i], b[i]) != 0 {
        value_cmp(a[i], b[i])
    } else {
        key_cmp_from(a, b, i + 1)
    }
}

/// The collation of two keys.
pub open spec fn key_cmp(a: KeyView, b: KeyView) -> int {
    key_cmp_from(a, b, 0)
}

pub open spec fn key_lt(a: KeyView, b: KeyView) -> bool {
    key_cmp(a, b) < 0
}

proof fn lemma_bytes_cmp(a: Seq<u8>, b: Seq<u8>, c: Seq<u8>, i: int)
    requires
        0 <= i,
    ensures
        bytes_cmp_from(a, b, i) == -bytes_cmp_from(b, a, i),
        -1 <= bytes_cmp_from(a, b, i) <= 1,
        i <= a.len() && i <= b.len() && bytes_cmp_from(a, b, i) == 0 ==> a.len() == b.len() && forall|j: int|
            i <= j < a.len() ==> a[j] == b[j],
        bytes_cmp_from(a, a, i) == 0,
        bytes_cmp_from(a, b, i) < 0 && bytes_cmp_from(b, c, i) < 0 ==> bytes_cmp_from(a, c, i) < 0,
    decreases a.len() - i,
{
    if i < a.len() && i < b.len() {
        lemma_bytes_cmp(a, b, c, i + 1);
        if bytes_cmp_from(a, b, i) == 0 {
            assert forall|j: int| i <= j < a.len() implies a[j] == b[j] by {
                if j > i {
                }
            }
        }
    } else if i < a.len() {
        lemma_bytes_cmp(a, b, c, i + 1);
    }
}

proof fn lemma_bytes_eq(a: Seq<u8>, b: Seq<u8>)
    ensures
        bytes_cmp_from(a, b, 0) == 0 <==> a == b,
{
    lemma_bytes_cmp(a, b, b, 0);
    lemma_bytes_cmp(a, a, a, 0);
    if bytes_cmp_from(a, b, 0) == 0 {
        assert(a =~= b);
    }
}

/// The collation of values is a total order.
pub proof fn lemma_value_cmp(a: ValueView, b: ValueView, c: ValueView)
    ensures
        value_cmp(a, b) == -value_cmp(b, a),
        -1 <= value_cmp(a, b) <= 1,
        value_cmp(a, b) == 0 <==> a == b,
        value_cmp(a, b) < 0 && value_cmp(b, c) < 0 ==> value_cmp(a, c) < 0,
{
    match (a, b, c) {
        (ValueView::Text(x), ValueView::Text(y), ValueView::Text(z)) => {
            lemma_bytes_cmp(x, y, z, 0);
            lemma_bytes_eq(x, y);
        },
        (ValueView::Text(x), ValueView::Text(y), _) => {
            lemma_bytes_cmp(x, y, y, 0);
            lemma_bytes_eq(x, y);
        },
        _ => {},
    }
}

proof fn lemma_key_cmp_from(a: KeyView, b: KeyView, c: KeyView, i: int)
    requires
        0 <= i,
    ensures
        key_cmp_from(a, b, i) == -key_cmp_from(b, a, i),
        -1 <= key_cmp_from(a, b, i) <= 1,
        i <= a.len() && i <= b.len() && key_cmp_from(a, b, i) == 0 ==> a.len() == b.len() && forall|j: int|
            i <= j < a.len() ==> a[j] == b[j],
        key_cmp_from(a, a, i) == 0,
        key_cmp_from(a, b, i) < 0 && key_cmp_from(b, c, i) < 0 ==> key_cmp_from(a, c, i) < 0,
    decreases a.len() - i,
{
    if i < a.len() && i < b.len() && i < c.len() {
        lemma_value_cmp(a[i], b[i], c[i]);
        lemma_value_cmp(a[i], a[i], a[i]);
        lemma_value_cmp(a[i], c[i], b[i]);
        lemma_value_cmp(b[i], c[i], a[i]);
        lemma_key_cmp_from(a, b, c, i + 1);
    } else if i < a.len() && i < b.len() {
        lemma_value_cmp(a[i], b[i], b[i]);
        lemma_value_cmp(a[i], a[i], a[i]);
        lemma_key_cmp_from(a, b, c, i + 1);
    }
    if i < a.len() && i < b.len() && key_cmp_from(a, b, i) == 0 {
        lemma_value_cmp(a[i], b[i], b[i]);
        assert forall|j: int| i <= j < a.len() implies a[j] == b[j] by {
            if j > i {
            }
        }
    } else if i < a.len() {
        lemma_value_cmp(a[i], a[i], a[i]);
        lemma_key_cmp_from(a, b, c, i + 1);
    }
}

/// The collation of keys is a total order: antisymmetric, equal only on
/// equal keys, and transitive.
pub proof fn lemma_key_cmp(a: KeyView, b: KeyView, c: KeyView)
    ensures
        key_cmp(a, b) == -key_cmp(b, a),
        -1 <= key_cmp(a, b) <= 1,
        key_cmp(a, b) == 0 <==> a == b,
        key_lt(a, b) && key_lt(b, c) ==> key_lt(a, c),
{
    lemma_key_cmp_from(a, b, c, 0);
    lemma_key_cmp_from(a, a, a, 0);
    if key_cmp(a, b) == 0 {
        assert(a =~= b);
    }
}

/// Compares two byte strings.
fn compare_bytes(a: &[u8], b: &[u8]) -> (r: i8)
    ensures
        r as int == bytes_cmp_from(a@, b@, 0),
{
    let mut i: usize = 0;
    while i < a.len() && i < b.len()
        invariant
            i <= a@.len(),
            i <= b@.len(),
            bytes_cmp_from(a@, b@, 0) == bytes_cmp_from(a@, b@, i as int),
        decreases a@.len() - i,
    {
        if a[i] < b[i] {
            return -1;
        } else if a[i] > b[i] {
            return 1;
        }
        i = i + 1;
    }
    if i < a.len() {
        1
    } else if i < b.len() {
        -1
    } else {
        0
    }
}

fn rank_of(v: &Value) -> (r: i8)
    ensures
        r as int == rank(v@),
{
    match v {
        Value::Bool(_) => 0,
        Value::Int(_) => 1,
        Value::UInt(_) => 1,
        Value::Str(_) => 2,
    }
}

fn number_of(v: &Value) -> (r: i128)
    requires
        v@ is Number,
    ensures
        r as int == v@->Number_0,
{
    match v {
        Value::Int(i) => i.to_i128(),
        Value::UInt(u) => u.to_i128(),
        _ => 0,
    }
}

/// Compares two values: negative, zero or positive as `a` collates before,
/// equal to or after `b`.
pub fn compare_value(a: &Value, b: &Value) -> (r: i8)
    ensures
        r as int == value_cmp(a@, b@),
{
    let ra = rank_of(a);
    let rb = rank_of(b);
    if ra < rb {
        return -1;
    } else if ra > rb {
        return 1;
    }
    match (a, b) {
        (Value::Bool(x), Value::Bool(y)) => {
            if x.0 == y.0 {
                0
            } else if y.0 {
                -1
            } else {
                1
            }
        },
        (Value::Str(x), Value::Str(y)) => compare_bytes(x.as_str().as_bytes(), y.as_str().as_bytes()),
        _ => {
            let x = number_of(a);
            let y = number_of(b);
            if x < y {
                -1
            } else if x > y {
                1
            } else {
                0
            }
        },
    }
}

/// Compares two keys column by column.
pub fn compare_key(a: &Vec<Value>, b: &Vec<Value>) -> (r: i8)
    ensures
        r as int == key_cmp(values_view(a@), values_view(b@)),
{
    let ghost av = values_view(a@);
    let ghost bv = values_view(b@);
    let mut i: usize = 0;
    while i < a.len() && i < b.len()
        invariant
            i <= a@.len(),
            i <= b@.len(),
            av == values_view(a@),
            bv == values_view(b@),
            key_cmp(av, bv) == key_cmp_from(av, bv, i as int),
        decreases a@.len() - i,
    {
        let c = compare_value(&a[i], &b[i]);
        if c != 0 {
            return c;
        }
        i = i + 1;
    }
    if i < a.len() {
        1
    } else if i < b.len() {
        -1
    } else {
        0
    }
}

/// Compares two keys, as an `Ordering`.
pub fn compare(a: &Vec<Value>, b: &Vec<Value>) -> (r: core::cmp::Ordering)
    ensures
        r == core::cmp::Ordering::Less <==> key_cmp(values_view(a@), values_view(b@)) < 0,
        r == core::cmp::Ordering::Equal <==> key_cmp(values_view(a@), values_view(b@)) == 0,
        r == core::cmp::Ordering::Greater <==> key_cmp(values_view(a@), values_view(b@)) > 0,
{
    let c = compare_key(a, b);
    if c < 0 {
        core::cmp::Ordering::Less
    } else if c == 0 {
        core::cmp::Ordering::Equal
    } else {
        core::cmp::Ordering::Greater
    }
}

} // verus!
