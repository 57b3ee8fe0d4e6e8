use vstd::prelude::*;

use crate::error::{TCError, TCResult};
use crate::range::{Bound, BoundView, BTreeRange};
use crate::value::{Int, UInt, Value};

verus! {

/// The type of a column.
#[derive(Clone, Copy, Debug, PartialEq, Eq, Structural)]
pub enum ValueType {
    Bool,
    I16,
    I32,
    I64,
    U8,
    U16,
    U32,
    U64,
    Str,
}

/// The fixed size in bytes of a type, where it has one.
pub open spec fn type_size(t: ValueType) -> Option<nat> {
    match t {
        ValueType::Bool => Some(1),
        ValueType::I16 => Some(2),
        ValueType::I32 => Some(4),
        ValueType::I64 => Some(8),
        ValueType::U8 => Some(1),
        ValueType::U16 => Some(2),
        ValueType::U32 => Some(4),
        ValueType::U64 => Some(8),
        ValueType::Str => None,
    }
}

/// Whether a value is of a type, within a maximum length in bytes.
pub open spec fn value_fits(t: ValueType, max_len: Option<usize>, v: Value) -> bool {
    match (t, v) {
        (ValueType::Bool, Value::Bool(_)) => true,
        (ValueType::I16, Value::Int(Int::I16(_))) => true,
        (ValueType::I32, Value::Int(Int::I32(_))) => true,
        (ValueType::I64, Value::Int(Int::I64(_))) => true,
        (ValueType::U8, Value::UInt(UInt::U8(_))) => true,
        (ValueType::U16, Value::UInt(UInt::U16(_))) => true,
        (ValueType::U32, Value::UInt(UInt::U32(_))) => true,
        (ValueType::U64, Value::UInt(UInt::U64(_))) => true,
        (ValueType::Str, Value::Str(s)) => match max_len {
            Some(n) => vstd::utf8::encode_utf8(s@).len() <= n,
            None => true,
        },
        _ => false,
    }
}

impl ValueType {
    /// The fixed size in bytes of this type, where it has one.
    pub fn size(&self) -> (r: Option<usize>)
        ensures
            r.is_some() == type_size(*self).is_some(),
            r.is_some() ==> r.unwrap() as nat == type_size(*self).unwrap(),
    {
        match self {
            ValueType::Bool => Some(1),
            ValueType::I16 => Some(2),
            ValueType::I32 => Some(4),
            ValueType::I64 => Some(8),
            ValueType::U8 => Some(1),
            ValueType::U16 => Some(2),
            ValueType::U32 => Some(4),
            ValueType::U64 => Some(8),
            ValueType::Str => None,
        }
    }
}

/// A named, typed column; a string column declares its maximum length in bytes.
#[derive(Debug)]
pub struct Column {
    pub name: String,
    pub dtype: ValueType,
    pub max_len: Option<usize>,
}

impl Column {
    pub fn new(name: &str, dtype: ValueType, max_len: Option<usize>) -> (r: Column)
        ensures
            r.name@ == name@,
            r.dtype == dtype,
            r.max_len == max_len,
    {
        Column { name: name.to_string(), dtype, max_len }
    }

    /// A copy of this column.
    pub fn copy(&self) -> (r: Column)
        ensures
            r == *self,
    {
        Column { name: self.name.clone(), dtype: self.dtype, max_len: self.max_len }
    }

    /// Whether `v` may stand in this column.
    pub fn accepts(&self, v: &Value) -> (r: bool)
        ensures
            r == value_fits(self.dtype, self.max_len, *v),
    {
        match (self.dtype, v) {
            (ValueType::Bool, Value::Bool(_)) => true,
            (ValueType::I16, Value::Int(Int::I16(_))) => true,
            (ValueType::I32, Value::Int(Int::I32(_))) => true,
            (ValueType::I64, Value::Int(Int::I64(_))) => true,
            (ValueType::U8, Value::UInt(UInt::U8(_))) => true,
            (ValueType::U16, Value::UInt(UInt::U16(_))) => true,
            (ValueType::U32, Value::UInt(UInt::U32(_))) => true,
            (ValueType::U64, Value::UInt(UInt::U64(_))) => true,
            (ValueType::Str, Value::Str(s)) => match self.max_len {
                Some(n) => s.as_str().as_bytes().len() <= n,
                None => true,
            },
            _ => false,
        }
    }
}

/// The bytes one column adds to a stored key; `None` for a schema error
/// (a string without a maximum length, or a fixed-size type with one).
pub open spec fn column_bytes(c: Column) -> Option<nat> {
    match (type_size(c.dtype), c.max_len) {
        (Some(s), None) => Some(s),
        (None, Some(n)) => Some(n as nat),
        _ => None,
    }
}

pub open spec fn schema_ok(cols: Seq<Column>) -> bool {
    forall|i: int| 0 <= i < cols.len() ==> (#[trigger] column_bytes(cols[i])).is_some()
}

/// The sum of the column sizes of the first `n` columns.
pub open spec fn bytes_sum(cols: Seq<Column>, n: int) -> nat
    decreases n,
{
    if n <= 0 {
        0
    } else {
        bytes_sum(cols, n - 1) + match column_bytes(cols[n - 1]) {
            Some(b) => b,
            None => 0,
        }
    }
}

pub const BLOCK_SIZE: usize = 4000;

pub const BLOCK_ID_SIZE: usize = 16;

/// The order of a B-tree whose keys take `key_size` bytes.
pub open spec fn order_for(key_size: nat) -> nat {
    let m = (BLOCK_SIZE - BLOCK_ID_SIZE) as nat / (key_size + BLOCK_ID_SIZE as nat);
    if m < 2 {
        2
    } else {
        m
    }
}

/// The order of a B-tree over a schema: with `key_size` the column sizes
/// plus two flag bytes, `max(2, (block_size - id_size) / (key_size + id_size))`.
pub open spec fn schema_order(cols: Seq<Column>) -> nat {
    order_for(bytes_sum(cols, cols.len() as int) + 2)
}

/// Derives the B-tree order of a schema, or fails on a schema error.
pub fn derive_order(cols: &Vec<Column>) -> (r: TCResult<usize>)
    ensures
        r.is_ok() <==> schema_ok(cols@),
        r.is_ok() ==> r.unwrap() as nat == schema_order(cols@) && r.unwrap() >= 2,
        r.is_err() ==> r->Err_0.kind == crate::error::ErrorKind::BadRequest,
{
    let mut sum: usize = 0;
    let mut i: usize = 0;
    while i < cols.len()
        invariant
            i <= cols@.len(),
            forall|j: int| 0 <= j < i ==> (#[trigger] column_bytes(cols@[j])).is_some(),
            sum <= BLOCK_SIZE,
            bytes_sum(cols@, i as int) < BLOCK_SIZE ==> sum as nat == bytes_sum(cols@, i as int),
            bytes_sum(cols@, i as int) >= BLOCK_SIZE ==> sum == BLOCK_SIZE,
        decreases cols@.len() - i,
    {
        let c = &cols[i];
        let b: usize = match (c.dtype.size(), c.max_len) {
            (Some(s), None) => s,
            (None, Some(n)) => n,
            _ => {
                assert(column_bytes(cols@[i as int]).is_none());
                return Err(TCError::bad_request("a column needs exactly one of a fixed size or a maximum length"));
            },
        };
        if b >= BLOCK_SIZE - sum {
            sum = BLOCK_SIZE;
        } else {
            sum = sum + b;
        }
        i = i + 1;
    }
    let key_size = sum + 2;
    let m = (BLOCK_SIZE - BLOCK_ID_SIZE) / (key_size + BLOCK_ID_SIZE);
    proof {
        if bytes_sum(cols@, cols@.len() as int) >= BLOCK_SIZE {
            let total = bytes_sum(cols@, cols@.len() as int);
            vstd::arithmetic::div_mod::lemma_basic_div(3984int, total as int + 18int);
            vstd::arithmetic::div_mod::lemma_basic_div(3984int, key_size as int + 16);
        }
    }
    if m < 2 {
        Ok(2)
    } else {
        Ok(m)
    }
}

/// Whether a key has one value per column, each fitting its column.
pub open spec fn key_fits(cols: Seq<Column>, key: Seq<Value>) -> bool {
    key.len() == cols.len() && forall|i: int|
        0 <= i < key.len() ==> value_fits(cols[i].dtype, cols[i].max_len, #[trigger] key[i])
}

pub open spec fn bound_fits(c: Column, b: Bound) -> bool {
    match b {
        Bound::Unbounded => true,
        Bound::In(v) => value_fits(c.dtype, c.max_len, v),
        Bound::Ex(v) => value_fits(c.dtype, c.max_len, v),
    }
}

/// Whether bounds cover at most the columns of the schema, each bound value
/// fitting its column.
pub open spec fn bounds_fit(cols: Seq<Column>, b: Seq<Bound>) -> bool {
    b.len() <= cols.len() && forall|i: int| 0 <= i < b.len() ==> bound_fits(cols[i], #[trigger] b[i])
}

pub open spec fn range_fits(cols: Seq<Column>, r: BTreeRange) -> bool {
    bounds_fit(cols, r.start@) && bounds_fit(cols, r.end@)
}

/// Checks a key against a schema.
pub fn validate_key(cols: &Vec<Column>, key: &Vec<Value>) -> (r: TCResult<()>)
    ensures
        r.is_ok() <==> key_fits(cols@, key@),
        r.is_err() ==> r->Err_0.kind == crate::error::ErrorKind::BadRequest,
{
    if key.len() != cols.len() {
        return Err(TCError::bad_request("key has the wrong number of columns"));
    }
    let mut i: usize = 0;
    while i < key.len()
        invariant
            key@.len() == cols@.len(),
            i <= key@.len(),
            forall|j: int|
                0 <= j < i ==> value_fits(cols@[j].dtype, cols@[j].max_len, #[trigger] key@[j]),
        decreases key@.len() - i,
    {
        if !cols[i].accepts(&key[i]) {
            return Err(TCError::bad_request("key value does not fit its column"));
        }
        i = i + 1;
    }
    Ok(())
}

fn validate_bounds(cols: &Vec<Column>, b: &Vec<Bound>) -> (r: bool)
    ensures
        r == bounds_fit(cols@, b@),
{
    if b.len() > cols.len() {
        return false;
    }
    let mut i: usize = 0;
    while i < b.len()
        invariant
            b@.len() <= cols@.len(),
            i <= b@.len(),
            forall|j: int| 0 <= j < i ==> bound_fits(cols@[j], #[trigger] b@[j]),
        decreases b@.len() - i,
    {
        let ok = match &b[i] {
            Bound::Unbounded => true,
            Bound::In(v) => cols[i].accepts(v),
            Bound::Ex(v) => cols[i].accepts(v),
        };
        if !ok {
            return false;
        }
        i = i + 1;
    }
    true
}

/// Checks a range against a schema.
pub fn validate_range(cols: &Vec<Column>, range: &BTreeRange) -> (r: TCResult<()>)
    ensures
        r.is_ok() <==> range_fits(cols@, *range),
        r.is_err() ==> r->Err_0.kind == crate::error::ErrorKind::BadRequest,
{
    if validate_bounds(cols, &range.start) && validate_bounds(cols, &range.end) {
        Ok(())
    } else {
        Err(TCError::bad_request("range does not fit the schema"))
    }
}

} // verus!
