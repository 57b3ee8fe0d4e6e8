use vstd::prelude::*;

verus! {

/// The mathematical value a column holds, as the collator sees it: numbers
/// of every width compare on one number line, strings compare by their
/// UTF-8 bytes.
pub enum ValueView {
    Bool(bool),
    Number(int),
    Text(Seq<u8>),
}

/// A boolean column value.
#[derive(Clone, Copy, Debug, PartialEq, Eq, Structural)]
pub struct Boolean(pub bool);

/// A signed integer of one of the supported widths.
#[derive(Clone, Copy, Debug, PartialEq, Eq, Structural)]
pub enum Int {
    I16(i16),
    I32(i32),
    I64(i64),
}

/// An unsigned integer of one of the supported widths.
#[derive(Clone, Copy, Debug, PartialEq, Eq, Structural)]
pub enum UInt {
    U8(u8),
    U16(u16),
    U32(u32),
    U64(u64),
}

impl Int {
    pub open spec fn spec_value(self) -> int {
        match self {
            Int::I16(x) => x as int,
            Int::I32(x) => x as int,
            Int::I64(x) => x as int,
        }
    }

    /// The number, widened.
    pub fn to_i128(&self) -> (r: i128)
        ensures
            r as int == self.spec_value(),
    {
        match self {
            Int::I16(x) => *x as i128,
            Int::I32(x) => *x as i128,
            Int::I64(x) => *x as i128,
        }
    }

    /// The size in bytes of this integer as stored.
    pub fn size(&self) -> (r: usize)
        ensures
            r == match self {
                Int::I16(_) => 2usize,
                Int::I32(_) => 4usize,
                Int::I64(_) => 8usize,
            },
    {
        match self {
            Int::I16(_) => 2,
            Int::I32(_) => 4,
            Int::I64(_) => 8,
        }
    }
}

impl UInt {
    pub open spec fn spec_value(self) -> int {
        match self {
            UInt::U8(x) => x as int,
            UInt::U16(x) => x as int,
            UInt::U32(x) => x as int,
            UInt::U64(x) => x as int,
        }
    }

    /// The number, widened.
    pub fn to_i128(&self) -> (r: i128)
        ensures
            r as int == self.spec_value(),
    {
        match self {
            UInt::U8(x) => *x as i128,
            UInt::U16(x) => *x as i128,
            UInt::U32(x) => *x as i128,
            UInt::U64(x) => *x as i128,
        }
    }

    /// The size in bytes of this integer as stored.
    pub fn size(&self) -> (r: usize)
        ensures
            r == match self {
                UInt::U8(_) => 1usize,
                UInt::U16(_) => 2usize,
                UInt::U32(_) => 4usize,
                UInt::U64(_) => 8usize,
            },
    {
        match self {
            UInt::U8(_) => 1,
            UInt::U16(_) => 2,
            UInt::U32(_) => 4,
            UInt::U64(_) => 8,
        }
    }
}

/// A column value.
#[derive(Debug, PartialEq)]
pub enum Value {
    Bool(Boolean),
    Int(Int),
    UInt(UInt),
    Str(String),
}

impl View for Value {
    type V = ValueView;

    open spec fn view(&self) -> ValueView {
        match self {
            Value::Bool(b) => ValueView::Bool(b.0),
            Value::Int(i) => ValueView::Number(i.spec_value()),
            Value::UInt(u) => ValueView::Number(u.spec_value()),
            Value::Str(s) => ValueView::Text(vstd::utf8::encode_utf8(s@)),
        }
    }
}

/// The view of a sequence of values.
pub open spec fn values_view(k: Seq<Value>) -> Seq<ValueView> {
    k.map_values(|v: Value| v@)
}

impl Value {
    pub fn from_bool(b: bool) -> (r: Value)
        ensures
            r@ == ValueView::Bool(b),
    {
        Value::Bool(Boolean(b))
    }

    pub fn from_i64(x: i64) -> (r: Value)
        ensures
            r@ == ValueView::Number(x as int),
    {
        Value::Int(Int::I64(x))
    }

    pub fn from_u64(x: u64) -> (r: Value)
        ensures
            r@ == ValueView::Number(x as int),
    {
        Value::UInt(UInt::U64(x))
    }

    pub fn from_text(s: &str) -> (r: Value)
        ensures
            r is Str,
            r->Str_0@ == s@,
    {
        Value::Str(s.to_string())
    }

    /// A copy of this value.
    pub fn copy(&self) -> (r: Value)
        ensures
            r == *self,
    {
        match self {
            Value::Bool(b) => Value::Bool(*b),
            Value::Int(i) => Value::Int(*i),
            Value::UInt(u) => Value::UInt(*u),
            Value::Str(s) => Value::Str(s.clone()),
        }
    }

    /// The stored size of this value when it has a fixed one.
    pub fn size(&self) -> (r: Option<usize>)
        ensures
            r.is_none() <==> self is Str,
    {
        match self {
            Value::Bool(_) => Some(1),
            Value::Int(i) => Some(i.size()),
            Value::UInt(u) => Some(u.size()),
            Value::Str(_) => None,
        }
    }
}

/// A copy of a sequence of values.
pub fn copy_values(k: &Vec<Value>) -> (r: Vec<Value>)
    ensures
        r@ == k@,
{
    let mut r: Vec<Value> = Vec::new();
    let mut i: usize = 0;
    while i < k.len()
        invariant
            i <= k@.len(),
            r@ == k@.subrange(0, i as int),
        decreases k@.len() - i,
    {
        r.push(k[i].copy());
        i = i + 1;
    }
    assert(r@ =~= k@);
    r
}

} // verus!
