use vstd::prelude::*;

use crate::error::{TCError, TCResult};

verus! {

/// The coordinates that one axis of a slice selects.
#[derive(Debug)]
pub enum AxisBounds {
    /// A single index; the axis drops out of the slice's shape.
    At(u64),
    /// The half-open range of indices.
    In(core::ops::Range<u64>),
    /// The listed indices.
    Of(Vec<u64>),
}

/// Whether an axis bound is the whole of an axis of size `size`.
pub open spec fn is_whole(b: AxisBounds, size: u64) -> bool {
    b matches AxisBounds::In(rg) && rg.start == 0 && rg.end == size
}

/// Whether a walk is a range walk from `start` to `end`.
pub open spec fn is_step(w: AxisIter, start: int, end: u64) -> bool {
    w matches AxisIter::Step(rg) && rg.start == start && rg.end == end
}

/// Whether an axis bound is well formed: a range does not end before it starts.
pub open spec fn axis_ok(b: AxisBounds) -> bool {
    match b {
        AxisBounds::In(r) => r.start <= r.end,
        _ => true,
    }
}

/// The number of coordinates an axis bound selects, or 0 for a single index.
pub open spec fn axis_dim(b: AxisBounds) -> int {
    match b {
        AxisBounds::At(_) => 0,
        AxisBounds::In(r) => r.end - r.start,
        AxisBounds::Of(v) => v@.len() as int,
    }
}

/// Whether an axis bound selects coordinate `c`.
pub open spec fn axis_contains(b: AxisBounds, c: u64) -> bool {
    match b {
        AxisBounds::At(i) => i == c,
        AxisBounds::In(r) => r.start <= c < r.end,
        AxisBounds::Of(v) => v@.contains(c),
    }
}

fn list_contains(v: &Vec<u64>, c: u64) -> (r: bool)
    ensures
        r == v@.contains(c),
{
    let mut j: usize = 0;
    while j < v.len()
        invariant
            j <= v@.len(),
            forall|t: int| 0 <= t < j ==> v@[t] != c,
        decreases v@.len() - j,
    {
        if v[j] == c {
            proof {
                assert(v@[j as int] == c);
            }
            return true;
        }
        j = j + 1;
    }
    false
}

impl AxisBounds {
    /// The whole axis of size `dim`.
    pub fn all(dim: u64) -> (r: AxisBounds)
        ensures
            is_whole(r, dim),
    {
        AxisBounds::In(core::ops::Range { start: 0, end: dim })
    }

    /// The number of coordinates selected, or 0 for a single index.
    pub fn dim(&self) -> (r: u64)
        requires
            axis_ok(*self),
        ensures
            r as int == axis_dim(*self),
    {
        match self {
            AxisBounds::At(_) => 0,
            AxisBounds::In(range) => range.end - range.start,
            AxisBounds::Of(indices) => indices.len() as u64,
        }
    }

    /// Whether this bound is a single index.
    pub fn is_index(&self) -> (r: bool)
        ensures
            r == (*self is At),
    {
        match self {
            AxisBounds::At(_) => true,
            _ => false,
        }
    }

    /// Whether this bound selects coordinate `c`.
    pub fn contains(&self, c: u64) -> (r: bool)
        ensures
            r == axis_contains(*self, c),
    {
        match self {
            AxisBounds::At(i) => *i == c,
            AxisBounds::In(range) => range.start <= c && c < range.end,
            AxisBounds::Of(indices) => list_contains(indices, c),
        }
    }
}

/// One step of a walk along an axis: a single index, the listed indices
/// from a position, or a range of indices.
#[derive(Debug)]
pub enum AxisIter {
    One(Option<u64>),
    Each(Vec<u64>, usize),
    Step(core::ops::Range<u64>),
}

impl AxisIter {
    /// The next coordinate of the walk, if any.
    pub fn next(&mut self) -> (r: Option<u64>)
        ensures
            match *old(self) {
                AxisIter::One(x) => r == x && *final(self) == AxisIter::One(None),
                AxisIter::Each(v, at) => if at < v@.len() {
                    r == Some(v@[at as int]) && *final(self) == AxisIter::Each(v, (at + 1) as usize)
                } else {
                    r is None && *final(self) == *old(self)
                },
                AxisIter::Step(rg) => if rg.start < rg.end {
                    r == Some(rg.start) && is_step(*final(self), rg.start + 1, rg.end)
                } else {
                    r is None && *final(self) == *old(self)
                },
            },
    {
        match self {
            AxisIter::One(x) => {
                let r = *x;
                *x = None;
                r
            },
            AxisIter::Each(v, at) => {
                if *at < v.len() {
                    let r = v[*at];
                    *at = *at + 1;
                    Some(r)
                } else {
                    None
                }
            },
            AxisIter::Step(rg) => {
                if rg.start < rg.end {
                    let r = rg.start;
                    rg.start = rg.start + 1;
                    Some(r)
                } else {
                    None
                }
            },
        }
    }
}

/// The product of a sequence of dimensions.
pub open spec fn product(s: Seq<u64>) -> int
    decreases s.len(),
{
    if s.len() == 0 {
        1
    } else {
        product(s.drop_last()) * s.last()
    }
}

/// The shape of a tensor: the size of each axis.
#[derive(Debug)]
pub struct Shape(pub Vec<u64>);

/// The bounds of a slice of a tensor: one bound per leading axis.
#[derive(Debug)]
pub struct Bounds {
    pub axes: Vec<AxisBounds>,
}

pub open spec fn axes_ok(axes: Seq<AxisBounds>) -> bool {
    forall|i: int| 0 <= i < axes.len() ==> axis_ok(#[trigger] axes[i])
}

/// The shape of a slice: the dimension of each axis that does not drop out.
pub open spec fn slice_shape(axes: Seq<AxisBounds>) -> Seq<u64>
    decreases axes.len(),
{
    if axes.len() == 0 {
        Seq::empty()
    } else {
        let rest = slice_shape(axes.drop_last());
        let d = axis_dim(axes.last());
        if d > 0 {
            rest.push(d as u64)
        } else {
            rest
        }
    }
}

impl Shape {
    pub fn new(dims: Vec<u64>) -> (r: Shape)
        ensures
            r.0@ == dims@,
    {
        Shape(dims)
    }

    /// The number of axes.
    pub fn len(&self) -> (r: usize)
        ensures
            r == self.0@.len(),
    {
        self.0.len()
    }

    /// The number of elements of a tensor of this shape.
    pub fn size(&self) -> (r: u64)
        requires
            forall|i: int| 0 <= i <= self.0@.len() ==> #[trigger] product(self.0@.subrange(0, i)) <= u64::MAX,
        ensures
            r as int == product(self.0@),
    {
        let mut p: u64 = 1;
        let mut i: usize = 0;
        while i < self.0.len()
            invariant
                i <= self.0@.len(),
                forall|j: int| 0 <= j <= self.0@.len() ==> #[trigger] product(self.0@.subrange(0, j)) <= u64::MAX,
                p as int == product(self.0@.subrange(0, i as int)),
            decreases self.0@.len() - i,
        {
            proof {
                let s = self.0@.subrange(0, i + 1);
                assert(s.drop_last() =~= self.0@.subrange(0, i as int));
                assert(product(s) <= u64::MAX);
            }
            p = p * self.0[i];
            i = i + 1;
        }
        proof {
            assert(self.0@.subrange(0, self.0@.len() as int) =~= self.0@);
        }
        p
    }

    /// Whether `coord` names an element of a tensor of this shape.
    pub fn contains_coord(&self, coord: &Vec<u64>) -> (r: bool)
        ensures
            r == (coord@.len() == self.0@.len() && forall|i: int|
                0 <= i < coord@.len() ==> coord@[i] < #[trigger] self.0@[i]),
    {
        if coord.len() != self.0.len() {
            return false;
        }
        let mut i: usize = 0;
        while i < coord.len()
            invariant
                coord@.len() == self.0@.len(),
                i <= coord@.len(),
                forall|j: int| 0 <= j < i ==> coord@[j] < #[trigger] self.0@[j],
            decreases coord@.len() - i,
        {
            if coord[i] >= self.0[i] {
                return false;
            }
            i = i + 1;
        }
        true
    }

    /// Whether every bound lies within this shape.
    pub fn contains_bounds(&self, bounds: &Bounds) -> (r: bool)
        ensures
            r == (bounds.axes@.len() <= self.0@.len() && forall|i: int|
                0 <= i < bounds.axes@.len() ==> axis_within(#[trigger] bounds.axes@[i], self.0@[i])),
    {
        if bounds.axes.len() > self.0.len() {
            return false;
        }
        let mut i: usize = 0;
        while i < bounds.axes.len()
            invariant
                bounds.axes@.len() <= self.0@.len(),
                i <= bounds.axes@.len(),
                forall|j: int| 0 <= j < i ==> axis_within(#[trigger] bounds.axes@[j], self.0@[j]),
            decreases bounds.axes@.len() - i,
        {
            let size = self.0[i];
            let ok = match &bounds.axes[i] {
                AxisBounds::At(x) => *x <= size,
                AxisBounds::In(range) => range.start <= size && range.end <= size,
                AxisBounds::Of(indices) => {
                    let mut j: usize = 0;
                    let mut all = true;
                    while j < indices.len()
                        invariant
                            j <= indices@.len(),
                            all == forall|t: int| 0 <= t < j ==> indices@[t] <= size,
                        decreases indices@.len() - j,
                    {
                        if indices[j] > size {
                            all = false;
                        }
                        j = j + 1;
                    }
                    all
                },
            };
            if !ok {
                return false;
            }
            i = i + 1;
        }
        true
    }

    /// Checks that every bound lies within this shape.
    pub fn validate_bounds(&self, bounds: &Bounds) -> (r: TCResult<()>)
        ensures
            r is Ok <==> (bounds.axes@.len() <= self.0@.len() && forall|i: int|
                0 <= i < bounds.axes@.len() ==> axis_within(#[trigger] bounds.axes@[i], self.0@[i])),
            r is Err ==> r->Err_0.kind == crate::error::ErrorKind::Unsupported,
    {
        if self.contains_bounds(bounds) {
            Ok(())
        } else {
            Err(TCError::unsupported("the shape does not contain the bounds"))
        }
    }

    /// Checks that each index of `coord` lies within its axis.
    pub fn validate_coord(&self, coord: &Vec<u64>) -> (r: TCResult<()>)
        ensures
            r is Ok <==> (coord@.len() <= self.0@.len() && forall|i: int|
                0 <= i < coord@.len() ==> coord@[i] < #[trigger] self.0@[i]),
            r is Err ==> r->Err_0.kind == crate::error::ErrorKind::Unsupported,
    {
        if coord.len() > self.0.len() {
            return Err(TCError::unsupported("the coordinate has more axes than the shape"));
        }
        let mut i: usize = 0;
        while i < coord.len()
            invariant
                coord@.len() <= self.0@.len(),
                i <= coord@.len(),
                forall|j: int| 0 <= j < i ==> coord@[j] < #[trigger] self.0@[j],
            decreases coord@.len() - i,
        {
            if coord[i] >= self.0[i] {
                return Err(TCError::unsupported("the shape does not contain the coordinate"));
            }
            i = i + 1;
        }
        Ok(())
    }

    /// Extends `bounds` with the whole of every axis it leaves out.
    pub fn slice_bounds(&self, bounds: Bounds) -> (r: Bounds)
        requires
            bounds.axes@.len() <= self.0@.len(),
        ensures
            r.axes@.len() == self.0@.len(),
            r.axes@.subrange(0, bounds.axes@.len() as int) == bounds.axes@,
            forall|i: int|
                bounds.axes@.len() <= i < self.0@.len() ==> is_whole(#[trigger] r.axes@[i], self.0@[i]),
    {
        let mut bounds = bounds;
        bounds.normalize(self);
        bounds
    }
}

/// Whether an axis bound lies within an axis of size `size`.
pub open spec fn axis_within(b: AxisBounds, size: u64) -> bool {
    match b {
        AxisBounds::At(i) => i <= size,
        AxisBounds::In(r) => r.start <= size && r.end <= size,
        AxisBounds::Of(v) => forall|t: int| 0 <= t < v@.len() ==> v@[t] <= size,
    }
}

impl Bounds {
    pub fn new(axes: Vec<AxisBounds>) -> (r: Bounds)
        ensures
            r.axes@ == axes@,
    {
        Bounds { axes }
    }

    /// The number of axes bounded.
    pub fn len(&self) -> (r: usize)
        ensures
            r == self.axes@.len(),
    {
        self.axes.len()
    }

    /// The bounds that select the whole of a tensor of `shape`.
    pub fn all(shape: &Shape) -> (r: Bounds)
        ensures
            r.axes@.len() == shape.0@.len(),
            forall|i: int|
                0 <= i < shape.0@.len() ==> is_whole(#[trigger] r.axes@[i], shape.0@[i]),
    {
        let mut axes: Vec<AxisBounds> = Vec::new();
        let mut i: usize = 0;
        while i < shape.0.len()
            invariant
                i <= shape.0@.len(),
                axes@.len() == i,
                forall|j: int|
                    0 <= j < i ==> is_whole(#[trigger] axes@[j], shape.0@[j]),
            decreases shape.0@.len() - i,
        {
            axes.push(AxisBounds::all(shape.0[i]));
            i = i + 1;
        }
        Bounds { axes }
    }

    /// Whether these bounds select `coord`.
    pub fn contains_coord(&self, coord: &Vec<u64>) -> (r: bool)
        ensures
            r == (coord@.len() == self.axes@.len() && forall|i: int|
                0 <= i < coord@.len() ==> axis_contains(#[trigger] self.axes@[i], coord@[i])),
    {
        if coord.len() != self.axes.len() {
            return false;
        }
        let mut i: usize = 0;
        while i < coord.len()
            invariant
                coord@.len() == self.axes@.len(),
                i <= coord@.len(),
                forall|j: int| 0 <= j < i ==> axis_contains(#[trigger] self.axes@[j], coord@[j]),
            decreases coord@.len() - i,
        {
            if !self.axes[i].contains(coord[i]) {
                return false;
            }
            i = i + 1;
        }
        true
    }

    /// The coordinate these bounds select, when every axis is a single index.
    pub fn as_coord(&self) -> (r: Option<Vec<u64>>)
        ensures
            r is Some <==> forall|i: int| 0 <= i < self.axes@.len() ==> (#[trigger] self.axes@[i]) is At,
            r is Some ==> r->Some_0@.len() == self.axes@.len() && forall|i: int|
                0 <= i < self.axes@.len() ==> #[trigger] self.axes@[i] == AxisBounds::At(r->Some_0@[i]),
    {
        let mut coord: Vec<u64> = Vec::new();
        let mut i: usize = 0;
        while i < self.axes.len()
            invariant
                i <= self.axes@.len(),
                coord@.len() == i,
                forall|j: int| 0 <= j < i ==> #[trigger] self.axes@[j] == AxisBounds::At(coord@[j]),
            decreases self.axes@.len() - i,
        {
            match &self.axes[i] {
                AxisBounds::At(x) => coord.push(*x),
                _ => {
                    return None;
                },
            }
            i = i + 1;
        }
        Some(coord)
    }

    /// Extends these bounds with the whole of every axis of `shape` that
    /// they leave out.
    pub fn normalize(&mut self, shape: &Shape)
        requires
            old(self).axes@.len() <= shape.0@.len(),
        ensures
            final(self).axes@.len() == shape.0@.len(),
            final(self).axes@.subrange(0, old(self).axes@.len() as int) == old(self).axes@,
            forall|i: int|
                old(self).axes@.len() <= i < shape.0@.len() ==> is_whole(#[trigger] final(self).axes@[i], shape.0@[i]),
    {
        let ghost n0 = self.axes@.len();
        let mut i: usize = self.axes.len();
        while i < shape.0.len()
            invariant
                n0 == old(self).axes@.len(),
                n0 <= i <= shape.0@.len(),
                self.axes@.len() == i,
                self.axes@.subrange(0, n0 as int) == old(self).axes@,
                forall|j: int|
                    n0 <= j < i ==> is_whole(#[trigger] self.axes@[j], shape.0@[j]),
            decreases shape.0@.len() - i,
        {
            let ghost before = self.axes@;
            self.axes.push(AxisBounds::all(shape.0[i]));
            proof {
                assert(self.axes@.subrange(0, n0 as int) =~= before.subrange(0, n0 as int));
            }
            i = i + 1;
        }
    }

    /// The shape of the slice these bounds select.
    pub fn to_shape(&self) -> (r: Shape)
        requires
            axes_ok(self.axes@),
        ensures
            r.0@ == slice_shape(self.axes@),
    {
        let mut shape: Vec<u64> = Vec::new();
        let mut i: usize = 0;
        while i < self.axes.len()
            invariant
                axes_ok(self.axes@),
                i <= self.axes@.len(),
                shape@ == slice_shape(self.axes@.subrange(0, i as int)),
            decreases self.axes@.len() - i,
        {
            let d = self.axes[i].dim();
            proof {
                assert(self.axes@.subrange(0, i + 1).drop_last() =~= self.axes@.subrange(0, i as int));
            }
            if d > 0 {
                shape.push(d);
            }
            i = i + 1;
        }
        proof {
            assert(self.axes@.subrange(0, self.axes@.len() as int) =~= self.axes@);
        }
        Shape(shape)
    }

    /// The number of elements in the slice these bounds select.
    pub fn size(&self) -> (r: u64)
        requires
            axes_ok(self.axes@),
            forall|i: int|
                0 <= i <= slice_shape(self.axes@).len() ==> #[trigger] product(
                    slice_shape(self.axes@).subrange(0, i),
                ) <= u64::MAX,
        ensures
            r as int == product(slice_shape(self.axes@)),
    {
        self.to_shape().size()
    }
}

} // verus!
