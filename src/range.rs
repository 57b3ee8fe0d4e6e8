use vstd::prelude::*;

use crate::collator::{compare_key, compare_value, key_cmp, value_cmp, KeyView};
use crate::value::{copy_values, Value, ValueView, values_view};

verus! {

/// One end of a range on one column.
#[derive(Debug, PartialEq)]
pub enum Bound {
    Unbounded,
    In(Value),
    Ex(Value),
}

pub enum BoundView {
    Unbounded,
    In(ValueView),
    Ex(ValueView),
}

impl View for Bound {
    type V = BoundView;

    open spec fn view(&self) -> BoundView {
        match self {
            Bound::Unbounded => BoundView::Unbounded,
            Bound::In(v) => BoundView::In(v@),
            Bound::Ex(v) => BoundView::Ex(v@),
        }
    }
}

pub open spec fn bounds_view(b: Seq<Bound>) -> Seq<BoundView> {
    b.map_values(|x: Bound| x@)
}

/// Whether key `k` lies at or above the lower bounds `l`, compared
/// lexicographically from column `i`; missing trailing bounds are unbounded.
pub open spec fn above_lower_from(k: KeyView, l: Seq<BoundView>, i: int) -> bool
    decreases l.len() - i,
{
    if i >= l.len() || i >= k.len() {
        true
    } else {
        match l[i] {
            BoundView::Unbounded => true,
            BoundView::In(v) => if value_cmp(k[i], v) > 0 {
                true
            } else if value_cmp(k[i], v) < 0 {
                false
            } else {
                above_lower_from(k, l, i + 1)
            },
            BoundView::Ex(v) => value_cmp(k[i], v) > 0,
        }
    }
}

/// Whether key `k` lies at or below the upper bounds `u`, compared
/// lexicographically from column `i`.
pub open spec fn below_upper_from(k: KeyView, u: Seq<BoundView>, i: int) -> bool
    decreases u.len() - i,
{
    if i >= u.len() || i >= k.len() {
        true
    } else {
        match u[i] {
            BoundView::Unbounded => true,
            BoundView::In(v) => if value_cmp(k[i], v) < 0 {
                true
            } else if value_cmp(k[i], v) > 0 {
                false
            } else {
                below_upper_from(k, u, i + 1)
            },
            BoundView::Ex(v) => value_cmp(k[i], v) < 0,
        }
    }
}

pub open spec fn above_lower(k: KeyView, l: Seq<BoundView>) -> bool {
    above_lower_from(k, l, 0)
}

pub open spec fn below_upper(k: KeyView, u: Seq<BoundView>) -> bool {
    below_upper_from(k, u, 0)
}

/// The mathematical range: lower bounds and upper bounds.
pub struct RangeView {
    pub start: Seq<BoundView>,
    pub end: Seq<BoundView>,
}

impl RangeView {
    pub open spec fn contains(self, k: KeyView) -> bool {
        above_lower(k, self.start) && below_upper(k, self.end)
    }
}

/// The range whose every bound is `k`'s value in that column, inclusive.
pub open spec fn point_range(k: KeyView) -> RangeView {
    RangeView {
        start: k.map_values(|v: ValueView| BoundView::In(v)),
        end: k.map_values(|v: ValueView| BoundView::In(v)),
    }
}

proof fn lemma_point_range_from(k: KeyView, x: KeyView, i: int)
    requires
        0 <= i,
    ensures
        (above_lower_from(x, point_range(k).start, i) && below_upper_from(x, point_range(k).end, i))
            <==> (forall|j: int| i <= j < k.len() && j < x.len() ==> x[j] == k[j]),
    decreases k.len() - i,
{
    let r = point_range(k);
    if i < k.len() && i < x.len() {
        crate::collator::lemma_value_cmp(x[i], k[i], k[i]);
        lemma_point_range_from(k, x, i + 1);
        assert(r.start[i] == BoundView::In(k[i]));
        assert(r.end[i] == BoundView::In(k[i]));
        if x[i] == k[i] {
            if forall|j: int| i + 1 <= j < k.len() && j < x.len() ==> x[j] == k[j] {
                assert forall|j: int| i <= j < k.len() && j < x.len() implies x[j] == k[j] by {
                    if j > i {
                    }
                }
            }
        }
    }
}

/// A key lies in the point range of `k` exactly when it agrees with `k` on
/// every column that both have.
pub proof fn lemma_point_range(k: KeyView, x: KeyView)
    ensures
        point_range(k).contains(x) <==> (forall|j: int| 0 <= j < k.len() && j < x.len() ==> x[j]
            == k[j]),
{
    lemma_point_range_from(k, x, 0);
}

/// A range of keys, given by per-column lower and upper bounds.
#[derive(Debug)]
pub struct BTreeRange {
    pub start: Vec<Bound>,
    pub end: Vec<Bound>,
}

impl View for BTreeRange {
    type V = RangeView;

    open spec fn view(&self) -> RangeView {
        RangeView { start: bounds_view(self.start@), end: bounds_view(self.end@) }
    }
}

/// A copy of a bound.
pub fn copy_bound(b: &Bound) -> (r: Bound)
    ensures
        r == *b,
{
    match b {
        Bound::Unbounded => Bound::Unbounded,
        Bound::In(v) => Bound::In(v.copy()),
        Bound::Ex(v) => Bound::Ex(v.copy()),
    }
}

/// Whether `key` lies at or above the lower bounds.
pub fn is_above_lower(key: &Vec<Value>, lower: &Vec<Bound>) -> (r: bool)
    ensures
        r == above_lower(values_view(key@), bounds_view(lower@)),
{
    let ghost k = values_view(key@);
    let ghost l = bounds_view(lower@);
    let mut i: usize = 0;
    while i < lower.len() && i < key.len()
        invariant
            i <= lower@.len(),
            i <= key@.len(),
            k == values_view(key@),
            l == bounds_view(lower@),
            above_lower(k, l) == above_lower_from(k, l, i as int),
        decreases lower@.len() - i,
    {
        match &lower[i] {
            Bound::Unbounded => {
                return true;
            },
            Bound::In(v) => {
                let c = compare_value(&key[i], v);
                if c > 0 {
                    return true;
                } else if c < 0 {
                    return false;
                }
            },
            Bound::Ex(v) => {
                let c = compare_value(&key[i], v);
                return c > 0;
            },
        }
        i = i + 1;
    }
    true
}

/// Whether `key` lies at or below the upper bounds.
pub fn is_below_upper(key: &Vec<Value>, upper: &Vec<Bound>) -> (r: bool)
    ensures
        r == below_upper(values_view(key@), bounds_view(upper@)),
{
    let ghost k = values_view(key@);
    let ghost u = bounds_view(upper@);
    let mut i: usize = 0;
    while i < upper.len() && i < key.len()
        invariant
            i <= upper@.len(),
            i <= key@.len(),
            k == values_view(key@),
            u == bounds_view(upper@),
            below_upper(k, u) == below_upper_from(k, u, i as int),
        decreases upper@.len() - i,
    {
        match &upper[i] {
            Bound::Unbounded => {
                return true;
            },
            Bound::In(v) => {
                let c = compare_value(&key[i], v);
                if c < 0 {
                    return true;
                } else if c > 0 {
                    return false;
                }
            },
            Bound::Ex(v) => {
                let c = compare_value(&key[i], v);
                return c < 0;
            },
        }
        i = i + 1;
    }
    true
}

impl BTreeRange {
    /// The range of all keys.
    pub fn all() -> (r: BTreeRange)
        ensures
            r@.start.len() == 0,
            r@.end.len() == 0,
            forall|k: KeyView| r@.contains(k),
    {
        BTreeRange { start: Vec::new(), end: Vec::new() }
    }

    /// The range from lower to upper bounds.
    pub fn new(start: Vec<Bound>, end: Vec<Bound>) -> (r: BTreeRange)
        ensures
            r.start == start,
            r.end == end,
    {
        BTreeRange { start, end }
    }

    /// The range that holds exactly one key.
    pub fn from_key(key: &Vec<Value>) -> (r: BTreeRange)
        ensures
            r@ == point_range(values_view(key@)),
            r@.start.len() == key@.len(),
            r@.end.len() == key@.len(),
            forall|i: int|
                0 <= i < key@.len() ==> r@.start[i] == BoundView::In(key@[i]@) && r@.end[i]
                    == BoundView::In(key@[i]@),
    {
        let mut start: Vec<Bound> = Vec::new();
        let mut end: Vec<Bound> = Vec::new();
        let mut i: usize = 0;
        while i < key.len()
            invariant
                i <= key@.len(),
                start@.len() == i,
                end@.len() == i,
                forall|j: int|
                    0 <= j < i ==> start@[j]@ == BoundView::In(key@[j]@) && end@[j]@
                        == BoundView::In(key@[j]@),
            decreases key@.len() - i,
        {
            start.push(Bound::In(key[i].copy()));
            end.push(Bound::In(key[i].copy()));
            i = i + 1;
        }
        let r = BTreeRange { start, end };
        proof {
            assert(r@.start =~= point_range(values_view(key@)).start);
            assert(r@.end =~= point_range(values_view(key@)).end);
        }
        r
    }

    /// A copy of this range.
    pub fn copy(&self) -> (r: BTreeRange)
        ensures
            r@ == self@,
    {
        let mut start: Vec<Bound> = Vec::new();
        let mut i: usize = 0;
        while i < self.start.len()
            invariant
                i <= self.start@.len(),
                start@ == self.start@.subrange(0, i as int),
            decreases self.start@.len() - i,
        {
            start.push(copy_bound(&self.start[i]));
            i = i + 1;
        }
        let mut end: Vec<Bound> = Vec::new();
        let mut j: usize = 0;
        while j < self.end.len()
            invariant
                j <= self.end@.len(),
                end@ == self.end@.subrange(0, j as int),
            decreases self.end@.len() - j,
        {
            end.push(copy_bound(&self.end[j]));
            j = j + 1;
        }
        assert(start@ =~= self.start@);
        assert(end@ =~= self.end@);
        BTreeRange { start, end }
    }

    /// Whether the range holds `key`.
    pub fn contains_key(&self, key: &Vec<Value>) -> (r: bool)
        ensures
            r == self@.contains(values_view(key@)),
    {
        is_above_lower(key, &self.start) && is_below_upper(key, &self.end)
    }
}

/// Whether the keys are in collation order (each at most the next).
pub fn is_sorted(keys: &Vec<Vec<Value>>) -> (r: bool)
    ensures
        r == forall|i: int|
            0 <= i < keys@.len() - 1 ==> #[trigger] key_cmp(values_view(keys@[i]@), values_view(keys@[i + 1]@))
                <= 0,
{
    let mut i: usize = 0;
    while i < keys.len() && i + 1 < keys.len()
        invariant
            forall|j: int|
                0 <= j < i && j < keys@.len() - 1 ==> #[trigger] key_cmp(
                    values_view(keys@[j]@),
                    values_view(keys@[j + 1]@),
                ) <= 0,
        decreases keys@.len() - i,
    {
        if compare_key(&keys[i], &keys[i + 1]) > 0 {
            return false;
        }
        i = i + 1;
    }
    true
}

/// The first position whose key is not below `key`.
pub fn bisect_left(keys: &Vec<Vec<Value>>, key: &Vec<Value>) -> (r: usize)
    ensures
        r <= keys@.len(),
        forall|j: int| 0 <= j < r ==> key_cmp(values_view(keys@[j]@), values_view(key@)) < 0,
        r < keys@.len() ==> key_cmp(values_view(keys@[r as int]@), values_view(key@)) >= 0,
{
    let mut i: usize = 0;
    while i < keys.len()
        invariant
            i <= keys@.len(),
            forall|j: int| 0 <= j < i ==> key_cmp(values_view(keys@[j]@), values_view(key@)) < 0,
        decreases keys@.len() - i,
    {
        if compare_key(&keys[i], key) >= 0 {
            return i;
        }
        i = i + 1;
    }
    i
}

/// The first position whose key is above `key`.
pub fn bisect_right(keys: &Vec<Vec<Value>>, key: &Vec<Value>) -> (r: usize)
    ensures
        r <= keys@.len(),
        forall|j: int| 0 <= j < r ==> key_cmp(values_view(keys@[j]@), values_view(key@)) <= 0,
        r < keys@.len() ==> key_cmp(values_view(keys@[r as int]@), values_view(key@)) > 0,
{
    let mut i: usize = 0;
    while i < keys.len()
        invariant
            i <= keys@.len(),
            forall|j: int| 0 <= j < i ==> key_cmp(values_view(keys@[j]@), values_view(key@)) <= 0,
        decreases keys@.len() - i,
    {
        if compare_key(&keys[i], key) > 0 {
            return i;
        }
        i = i + 1;
    }
    i
}

/// The first position whose key lies at or above the lower bounds.
pub fn bisect_left_range(keys: &Vec<Vec<Value>>, lower: &Vec<Bound>) -> (r: usize)
    ensures
        r <= keys@.len(),
        forall|j: int| 0 <= j < r ==> !above_lower(values_view(keys@[j]@), bounds_view(lower@)),
        r < keys@.len() ==> above_lower(values_view(keys@[r as int]@), bounds_view(lower@)),
{
    let mut i: usize = 0;
    while i < keys.len()
        invariant
            i <= keys@.len(),
            forall|j: int|
                0 <= j < i ==> !above_lower(values_view(keys@[j]@), bounds_view(lower@)),
        decreases keys@.len() - i,
    {
        if is_above_lower(&keys[i], lower) {
            return i;
        }
        i = i + 1;
    }
    i
}

/// The first position whose key lies above the upper bounds.
pub fn bisect_right_range(keys: &Vec<Vec<Value>>, upper: &Vec<Bound>) -> (r: usize)
    ensures
        r <= keys@.len(),
        forall|j: int| 0 <= j < r ==> below_upper(values_view(keys@[j]@), bounds_view(upper@)),
        r < keys@.len() ==> !below_upper(values_view(keys@[r as int]@), bounds_view(upper@)),
{
    let mut i: usize = 0;
    while i < keys.len()
        invariant
            i <= keys@.len(),
            forall|j: int| 0 <= j < i ==> below_upper(values_view(keys@[j]@), bounds_view(upper@)),
        decreases keys@.len() - i,
    {
        if !is_below_upper(&keys[i], upper) {
            return i;
        }
        i = i + 1;
    }
    i
}

proof fn lemma_above_mono_from(a: KeyView, b: KeyView, l: Seq<BoundView>, i: int)
    requires
        0 <= i,
        a.len() == b.len(),
        crate::collator::key_cmp_from(a, b, i) <= 0,
        above_lower_from(a, l, i),
    ensures
        above_lower_from(b, l, i),
    decreases l.len() - i,
{
    if i < l.len() && i < a.len() {
        crate::collator::lemma_value_cmp(a[i], b[i], b[i]);
        match l[i] {
            BoundView::Unbounded => {},
            BoundView::In(v) => {
                crate::collator::lemma_value_cmp(a[i], b[i], v);
                crate::collator::lemma_value_cmp(a[i], v, b[i]);
                crate::collator::lemma_value_cmp(b[i], a[i], v);
                crate::collator::lemma_value_cmp(b[i], v, a[i]);
                crate::collator::lemma_value_cmp(v, a[i], b[i]);
                crate::collator::lemma_value_cmp(v, b[i], a[i]);
                if crate::collator::value_cmp(a[i], b[i]) == 0 && crate::collator::value_cmp(a[i], v) == 0 {
                    assert(crate::collator::key_cmp_from(a, b, i) == crate::collator::key_cmp_from(a, b, i + 1));
                    lemma_above_mono_from(a, b, l, i + 1);
                }
            },
            BoundView::Ex(v) => {
                crate::collator::lemma_value_cmp(a[i], b[i], v);
                crate::collator::lemma_value_cmp(a[i], v, b[i]);
                crate::collator::lemma_value_cmp(b[i], a[i], v);
                crate::collator::lemma_value_cmp(b[i], v, a[i]);
                crate::collator::lemma_value_cmp(v, a[i], b[i]);
                crate::collator::lemma_value_cmp(v, b[i], a[i]);
            },
        }
    }
}

/// For keys of one width, lying at or above lower bounds is preserved
/// upwards, and lying at or below upper bounds downwards.
pub proof fn lemma_bounds_monotone(a: KeyView, b: KeyView, l: Seq<BoundView>, u: Seq<BoundView>)
    requires
        a.len() == b.len(),
        key_cmp(a, b) <= 0,
    ensures
        above_lower(a, l) ==> above_lower(b, l),
        below_upper(b, u) ==> below_upper(a, u),
{
    if above_lower(a, l) {
        lemma_above_mono_from(a, b, l, 0);
    }
    if below_upper(b, u) {
        lemma_below_anti_from(a, b, u, 0);
    }
}

proof fn lemma_below_anti_from(a: KeyView, b: KeyView, u: Seq<BoundView>, i: int)
    requires
        0 <= i,
        a.len() == b.len(),
        crate::collator::key_cmp_from(a, b, i) <= 0,
        below_upper_from(b, u, i),
    ensures
        below_upper_from(a, u, i),
    decreases u.len() - i,
{
    if i < u.len() && i < a.len() {
        crate::collator::lemma_value_cmp(a[i], b[i], b[i]);
        match u[i] {
            BoundView::Unbounded => {},
            BoundView::In(v) => {
                crate::collator::lemma_value_cmp(a[i], b[i], v);
                crate::collator::lemma_value_cmp(a[i], v, b[i]);
                crate::collator::lemma_value_cmp(b[i], a[i], v);
                crate::collator::lemma_value_cmp(b[i], v, a[i]);
                crate::collator::lemma_value_cmp(v, a[i], b[i]);
                crate::collator::lemma_value_cmp(v, b[i], a[i]);
                if crate::collator::value_cmp(a[i], b[i]) == 0 && crate::collator::value_cmp(b[i], v) == 0 {
                    assert(crate::collator::key_cmp_from(a, b, i) == crate::collator::key_cmp_from(a, b, i + 1));
                    lemma_below_anti_from(a, b, u, i + 1);
                }
            },
            BoundView::Ex(v) => {
                crate::collator::lemma_value_cmp(a[i], b[i], v);
                crate::collator::lemma_value_cmp(a[i], v, b[i]);
                crate::collator::lemma_value_cmp(b[i], a[i], v);
                crate::collator::lemma_value_cmp(b[i], v, a[i]);
                crate::collator::lemma_value_cmp(v, a[i], b[i]);
                crate::collator::lemma_value_cmp(v, b[i], a[i]);
            },
        }
    }
}

} // verus!
