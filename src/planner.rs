use vstd::prelude::*;

use crate::btree::{has, keys_view, sorted_keys};
use crate::btree_file::{live_keys, ordered_listing, tree_listing, lemma_live_stored, wf_tree};
use crate::collator::{compare_value, key_lt, value_cmp, Key, KeyView};
use crate::error::{ErrorKind, TCError, TCResult};
use crate::range::{above_lower, below_upper, bounds_view, copy_bound, is_above_lower, is_below_upper, Bound, BoundView, BTreeRange};
use crate::table::{project, TableIndex};
use crate::txn::TransactionId;
use crate::value::{copy_values, Value, ValueView, values_view};

verus! {

/// A bound on one column: a value it must equal, or a range.
#[derive(Debug)]
pub enum ColumnBound {
    Is(Value),
    In(Bound, Bound),
}

/// A bound on the column at position `column` of a row.
#[derive(Debug)]
pub struct Selection {
    pub column: usize,
    pub bound: ColumnBound,
}

/// Selections as pairs of column and bound.
pub open spec fn sel_view(s: Seq<Selection>) -> Seq<(usize, ColumnBound)> {
    s.map_values(|x: Selection| (x.column, x.bound))
}

/// Pairs of column and bound as column and whether the bound is a range.
pub open spec fn pair_shape(p: Seq<(usize, ColumnBound)>) -> Seq<(usize, bool)> {
    p.map_values(|x: (usize, ColumnBound)| (x.0, x.1 is In))
}

/// The column names of bounds.
pub open spec fn bound_names(b: Seq<(String, ColumnBound)>) -> Seq<String> {
    b.map_values(|x: (String, ColumnBound)| x.0)
}

/// Whether a bound holds of a column value.
pub open spec fn bound_holds(b: ColumnBound, v: ValueView) -> bool {
    match b {
        ColumnBound::Is(w) => value_cmp(v, w@) == 0,
        ColumnBound::In(lo, hi) => above_lower(seq![v], seq![lo@]) && below_upper(seq![v], seq![hi@]),
    }
}

/// Whether every selection holds of a row.
pub open spec fn selected(sels: Seq<Selection>, x: KeyView) -> bool {
    forall|i: int| 0 <= i < sels.len() ==> bound_holds((#[trigger] sels[i]).bound, x[sels[i].column as int])
}

/// The selections as columns, each with whether its bound is a range.
pub open spec fn shape_of(sels: Seq<Selection>) -> Seq<(usize, bool)> {
    sels.map_values(|s: Selection| (s.column, s.bound is In))
}

/// Whether an index whose key has the columns `cols` supports the
/// selections `sub`: they bound exactly its first `sub.len()` columns,
/// and only the last of those may be a range.
pub open spec fn supports(cols: Seq<usize>, sub: Seq<(usize, bool)>) -> bool {
    &&& sub.len() <= cols.len()
    &&& forall|j: int| 0 <= j < sub.len() ==> bounded(sub, #[trigger] cols[j], j + 1 == sub.len())
}

/// Whether `sub` bounds column `c`, by an equality unless `last`.
pub open spec fn bounded(sub: Seq<(usize, bool)>, c: usize, last: bool) -> bool {
    exists|t: int| 0 <= t < sub.len() && (#[trigger] sub[t]).0 == c && (last || !sub[t].1)
}

impl TableIndex {
    /// The key columns of index `k`: the whole row for the primary index
    /// (`k == 0`), the auxiliary's columns otherwise.
    pub open spec fn index_cols(&self, k: int) -> Seq<usize> {
        if k == 0 {
            Seq::new(self.columns@.len(), |i: int| i as usize)
        } else {
            self.auxiliary@[k - 1].columns@
        }
    }

    /// The columns that index `k` can take bounds on: the primary key
    /// columns for the primary index (`k == 0`), the auxiliary's columns
    /// otherwise.
    pub open spec fn bound_cols(&self, k: int) -> Seq<usize> {
        if k == 0 {
            Seq::new(self.key@.len(), |i: int| i as usize)
        } else {
            self.auxiliary@[k - 1].columns@
        }
    }

    pub open spec fn index_count(&self) -> int {
        self.auxiliary@.len() as int + 1
    }

    /// The first index from `k` on that supports `sub`, or -1.
    pub open spec fn first_supporting(&self, sub: Seq<(usize, bool)>, k: int) -> int
        decreases self.index_count() - k,
    {
        if k < 0 || k >= self.index_count() {
            -1
        } else if supports(self.bound_cols(k), sub) {
            k
        } else {
            self.first_supporting(sub, k + 1)
        }
    }

    /// The length of the longest leading part of `b`, at most `n`, that
    /// some index supports.
    pub open spec fn longest(&self, b: Seq<(usize, bool)>, n: int) -> int
        decreases n,
    {
        if n <= 0 {
            0
        } else if self.first_supporting(b.take(n), 0) >= 0 {
            n
        } else {
            self.longest(b, n - 1)
        }
    }

    /// The greedy plan for the selections `b`: repeatedly, the longest
    /// leading part that some index supports, and the first such index
    /// (primary, then auxiliaries in order); `None` when some part is
    /// supported by no index.
    pub open spec fn plan_of(&self, b: Seq<(usize, bool)>) -> Option<Seq<(int, int)>>
        decreases b.len(),
    {
        if b.len() == 0 {
            Some(Seq::empty())
        } else {
            let n = self.longest(b, b.len() as int);
            if n <= 0 || n > b.len() {
                None
            } else {
                match self.plan_of(b.skip(n)) {
                    Some(p) => Some(seq![(self.first_supporting(b.take(n), 0), n)] + p),
                    None => None,
                }
            }
        }
    }
}

/// One step of a plan: index `index` (0 for the primary index, `i + 1` for
/// auxiliary `i`) takes the next `count` selections.
#[derive(Debug, Clone, Copy, PartialEq, Eq, Structural)]
pub struct PlanStep {
    pub index: usize,
    pub count: usize,
}

pub open spec fn steps_view(s: Seq<PlanStep>) -> Seq<(int, int)> {
    s.map_values(|p: PlanStep| (p.index as int, p.count as int))
}

fn shape_exec(sels: &Vec<Selection>) -> (r: Vec<(usize, bool)>)
    ensures
        r@ == shape_of(sels@),
{
    let mut r: Vec<(usize, bool)> = Vec::new();
    let mut i: usize = 0;
    while i < sels.len()
        invariant
            i <= sels@.len(),
            r@ == shape_of(sels@.subrange(0, i as int)),
        decreases sels@.len() - i,
    {
        let is_range = match &sels[i].bound {
            ColumnBound::Is(_) => false,
            ColumnBound::In(_, _) => true,
        };
        r.push((sels[i].column, is_range));
        proof {
            assert(shape_of(sels@.subrange(0, i + 1)) =~= shape_of(sels@.subrange(0, i as int)).push((sels@[i as int].column, sels@[i as int].bound is In)));
        }
        i = i + 1;
    }
    proof {
        assert(sels@.subrange(0, sels@.len() as int) =~= sels@);
    }
    r
}

fn sub_copy(b: &Vec<(usize, bool)>, start: usize, end: usize) -> (r: Vec<(usize, bool)>)
    requires
        start <= end <= b@.len(),
    ensures
        r@ == b@.subrange(start as int, end as int),
{
    let mut r: Vec<(usize, bool)> = Vec::new();
    let mut i: usize = start;
    while i < end
        invariant
            start <= i <= end <= b@.len(),
            r@ == b@.subrange(start as int, i as int),
        decreases end - i,
    {
        r.push(b[i]);
        proof {
            assert(r@ =~= b@.subrange(start as int, i + 1));
        }
        i = i + 1;
    }
    r
}

fn bounded_exec(sub: &Vec<(usize, bool)>, c: usize, last: bool) -> (r: bool)
    ensures
        r == bounded(sub@, c, last),
{
    let mut t: usize = 0;
    while t < sub.len()
        invariant
            t <= sub@.len(),
            forall|u: int| 0 <= u < t ==> !((#[trigger] sub@[u]).0 == c && (last || !sub@[u].1)),
        decreases sub@.len() - t,
    {
        if sub[t].0 == c && (last || !sub[t].1) {
            proof {
                assert(sub@[t as int].0 == c);
            }
            return true;
        }
        t = t + 1;
    }
    false
}

fn supports_exec(cols: &Vec<usize>, sub: &Vec<(usize, bool)>) -> (r: bool)
    ensures
        r == supports(cols@, sub@),
{
    if sub.len() > cols.len() {
        return false;
    }
    let mut j: usize = 0;
    while j < sub.len()
        invariant
            sub@.len() <= cols@.len(),
            j <= sub@.len(),
            forall|u: int| 0 <= u < j ==> bounded(sub@, #[trigger] cols@[u], u + 1 == sub@.len()),
        decreases sub@.len() - j,
    {
        if !bounded_exec(sub, cols[j], j + 1 == sub.len()) {
            return false;
        }
        j = j + 1;
    }
    true
}

impl TableIndex {
    fn index_cols_exec<'a>(&'a self, k: usize, all: &'a Vec<usize>) -> (r: &'a Vec<usize>)
        requires
            k < self.index_count(),
            all@ == self.index_cols(0),
        ensures
            r@ == self.index_cols(k as int),
    {
        if k == 0 {
            all
        } else {
            &self.auxiliary[k - 1].columns
        }
    }

    fn bound_cols_exec<'a>(&'a self, k: usize, keys: &'a Vec<usize>) -> (r: &'a Vec<usize>)
        requires
            k < self.index_count(),
            keys@ == self.bound_cols(0),
        ensures
            r@ == self.bound_cols(k as int),
    {
        if k == 0 {
            keys
        } else {
            &self.auxiliary[k - 1].columns
        }
    }

    fn first_supporting_exec(&self, sub: &Vec<(usize, bool)>, all: &Vec<usize>) -> (r: Option<usize>)
        requires
            all@ == self.bound_cols(0),
        ensures
            r is Some <==> self.first_supporting(sub@, 0) >= 0,
            r is Some ==> r->Some_0 as int == self.first_supporting(sub@, 0),
    {
        let mut k: usize = 0;
        while k <= self.auxiliary.len()
            invariant
                all@ == self.bound_cols(0),
                k <= self.index_count(),
                self.first_supporting(sub@, 0) == self.first_supporting(sub@, k as int),
            decreases self.index_count() - k,
        {
            if supports_exec(self.bound_cols_exec(k, all), sub) {
                return Some(k);
            }
            if k == self.auxiliary.len() {
                proof {
                    assert(self.first_supporting(sub@, k as int + 1) == -1);
                }
                return None;
            }
            k = k + 1;
        }
        None
    }

    /// Plans the selections `sels`, given in the order of the table's
    /// columns: each step names the index that takes the next selections.
    pub fn plan(&self, sels: &Vec<Selection>) -> (r: TCResult<Vec<PlanStep>>)
        ensures
            r is Ok <==> self.plan_of(shape_of(sels@)) is Some,
            r is Ok ==> steps_view(r->Ok_0@) == self.plan_of(shape_of(sels@))->Some_0,
            r is Err ==> r->Err_0.kind == ErrorKind::BadRequest,
    {
        let b = shape_exec(sels);
        let mut all: Vec<usize> = Vec::new();
        let mut c: usize = 0;
        while c < self.key.len()
            invariant
                c <= self.key@.len(),
                all@ == Seq::new(c as nat, |i: int| i as usize),
            decreases self.key@.len() - c,
        {
            all.push(c);
            proof {
                assert(all@ =~= Seq::new((c + 1) as nat, |i: int| i as usize));
            }
            c = c + 1;
        }
        let mut steps: Vec<PlanStep> = Vec::new();
        let mut done: usize = 0;
        proof {
            assert(b@.skip(0) =~= b@);
            if self.plan_of(b@) is Some {
                assert(steps_view(steps@) + self.plan_of(b@)->Some_0 =~= self.plan_of(b@)->Some_0);
            }
        }
        while done < b.len()
            invariant
                all@ == self.bound_cols(0),
                b@ == shape_of(sels@),
                done <= b@.len(),
                (self.plan_of(b@) is Some) == (self.plan_of(b@.skip(done as int)) is Some),
                self.plan_of(b@) is Some ==> self.plan_of(b@) == Some(steps_view(steps@) + self.plan_of(b@.skip(done as int))->Some_0),
            decreases b@.len() - done,
        {
            let ghost rest = b@.skip(done as int);
            let mut n: usize = b.len() - done;
            let mut chosen: Option<usize> = None;
            while n > 0 && chosen.is_none()
                invariant
                    all@ == self.bound_cols(0),
                    done < b@.len(),
                    rest == b@.skip(done as int),
                    n <= b@.len() - done,
                    done + n <= b.len(),
                    chosen is None ==> self.longest(rest, rest.len() as int) == self.longest(rest, n as int),
                    chosen is Some ==> n > 0 && self.longest(rest, rest.len() as int) == n
                        && chosen->Some_0 as int == self.first_supporting(rest.take(n as int), 0),
                decreases n, if chosen is None { 1int } else { 0int },
            {
                let sub = sub_copy(&b, done, done + n);
                proof {
                    assert(sub@ =~= rest.take(n as int));
                }
                match self.first_supporting_exec(&sub, &all) {
                    Some(k) => {
                        chosen = Some(k);
                    },
                    None => {
                        n = n - 1;
                    },
                }
            }
            let k = match chosen {
                Some(k) => k,
                None => {
                    proof {
                        assert(self.plan_of(rest) is None);
                    }
                    return Err(TCError::bad_request("no index supports the selection bounds"));
                },
            };
            proof {
                assert(rest.skip(n as int) =~= b@.skip(done + n));
                assert(steps_view(steps@.push(PlanStep { index: k, count: n })) =~= steps_view(steps@).push((k as int, n as int)));
                if self.plan_of(b@) is Some {
                    let tail = self.plan_of(rest.skip(n as int))->Some_0;
                    assert(self.plan_of(rest) == Some(seq![(k as int, n as int)] + tail));
                    assert(steps_view(steps@) + (seq![(k as int, n as int)] + tail) =~= steps_view(steps@).push((k as int, n as int)) + tail);
                }
            }
            steps.push(PlanStep { index: k, count: n });
            done = done + n;
        }
        proof {
            assert(b@.skip(done as int) =~= Seq::<(usize, bool)>::empty());
            assert(steps_view(steps@) + Seq::<(int, int)>::empty() =~= steps_view(steps@));
        }
        Ok(steps)
    }
}

/// Rows listed in increasing order of their values at the columns `cols`.
pub open spec fn ordered_by(rows: Seq<KeyView>, cols: Seq<usize>) -> bool {
    forall|i: int, j: int|
        0 <= i < j < rows.len() ==> key_lt(
            project(#[trigger] rows[i], cols),
            project(#[trigger] rows[j], cols),
        )
}

/// Whether a bound holds of a column value.
fn holds(b: &ColumnBound, v: &Value) -> (r: bool)
    ensures
        r == bound_holds(*b, v@),
{
    match b {
        ColumnBound::Is(w) => compare_value(v, w) == 0,
        ColumnBound::In(lo, hi) => {
            let mut k: Vec<Value> = Vec::new();
            k.push(v.copy());
            let mut l: Vec<Bound> = Vec::new();
            l.push(copy_bound(lo));
            let mut u: Vec<Bound> = Vec::new();
            u.push(copy_bound(hi));
            proof {
                assert(values_view(k@) =~= seq![v@]);
                assert(bounds_view(l@) =~= seq![lo@]);
                assert(bounds_view(u@) =~= seq![hi@]);
            }
            is_above_lower(&k, &l) && is_below_upper(&k, &u)
        },
    }
}

/// Whether every selection holds of `row`.
fn row_selected(sels: &Vec<Selection>, row: &Vec<Value>) -> (r: bool)
    requires
        forall|i: int| 0 <= i < sels@.len() ==> (#[trigger] sels@[i]).column < row@.len(),
    ensures
        r == selected(sels@, values_view(row@)),
{
    let mut i: usize = 0;
    while i < sels.len()
        invariant
            forall|t: int| 0 <= t < sels@.len() ==> (#[trigger] sels@[t]).column < row@.len(),
            i <= sels@.len(),
            forall|t: int| 0 <= t < i ==> bound_holds((#[trigger] sels@[t]).bound, values_view(row@)[sels@[t].column as int]),
        decreases sels@.len() - i,
    {
        if !holds(&sels[i].bound, &row[sels[i].column]) {
            return false;
        }
        i = i + 1;
    }
    true
}

/// The primary key held in an auxiliary key: for each key position, the
/// value at the auxiliary column that holds it.
fn key_of_aux(z: &Vec<Value>, cols: &Vec<usize>, key_len: usize) -> (r: Vec<Value>)
    requires
        z@.len() == cols@.len(),
        forall|p: int| 0 <= p < key_len ==> #[trigger] crate::table::covers(cols@, p),
    ensures
        r@.len() == key_len,
        forall|x: KeyView|
            values_view(z@) == project(x, cols@) && x.len() >= key_len ==> values_view(r@)
                == #[trigger] x.subrange(0, key_len as int),
{
    let mut r: Vec<Value> = Vec::new();
    let ghost mut pos: Seq<int> = Seq::empty();
    let mut p: usize = 0;
    while p < key_len
        invariant
            z@.len() == cols@.len(),
            forall|q: int| 0 <= q < key_len ==> #[trigger] crate::table::covers(cols@, q),
            p <= key_len,
            r@.len() == p,
            pos.len() == p,
            forall|q: int|
                0 <= q < p ==> 0 <= #[trigger] pos[q] < cols@.len() && cols@[pos[q]] == q && r@[q] == z@[pos[q]],
        decreases key_len - p,
    {
        assert(crate::table::covers(cols@, p as int));
        let mut j: usize = 0;
        while j < cols.len() && cols[j] != p
            invariant
                j <= cols@.len(),
                crate::table::covers(cols@, p as int),
                forall|t: int| 0 <= t < j ==> cols@[t] != p,
            decreases cols@.len() - j,
        {
            j = j + 1;
        }
        if j == cols.len() {
            proof {
                let t = choose|t: int| 0 <= t < cols@.len() && cols@[t] == p;
            }
            return r;
        }
        r.push(z[j].copy());
        proof {
            pos = pos.push(j as int);
        }
        p = p + 1;
    }
    proof {
        assert forall|x: KeyView|
            values_view(z@) == project(x, cols@) && x.len() >= key_len implies values_view(r@)
                == #[trigger] x.subrange(0, key_len as int) by {
            assert forall|q: int| 0 <= q < key_len implies values_view(r@)[q] == x.subrange(0, key_len as int)[q] by {
                assert(0 <= pos[q] < cols@.len() && cols@[pos[q]] == q && r@[q] == z@[pos[q]]);
                assert(values_view(z@)[pos[q]] == project(x, cols@)[pos[q]]);
            }
            assert(values_view(r@) =~= x.subrange(0, key_len as int));
        }
    }
    r
}

impl TableIndex {
    /// The rows that `txid` sees and that every selection accepts, in the
    /// order of the key of index `k`.
    pub fn select(&self, txid: &TransactionId, sels: &Vec<Selection>, k: usize) -> (r: Vec<Key>)
        requires
            self.wf(),
            k < self.index_count(),
            forall|i: int| 0 <= i < sels@.len() ==> (#[trigger] sels@[i]).column < self.width(),
        ensures
            forall|x: KeyView|
                #[trigger] keys_view(r@).contains(x) <==> (self.rows_at(*txid).contains(x) && selected(sels@, x)),
            ordered_by(keys_view(r@), self.index_cols(k as int)),
    {
        let st = self.state.read(txid);
        let all = BTreeRange::all();
        let cols: Vec<usize> = if k == 0 {
            let mut c: Vec<usize> = Vec::new();
            let mut i: usize = 0;
            while i < self.columns.len()
                invariant
                    i <= self.columns@.len(),
                    c@ == Seq::new(i as nat, |t: int| t as usize),
                decreases self.columns@.len() - i,
            {
                c.push(i);
                proof {
                    assert(c@ =~= Seq::new((i + 1) as nat, |t: int| t as usize));
                }
                i = i + 1;
            }
            c
        } else {
            let mut c: Vec<usize> = Vec::new();
            let a = &self.auxiliary[k - 1].columns;
            let mut i: usize = 0;
            while i < a.len()
                invariant
                    i <= a@.len(),
                    c@ == a@.subrange(0, i as int),
                decreases a@.len() - i,
            {
                c.push(a[i]);
                proof {
                    assert(c@ =~= a@.subrange(0, i + 1));
                }
                i = i + 1;
            }
            proof {
                assert(c@ =~= a@);
            }
            c
        };
        assert(cols@ == self.index_cols(k as int));
        let ghost w = self.width();
        let ghost kl = self.key_len();
        let ghost rows = live_keys(st.primary);
        assert(rows == self.rows_at(*txid));
        assert(self.state_ok(*st));
        let ghost tree = if k == 0 { st.primary } else { st.auxiliary@[k - 1] };
        let listing = if k == 0 {
            tree_listing(&st.primary, &all, self.order, Ghost(self.width()))
        } else {
            assert(wf_tree(st.auxiliary@[k - 1], self.auxiliary@[k - 1].order as int));
            assert(crate::btree_file::widths_are(st.auxiliary@[k - 1], self.auxiliary@[k - 1].columns@.len() as int));
            tree_listing(&st.auxiliary[k - 1], &all, self.auxiliary[k - 1].order, Ghost(self.auxiliary@[k - 1].columns@.len() as int))
        };
        let ghost lv = keys_view(listing@);
        proof {
            // every listed key is the projection of exactly the rows it was made from
            assert forall|z: KeyView| lv.contains(z) <==> rows.map(|x: KeyView| project(x, cols@)).contains(z) by {
                assert(lv.contains(z) == live_keys(tree).filter(|y: KeyView| all@.contains(y)).contains(z));
                if k == 0 {
                    if lv.contains(z) {
                        lemma_live_stored(st.primary, z);
                        assert(project(z, cols@) =~= z);
                    }
                    if rows.map(|x: KeyView| project(x, cols@)).contains(z) {
                        let x = choose|x: KeyView| rows.contains(x) && project(x, cols@) == z;
                        lemma_live_stored(st.primary, x);
                        assert(project(x, cols@) =~= x);
                    }
                } else {
                    assert(live_keys(st.auxiliary@[k - 1]) == rows.map(|x: KeyView| project(x, self.auxiliary@[k - 1].columns@)));
                }
            }
        }
        let mut out: Vec<Key> = Vec::new();
        let mut t: usize = 0;
        while t < listing.len()
            invariant
                self.wf(),
                self.state_ok(*st),
                w == self.width(),
                k < self.index_count(),
                *st == self.state.visible(*txid),
                rows == live_keys(st.primary),
                cols@ == self.index_cols(k as int),
                forall|i: int| 0 <= i < sels@.len() ==> (#[trigger] sels@[i]).column < self.width(),
                lv == keys_view(listing@),
                sorted_keys(lv),
                forall|z: KeyView| lv.contains(z) <==> rows.map(|x: KeyView| project(x, cols@)).contains(z),
                t <= listing@.len(),
                forall|x: KeyView|
                    keys_view(out@).contains(x) <==> (rows.contains(x) && selected(sels@, x) && exists|u: int| 0 <= u < t && lv[u] == project(x, cols@)),
                ordered_by(keys_view(out@), cols@),
                forall|i: int| 0 <= i < out@.len() ==> exists|u: int| 0 <= u < t && lv[u] == #[trigger] project(keys_view(out@)[i], cols@),
            decreases listing@.len() - t,
        {
            let ghost z = lv[t as int];
            proof {
                assert(lv.contains(z));
                assert(rows.map(|x: KeyView| project(x, cols@)).contains(z));
            }
            let ghost x0 = choose|x: KeyView| rows.contains(x) && project(x, cols@) == z;
            proof {
                lemma_live_stored(st.primary, x0);
            }
            let row: Key = if k == 0 {
                proof {
                    assert(crate::btree_file::widths_are(st.primary, w));
                    assert(x0.len() == w);
                    assert forall|j: int| 0 <= j < x0.len() implies project(x0, cols@)[j] == x0[j] by {
                        assert(cols@[j] == j as usize);
                    }
                    assert(project(x0, cols@) =~= x0);
                }
                copy_values(&listing[t])
            } else {
                proof {
                    assert(self.layout_ok());
                    let a = self.auxiliary@[k - 1];
                    assert(a.order >= 2);
                    assert(forall|q: int| 0 <= q < self.key_len() ==> #[trigger] crate::table::covers(a.columns@, q));
                    assert(live_keys(st.auxiliary@[k - 1]).contains(z));
                    lemma_live_stored(st.auxiliary@[k - 1], z);
                    assert(crate::btree_file::widths_are(st.auxiliary@[k - 1], a.columns@.len() as int));
                    assert(values_view(listing@[t as int]@) == z);
                }
                let key = key_of_aux(&listing[t], &cols, self.key.len());
                match self.find_row(st, &key) {
                    Some(r) => r,
                    None => {
                        proof {
                            assert(has(st.primary, x0, true));
                        }
                        copy_values(&key)
                    },
                }
            };
            let ghost rv = values_view(row@);
            proof {
                assert(rv == x0) by {
                    if k != 0 {
                        assert(has(st.primary, rv, true) && has(st.primary, x0, true));
                    }
                }
                // the rows whose projection is `z` are `x0` alone
                assert forall|x: KeyView| rows.contains(x) && project(x, cols@) == z implies x == x0 by {
                    lemma_live_stored(st.primary, x);
                    if k == 0 {
                        assert(x.len() == w);
                        assert forall|j: int| 0 <= j < x.len() implies project(x, cols@)[j] == x[j] by {
                            assert(cols@[j] == j as usize);
                        }
                        assert(project(x, cols@) =~= x);
                    } else {
                        self.lemma_projection_keys(k - 1, x, x0);
                        assert(has(st.primary, x, true) && has(st.primary, x0, true));
                    }
                }
            }
            let ghost before = out@;
            if row_selected(sels, &row) {
                out.push(row);
            }
            proof {
                let ov = keys_view(before);
                let nv = keys_view(out@);
                if nv.len() > ov.len() {
                    assert(nv =~= ov.push(x0));
                }
                assert forall|x: KeyView|
                    nv.contains(x) <==> (rows.contains(x) && selected(sels@, x) && exists|u: int| 0 <= u < t + 1 && lv[u] == project(x, cols@)) by {
                    if nv.contains(x) {
                        let i = choose|i: int| 0 <= i < nv.len() && nv[i] == x;
                        if i < ov.len() {
                            assert(ov[i] == x);
                            assert(ov.contains(x));
                            let u = choose|u: int| 0 <= u < t && lv[u] == project(x, cols@);
                            assert(0 <= u < t + 1 && lv[u] == project(x, cols@));
                        } else {
                            assert(x == x0);
                            assert(lv[t as int] == project(x, cols@));
                        }
                    }
                    if rows.contains(x) && selected(sels@, x) && exists|u: int| 0 <= u < t + 1 && lv[u] == project(x, cols@) {
                        let u = choose|u: int| 0 <= u < t + 1 && lv[u] == project(x, cols@);
                        if u < t {
                            assert(ov.contains(x));
                            let i = choose|i: int| 0 <= i < ov.len() && ov[i] == x;
                            assert(nv[i] == x);
                        } else {
                            assert(x == x0);
                            assert(nv[ov.len() as int] == x);
                        }
                    }
                }
                assert forall|i: int| 0 <= i < nv.len() implies exists|u: int| 0 <= u < t + 1 && lv[u] == #[trigger] project(nv[i], cols@) by {
                    if i < ov.len() {
                        assert(nv[i] == ov[i]);
                        let u = choose|u: int| 0 <= u < t && lv[u] == project(ov[i], cols@);
                        assert(0 <= u < t + 1 && lv[u] == project(nv[i], cols@));
                    } else {
                        assert(nv[i] == x0);
                        assert(lv[t as int] == project(nv[i], cols@));
                    }
                }
                assert forall|a: int, b: int| 0 <= a < b < nv.len() implies key_lt(
                    project(#[trigger] nv[a], cols@),
                    project(#[trigger] nv[b], cols@),
                ) by {
                    if b < ov.len() {
                        assert(nv[a] == ov[a] && nv[b] == ov[b]);
                    } else {
                        assert(nv[a] == ov[a]);
                        let u = choose|u: int| 0 <= u < t && lv[u] == project(ov[a], cols@);
                        assert(nv[b] == x0);
                        assert(key_lt(lv[u], lv[t as int]));
                    }
                }
            }
            t = t + 1;
        }
        proof {
            assert forall|x: KeyView|
                keys_view(out@).contains(x) <==> (self.rows_at(*txid).contains(x) && selected(sels@, x)) by {
                if rows.contains(x) {
                    assert(rows.map(|y: KeyView| project(y, cols@)).contains(project(x, cols@)));
                    assert(lv.contains(project(x, cols@)));
                    let u = choose|u: int| 0 <= u < lv.len() && lv[u] == project(x, cols@);
                }
            }
        }
        out
    }
}

/// A selection of a table: its bounds by column position, the plan that
/// serves them, the index whose order the rows follow, and the direction.
#[derive(Debug)]
pub struct TableSlice {
    pub selections: Vec<Selection>,
    pub plan: Vec<PlanStep>,
    pub order: usize,
    pub reverse: bool,
}

/// A copy of a column bound.
pub fn copy_column_bound(b: &ColumnBound) -> (r: ColumnBound)
    ensures
        r == *b,
{
    match b {
        ColumnBound::Is(v) => ColumnBound::Is(v.copy()),
        ColumnBound::In(lo, hi) => ColumnBound::In(copy_bound(lo), copy_bound(hi)),
    }
}

/// Whether `order` is a prefix of `cols`.
pub open spec fn orders_by(cols: Seq<usize>, order: Seq<usize>) -> bool {
    order.len() <= cols.len() && cols.take(order.len() as int) == order
}

impl TableIndex {
    /// The first index from `k` on whose key begins with the columns
    /// `order`, or -1.
    pub open spec fn first_ordering(&self, order: Seq<usize>, k: int) -> int
        decreases self.index_count() - k,
    {
        if k < 0 || k >= self.index_count() {
            -1
        } else if orders_by(self.index_cols(k), order) {
            k
        } else {
            self.first_ordering(order, k + 1)
        }
    }

    /// A slice is well formed for this table: its bounds name columns of
    /// the table, in column order, its plan is the greedy plan for them,
    /// and its order names an index.
    pub open spec fn slice_ok(&self, s: TableSlice) -> bool {
        &&& forall|i: int| 0 <= i < s.selections@.len() ==> (#[trigger] s.selections@[i]).column < self.width()
        &&& self.plan_of(shape_of(s.selections@)) == Some(steps_view(s.plan@))
        &&& s.order < self.index_count()
    }

    /// Whether every name names a column of the table.
    pub open spec fn names_resolve(&self, names: Seq<String>) -> bool {
        forall|j: int| 0 <= j < names.len() ==> crate::table::has_column(self.columns@, (#[trigger] names[j])@)
    }

    /// Among the first `i` bounds, those whose name is first found at column
    /// `c`, as that column and whether the bound is a range.
    pub open spec fn matches_upto(&self, b: Seq<(String, ColumnBound)>, c: int, i: int) -> Seq<(usize, ColumnBound)>
        decreases i,
    {
        if i <= 0 {
            Seq::empty()
        } else {
            let rest = self.matches_upto(b, c, i - 1);
            if crate::table::first_named(self.columns@, b[i - 1].0@) == c {
                rest.push((c as usize, b[i - 1].1))
            } else {
                rest
            }
        }
    }

    /// The bounds on the first `c` columns, column by column.
    pub open spec fn bound_sels_upto(&self, b: Seq<(String, ColumnBound)>, c: int) -> Seq<(usize, ColumnBound)>
        decreases c,
    {
        if c <= 0 {
            Seq::empty()
        } else {
            self.bound_sels_upto(b, c - 1) + self.matches_upto(b, c - 1, b.len() as int)
        }
    }

    /// The bounds by position, in the order of the table's columns.
    pub open spec fn bound_sels(&self, b: Seq<(String, ColumnBound)>) -> Seq<(usize, ColumnBound)> {
        self.bound_sels_upto(b, self.width())
    }

    /// The bounds in the order of the table's columns, each as its column
    /// and whether it is a range.
    pub open spec fn bound_shape(&self, b: Seq<(String, ColumnBound)>) -> Seq<(usize, bool)> {
        pair_shape(self.bound_sels(b))
    }

    /// Resolves names into column positions, each the first column of its
    /// name.
    pub fn resolve_names(&self, names: &Vec<String>) -> (r: TCResult<Vec<usize>>)
        ensures
            r is Ok <==> self.names_resolve(names@),
            r is Err ==> r->Err_0.kind == ErrorKind::BadRequest,
            r is Ok ==> r->Ok_0@ == self.positions_of(names@),
            r is Ok ==> forall|j: int| 0 <= j < r->Ok_0@.len() ==> (#[trigger] r->Ok_0@[j]) < self.width()
                && r->Ok_0@[j] as int == crate::table::first_named(self.columns@, names@[j]@),
    {
        let mut ps: Vec<usize> = Vec::new();
        let mut j: usize = 0;
        while j < names.len()
            invariant
                j <= names@.len(),
                ps@.len() == j,
                forall|t: int| 0 <= t < j ==> crate::table::has_column(self.columns@, (#[trigger] names@[t])@),
                forall|t: int| 0 <= t < j ==> (#[trigger] ps@[t]) < self.width() && ps@[t] as int == crate::table::first_named(self.columns@, names@[t]@),
            decreases names@.len() - j,
        {
            match crate::table::position_of(&self.columns, &names[j]) {
                Some(p) => {
                    proof {
                        reveal(crate::table::first_named);
                        let q = crate::table::first_named(self.columns@, names@[j as int]@);
                        assert(0 <= q < self.columns@.len() && (#[trigger] self.columns@[q]).name@ == names@[j as int]@ && forall|q2: int| 0 <= q2 < q ==> (#[trigger] self.columns@[q2]).name@ != names@[j as int]@);
                        if q < p {
                            assert(self.columns@[q].name@ != names@[j as int]@);
                        } else if q > p {
                            assert(self.columns@[p as int].name@ != names@[j as int]@);
                        }
                    }
                    ps.push(p);
                },
                None => {
                    return Err(TCError::bad_request("no such column"));
                },
            }
            j = j + 1;
        }
        proof {
            assert(ps@ =~= self.positions_of(names@));
        }
        Ok(ps)
    }

    /// The selections for the bounds whose column is `c`, in the order of
    /// the bounds.
    fn matches_for(&self, bounds: &Vec<(String, ColumnBound)>, ps: &Vec<usize>, c: usize) -> (r: Vec<Selection>)
        requires
            ps@.len() == bounds@.len(),
            forall|t: int| 0 <= t < ps@.len() ==> #[trigger] ps@[t] as int == crate::table::first_named(self.columns@, bounds@[t].0@),
        ensures
            sel_view(r@) == self.matches_upto(bounds@, c as int, bounds@.len() as int),
    {
        let mut sels: Vec<Selection> = Vec::new();
        let mut i: usize = 0;
        while i < bounds.len()
            invariant
                i <= bounds@.len(),
                ps@.len() == bounds@.len(),
                forall|t: int| 0 <= t < ps@.len() ==> #[trigger] ps@[t] as int == crate::table::first_named(self.columns@, bounds@[t].0@),
                sel_view(sels@) == self.matches_upto(bounds@, c as int, i as int),
            decreases bounds@.len() - i,
        {
            let ghost pi = ps@[i as int];
            if ps[i] == c {
                let ghost before = sels@;
                let sel = Selection { column: c, bound: copy_column_bound(&bounds[i].1) };
                sels.push(sel);
                proof {
                    assert(sel_view(sels@) =~= sel_view(before).push((c, bounds@[i as int].1)));
                }
            }
            i = i + 1;
        }
        sels
    }

    /// Resolves bounds given by column name into bounds by position, in
    /// the order of the table's columns.
    pub fn selections(&self, bounds: &Vec<(String, ColumnBound)>) -> (r: TCResult<Vec<Selection>>)
        ensures
            r is Ok <==> self.names_resolve(bound_names(bounds@)),
            r is Err ==> r->Err_0.kind == ErrorKind::BadRequest,
            r is Ok ==> sel_view(r->Ok_0@) == self.bound_sels(bounds@),
            r is Ok ==> shape_of(r->Ok_0@) == self.bound_shape(bounds@),
            r is Ok ==> forall|j: int|
                0 <= j < r->Ok_0@.len() ==> (#[trigger] r->Ok_0@[j]).column < self.width(),
    {
        let mut names: Vec<String> = Vec::new();
        let mut k: usize = 0;
        while k < bounds.len()
            invariant
                k <= bounds@.len(),
                names@ == bound_names(bounds@.subrange(0, k as int)),
            decreases bounds@.len() - k,
        {
            names.push(bounds[k].0.clone());
            proof {
                assert(names@ =~= bound_names(bounds@.subrange(0, k + 1)));
            }
            k = k + 1;
        }
        proof {
            assert(bounds@.subrange(0, bounds@.len() as int) =~= bounds@);
        }
        let ps = match self.resolve_names(&names) {
            Ok(p) => p,
            Err(e) => {
                return Err(e);
            },
        };
        proof {
            assert forall|t: int| 0 <= t < ps@.len() implies #[trigger] ps@[t] as int == crate::table::first_named(self.columns@, bounds@[t].0@) by {
                assert(names@[t] == bounds@[t].0);
            }
        }
        let mut sels: Vec<Selection> = Vec::new();
        let mut c: usize = 0;
        while c < self.columns.len()
            invariant
                c <= self.columns@.len(),
                ps@.len() == bounds@.len(),
                forall|t: int| 0 <= t < ps@.len() ==> #[trigger] ps@[t] as int == crate::table::first_named(self.columns@, bounds@[t].0@),
                sel_view(sels@) == self.bound_sels_upto(bounds@, c as int),
                forall|j: int| 0 <= j < sels@.len() ==> (#[trigger] sels@[j]).column < c,
            decreases self.columns@.len() - c,
        {
            let mut more = self.matches_for(bounds, &ps, c);
            let ghost before = sels@;
            let ghost m = more@;
            proof {
                lemma_matches_column(self, bounds@, c, bounds@.len() as int);
            }
            sels.append(&mut more);
            proof {
                assert(sel_view(sels@) =~= sel_view(before) + sel_view(m));
                assert forall|j: int| 0 <= j < sels@.len() implies (#[trigger] sels@[j]).column < c + 1 by {
                    if j < before.len() {
                        assert(sels@[j] == before[j]);
                    } else {
                        assert(sels@[j] == m[j - before.len()]);
                        assert(sel_view(m)[j - before.len()].0 == m[j - before.len()].column);
                    }
                }
            }
            c = c + 1;
        }
        proof {
            assert(shape_of(sels@) =~= pair_shape(sel_view(sels@)));
        }
        Ok(sels)
    }

    /// Selects the rows within `bounds`, planned over the table's indexes.
    pub fn slice(&self, bounds: &Vec<(String, ColumnBound)>) -> (r: TCResult<TableSlice>)
        ensures
            r is Ok <==> self.names_resolve(bound_names(bounds@)) && self.plan_of(self.bound_shape(bounds@)) is Some,
            r is Err ==> r->Err_0.kind == ErrorKind::BadRequest,
            r is Ok ==> self.slice_ok(r->Ok_0) && !r->Ok_0.reverse,
            r is Ok ==> sel_view(r->Ok_0.selections@) == self.bound_sels(bounds@),
            r is Ok ==> (r->Ok_0.plan@.len() == 0 ==> r->Ok_0.order == 0),
            r is Ok ==> (r->Ok_0.plan@.len() > 0 ==> r->Ok_0.order == r->Ok_0.plan@.last().index),
    {
        let sels = match self.selections(bounds) {
            Ok(s) => s,
            Err(e) => {
                return Err(e);
            },
        };
        let plan = match self.plan(&sels) {
            Ok(p) => p,
            Err(e) => {
                return Err(e);
            },
        };
        let order = if plan.len() == 0 {
            0
        } else {
            plan[plan.len() - 1].index
        };
        proof {
            if plan@.len() > 0 {
                lemma_plan_indexes(self, shape_of(sels@));
                assert(steps_view(plan@)[plan@.len() - 1].0 == plan@.last().index as int);
            }
        }
        Ok(TableSlice { selections: sels, plan, order, reverse: false })
    }

    /// Orders a slice by the columns named in `columns`: the rows follow the
    /// first index (primary, then auxiliaries) whose key begins with them.
    pub fn order_by(&self, slice: TableSlice, columns: &Vec<String>, reverse: bool) -> (r: TCResult<TableSlice>)
        requires
            self.slice_ok(slice),
        ensures
            r is Ok <==> self.names_resolve(columns@) && self.first_ordering(self.positions_of(columns@), 0) >= 0,
            r is Err ==> r->Err_0.kind == ErrorKind::BadRequest,
            r is Ok ==> self.slice_ok(r->Ok_0),
            r is Ok ==> r->Ok_0.selections == slice.selections && r->Ok_0.plan == slice.plan,
            r is Ok ==> r->Ok_0.reverse == reverse,
            r is Ok ==> r->Ok_0.order as int == self.first_ordering(self.positions_of(columns@), 0),
    {
        let order = match self.resolve_names(columns) {
            Ok(o) => o,
            Err(e) => {
                return Err(e);
            },
        };
        let mut all: Vec<usize> = Vec::new();
        let mut c: usize = 0;
        while c < self.columns.len()
            invariant
                c <= self.columns@.len(),
                all@ == Seq::new(c as nat, |t: int| t as usize),
            decreases self.columns@.len() - c,
        {
            all.push(c);
            proof {
                assert(all@ =~= Seq::new((c + 1) as nat, |t: int| t as usize));
            }
            c = c + 1;
        }
        let mut k: usize = 0;
        while k <= self.auxiliary.len()
            invariant
                self.slice_ok(slice),
                self.names_resolve(columns@),
                order@ == self.positions_of(columns@),
                all@ == self.index_cols(0),
                k <= self.index_count(),
                self.first_ordering(order@, 0) == self.first_ordering(order@, k as int),
            decreases self.index_count() - k,
        {
            let cols = self.index_cols_exec(k, &all);
            let mut ok = false;
            if order.len() <= cols.len() {
                let mut j: usize = 0;
                while j < order.len() && cols[j] == order[j]
                    invariant
                        order@.len() <= cols@.len(),
                        j <= order@.len(),
                        forall|t: int| 0 <= t < j ==> cols@[t] == order@[t],
                    decreases order@.len() - j,
                {
                    j = j + 1;
                }
                ok = j == order.len();
                proof {
                    if ok {
                        assert(cols@.take(order@.len() as int) =~= order@);
                    } else {
                        assert(cols@.take(order@.len() as int)[j as int] != order@[j as int]);
                    }
                }
            }
            assert(ok == orders_by(self.index_cols(k as int), order@));
            if ok {
                assert(self.first_ordering(order@, k as int) == k as int);
                return Ok(TableSlice { selections: slice.selections, plan: slice.plan, order: k, reverse });
            }
            if k == self.auxiliary.len() {
                proof {
                    assert(self.first_ordering(order@, k as int + 1) == -1);
                    assert(self.first_ordering(order@, k as int) == -1);
                }
                return Err(TCError::bad_request("no index supports the order"));
            }
            k = k + 1;
        }
        proof {
            assert(self.first_ordering(order@, k as int) == -1);
        }
        Err(TCError::bad_request("no index supports the order"))
    }

    /// The rows of a slice that `txid` sees, in the slice's order.
    pub fn stream_slice(&self, txid: &TransactionId, slice: &TableSlice) -> (r: Vec<Key>)
        requires
            self.wf(),
            self.slice_ok(*slice),
        ensures
            forall|x: KeyView|
                keys_view(r@).contains(x) <==> (self.rows_at(*txid).contains(x) && selected(slice.selections@, x)),
            !slice.reverse ==> ordered_by(keys_view(r@), self.index_cols(slice.order as int)),
            slice.reverse ==> ordered_by(keys_view(r@).reverse(), self.index_cols(slice.order as int)),
    {
        let rows = self.select(txid, &slice.selections, slice.order);
        assert(forall|x: KeyView| keys_view(rows@).contains(x) <==> (self.rows_at(*txid).contains(x) && selected(slice.selections@, x)));
        if slice.reverse {
            let rev = crate::btree_file::reverse_keys(rows);
            proof {
                assert(keys_view(rev@).reverse() =~= keys_view(rows@));
                assert forall|x: KeyView| keys_view(rev@).contains(x) <==> keys_view(rows@).contains(x) by {
                    if keys_view(rev@).contains(x) {
                        let t = choose|t: int| 0 <= t < keys_view(rev@).len() && keys_view(rev@)[t] == x;
                        assert(keys_view(rows@)[rows@.len() - 1 - t] == x);
                    }
                    if keys_view(rows@).contains(x) {
                        let t = choose|t: int| 0 <= t < keys_view(rows@).len() && keys_view(rows@)[t] == x;
                        assert(keys_view(rev@)[rows@.len() - 1 - t] == x);
                    }
                }
            }
            rev
        } else {
            rows
        }
    }
}

/// Every selection that `matches_upto` gives is on column `c`.
proof fn lemma_matches_column(t: &TableIndex, b: Seq<(String, ColumnBound)>, c: usize, i: int)
    ensures
        forall|j: int| 0 <= j < t.matches_upto(b, c as int, i).len() ==> (#[trigger] t.matches_upto(b, c as int, i)[j]).0 == c,
    decreases i,
{
    if i > 0 {
        lemma_matches_column(t, b, c, i - 1);
        let m = t.matches_upto(b, c as int, i);
        let rest = t.matches_upto(b, c as int, i - 1);
        assert forall|j: int| 0 <= j < m.len() implies (#[trigger] m[j]).0 == c by {
            if j < rest.len() {
                assert(m[j] == rest[j]);
            }
        }
    }
}

/// Every step of a plan names an index of the table.
pub proof fn lemma_plan_indexes(t: &TableIndex, b: Seq<(usize, bool)>)
    requires
        t.plan_of(b) is Some,
    ensures
        forall|i: int|
            0 <= i < t.plan_of(b)->Some_0.len() ==> 0 <= (#[trigger] t.plan_of(b)->Some_0[i]).0 < t.index_count(),
    decreases b.len(),
{
    if b.len() > 0 {
        let n = t.longest(b, b.len() as int);
        lemma_longest(t, b, b.len() as int);
        lemma_plan_indexes(t, b.skip(n));
        lemma_first_supporting_range(t, b.take(n), 0);
        let p = t.plan_of(b)->Some_0;
        let tail = t.plan_of(b.skip(n))->Some_0;
        assert forall|i: int| 0 <= i < p.len() implies 0 <= (#[trigger] p[i]).0 < t.index_count() by {
            if i > 0 {
                assert(p[i] == tail[i - 1]);
            }
        }
    }
}

proof fn lemma_longest(t: &TableIndex, b: Seq<(usize, bool)>, m: int)
    ensures
        t.longest(b, m) > 0 ==> t.first_supporting(b.take(t.longest(b, m)), 0) >= 0,
        t.longest(b, m) <= (if m > 0 { m } else { 0 }),
    decreases m,
{
    if m > 0 && t.first_supporting(b.take(m), 0) < 0 {
        lemma_longest(t, b, m - 1);
    }
}

proof fn lemma_first_supporting_range(t: &TableIndex, sub: Seq<(usize, bool)>, k: int)
    ensures
        t.first_supporting(sub, k) == -1 || (k <= t.first_supporting(sub, k) < t.index_count()),
    decreases t.index_count() - k,
{
    if k >= 0 && k < t.index_count() && !supports(t.bound_cols(k), sub) {
        lemma_first_supporting_range(t, sub, k + 1);
    }
}

/// A row that a transaction sees is among the rows of any slice whose
/// every bound is an equality with that row's own value in the column.
pub proof fn lemma_own_bounds_select(
    t: TableIndex,
    txid: TransactionId,
    sels: Seq<Selection>,
    r: KeyView,
    out: Seq<KeyView>,
)
    requires
        t.rows_at(txid).contains(r),
        forall|i: int|
            0 <= i < sels.len() ==> (#[trigger] sels[i]).bound is Is && sels[i].column < r.len()
                && sels[i].bound->Is_0@ == r[sels[i].column as int],
        forall|x: KeyView| #[trigger] out.contains(x) <==> (t.rows_at(txid).contains(x) && selected(sels, x)),
    ensures
        out.contains(r),
{
    assert forall|i: int| 0 <= i < sels.len() implies bound_holds((#[trigger] sels[i]).bound, r[sels[i].column as int]) by {
        crate::collator::lemma_value_cmp(r[sels[i].column as int], sels[i].bound->Is_0@, r[sels[i].column as int]);
    }
    assert(selected(sels, r));
}

/// The first `n` rows, or all of them when there are fewer.
pub fn limit(rows: Vec<Key>, n: u64) -> (r: Vec<Key>)
    ensures
        r@ == rows@.take(if (n as int) < rows@.len() { n as int } else { rows@.len() as int }),
{
    let mut rows = rows;
    if n < rows.len() as u64 {
        let _rest = rows.split_off(n as usize);
    } else {
        proof {
            assert(rows@.take(rows@.len() as int) =~= rows@);
        }
    }
    rows
}

impl TableIndex {
    /// The positions of the columns named `names`: each the first column of
    /// its name.
    pub open spec fn positions_of(&self, names: Seq<String>) -> Seq<usize> {
        Seq::new(names.len(), |j: int| crate::table::first_named(self.columns@, names[j]@) as usize)
    }

    /// Each row reduced to the columns named `names`, in that order.
    pub fn select_columns(&self, rows: &Vec<Key>, names: &Vec<String>) -> (r: TCResult<Vec<Key>>)
        ensures
            r is Ok <==> (forall|j: int| 0 <= j < names@.len() ==> crate::table::has_column(self.columns@, (#[trigger] names@[j])@))
                && (forall|i: int| 0 <= i < rows@.len() ==> (#[trigger] rows@[i])@.len() == self.width()),
            r is Err ==> r->Err_0.kind == ErrorKind::BadRequest,
            r is Ok ==> r->Ok_0@.len() == rows@.len() && forall|i: int|
                0 <= i < rows@.len() ==> values_view((#[trigger] r->Ok_0@[i])@) == project(
                    values_view(rows@[i]@),
                    self.positions_of(names@),
                ),
    {
        let mut ps: Vec<usize> = Vec::new();
        let mut j: usize = 0;
        while j < names.len()
            invariant
                j <= names@.len(),
                ps@.len() == j,
                forall|t: int| 0 <= t < j ==> crate::table::has_column(self.columns@, (#[trigger] names@[t])@),
                forall|t: int| 0 <= t < j ==> (#[trigger] ps@[t]) < self.width() && ps@[t] as int == crate::table::first_named(self.columns@, names@[t]@),
            decreases names@.len() - j,
        {
            match crate::table::position_of(&self.columns, &names[j]) {
                Some(p) => {
                    proof {
                        reveal(crate::table::first_named);
                        let q = crate::table::first_named(self.columns@, names@[j as int]@);
                        assert(0 <= q < self.columns@.len() && (#[trigger] self.columns@[q]).name@ == names@[j as int]@ && forall|q2: int| 0 <= q2 < q ==> (#[trigger] self.columns@[q2]).name@ != names@[j as int]@);
                        if q < p {
                            assert(self.columns@[q].name@ != names@[j as int]@);
                        } else if q > p {
                            assert(self.columns@[p as int].name@ != names@[j as int]@);
                        }
                    }
                    ps.push(p);
                },
                None => {
                    return Err(TCError::bad_request("no such column"));
                },
            }
            j = j + 1;
        }
        proof {
            assert(ps@ =~= self.positions_of(names@));
        }
        let mut out: Vec<Key> = Vec::new();
        let mut i: usize = 0;
        while i < rows.len()
            invariant
                ps@ == self.positions_of(names@),
                forall|t: int| 0 <= t < ps@.len() ==> (#[trigger] ps@[t]) < self.width(),
                forall|t: int| 0 <= t < names@.len() ==> crate::table::has_column(self.columns@, (#[trigger] names@[t])@),
                i <= rows@.len(),
                out@.len() == i,
                forall|t: int| 0 <= t < i ==> (#[trigger] rows@[t])@.len() == self.width(),
                forall|t: int| 0 <= t < i ==> values_view((#[trigger] out@[t])@) == project(values_view(rows@[t]@), ps@),
            decreases rows@.len() - i,
        {
            if rows[i].len() != self.columns.len() {
                return Err(TCError::bad_request("a row does not have the table's width"));
            }
            let row = crate::table::project_row(&rows[i], &ps);
            out.push(row);
            i = i + 1;
        }
        Ok(out)
    }
}

} // verus!
