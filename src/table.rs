use vstd::prelude::*;

use crate::btree::{has, keys_view, Node};
use crate::btree_file::{
    live_keys, ordered_listing, tree_contains, tree_copy, tree_empty, tree_insert, tree_listing,
    tree_tombstone, wf_tree, widths_are, lemma_live_stored, lemma_listing_len,
};
use crate::collator::{Key, KeyView};
use crate::error::{ErrorKind, TCError, TCResult};
use crate::range::{lemma_point_range, point_range, BTreeRange};
use crate::schema::{column_bytes, derive_order, key_fits, schema_ok, validate_key, Column};
use crate::txn::{TransactionId, TxnLock};
use crate::value::{copy_values, Value, values_view};

verus! {

/// The values of `row` at the positions `cols`, in that order.
pub open spec fn project(row: KeyView, cols: Seq<usize>) -> KeyView {
    Seq::new(cols.len(), |j: int| row[cols[j] as int])
}

/// Whether position `p` is among `cols`.
pub open spec fn covers(cols: Seq<usize>, p: int) -> bool {
    exists|j: int| 0 <= j < cols.len() && cols[j] == p
}

/// An auxiliary index: its name, the positions in a row of the columns
/// that form its key, and the order of its tree.
#[derive(Debug)]
pub struct Auxiliary {
    pub name: String,
    pub columns: Vec<usize>,
    pub order: usize,
}

/// The trees of a table as one transaction sees them.
#[derive(Debug)]
pub struct TableState {
    pub primary: Node,
    pub auxiliary: Vec<Node>,
}

/// A table: rows of `key` columns then `values` columns, stored in a
/// primary tree ordered by the whole row, and in one tree per auxiliary
/// index that holds each row's projection onto that index's columns.
pub struct TableIndex {
    pub key: Vec<Column>,
    pub values: Vec<Column>,
    pub columns: Vec<Column>,
    pub order: usize,
    pub auxiliary: Vec<Auxiliary>,
    pub state: TxnLock<TableState>,
}

impl TableIndex {
    pub open spec fn width(&self) -> int {
        self.columns@.len() as int
    }

    pub open spec fn key_len(&self) -> int {
        self.key@.len() as int
    }

    /// The table's fixed layout: column counts, tree orders, and auxiliary
    /// keys that reach every primary key column.
    pub open spec fn layout_ok(&self) -> bool {
        &&& self.order >= 2
        &&& self.columns@.len() == self.key@.len() + self.values@.len()
        &&& forall|i: int| 0 <= i < self.key@.len() ==> self.columns@[i] == self.key@[i]
        &&& forall|i: int|
            0 <= i < self.values@.len() ==> self.columns@[self.key@.len() + i] == self.values@[i]
        &&& forall|i: int|
            0 <= i < self.auxiliary@.len() ==> {
                let a = #[trigger] self.auxiliary@[i];
                &&& a.order >= 2
                &&& forall|j: int| 0 <= j < a.columns@.len() ==> a.columns@[j] < self.width()
                &&& forall|p: int| 0 <= p < self.key_len() ==> #[trigger] covers(a.columns@, p)
            }
    }

    /// A consistent state: well-formed trees, rows of the table's width,
    /// one row per primary key, and each auxiliary tree holding exactly the
    /// projections of the rows.
    pub open spec fn state_ok(&self, st: TableState) -> bool {
        &&& wf_tree(st.primary, self.order as int)
        &&& widths_are(st.primary, self.width())
        &&& st.auxiliary@.len() == self.auxiliary@.len()
        &&& forall|x: KeyView, y: KeyView|
            #[trigger] has(st.primary, x, true) && #[trigger] has(st.primary, y, true)
                && x.subrange(0, self.key_len()) == y.subrange(0, self.key_len()) ==> x == y
        &&& forall|i: int|
            0 <= i < self.auxiliary@.len() ==> {
                let a = #[trigger] self.auxiliary@[i];
                &&& wf_tree(st.auxiliary@[i], a.order as int)
                &&& widths_are(st.auxiliary@[i], a.columns@.len() as int)
                &&& live_keys(st.auxiliary@[i]) == live_keys(st.primary).map(
                    |x: KeyView| project(x, a.columns@),
                )
            }
    }

    pub open spec fn wf(&self) -> bool {
        &&& self.layout_ok()
        &&& self.state_ok(self.state.canonical)
        &&& (self.state.pending is Some ==> self.state_ok(self.state.pending->Some_0.1))
    }

    /// The rows that transaction `txid` sees.
    pub open spec fn rows_at(&self, txid: TransactionId) -> Set<KeyView> {
        live_keys(self.state.visible(txid).primary)
    }

    /// The rows that `txid` sees under a primary key.
    pub open spec fn rows_with_key(&self, txid: TransactionId, key: KeyView) -> Set<KeyView> {
        self.rows_at(txid).filter(|x: KeyView| x.subrange(0, self.key_len()) == key)
    }

    /// The keys that `txid` sees in auxiliary index `i`.
    pub open spec fn index_at(&self, txid: TransactionId, i: int) -> Set<KeyView> {
        live_keys(self.state.visible(txid).auxiliary@[i])
    }
}

/// A key lies in the point range of a key of its own width exactly when
/// the two are equal; in the point range of a shorter key exactly when it
/// begins with that key.
pub proof fn lemma_point_prefix(k: KeyView, x: KeyView)
    requires
        x.len() >= k.len(),
    ensures
        point_range(k).contains(x) <==> x.subrange(0, k.len() as int) == k,
        x.len() == k.len() ==> (point_range(k).contains(x) <==> x == k),
{
    lemma_point_range(k, x);
    if point_range(k).contains(x) {
        assert(x.subrange(0, k.len() as int) =~= k);
    }
    if x.subrange(0, k.len() as int) == k {
        assert forall|j: int| 0 <= j < k.len() && j < x.len() implies x[j] == k[j] by {
            assert(x.subrange(0, k.len() as int)[j] == x[j]);
        }
    }
    if x.len() == k.len() {
        assert(x.subrange(0, k.len() as int) =~= x);
    }
}

/// The values of `row` at the positions `cols`.
pub fn project_row(row: &Vec<Value>, cols: &Vec<usize>) -> (r: Vec<Value>)
    requires
        forall|j: int| 0 <= j < cols@.len() ==> cols@[j] < row@.len(),
    ensures
        values_view(r@) == project(values_view(row@), cols@),
        r@.len() == cols@.len(),
{
    let mut r: Vec<Value> = Vec::new();
    let mut j: usize = 0;
    while j < cols.len()
        invariant
            forall|t: int| 0 <= t < cols@.len() ==> cols@[t] < row@.len(),
            j <= cols@.len(),
            r@.len() == j,
            forall|t: int| 0 <= t < j ==> r@[t] == row@[cols@[t] as int],
        decreases cols@.len() - j,
    {
        r.push(row[cols[j]].copy());
        j = j + 1;
    }
    proof {
        assert(values_view(r@) =~= project(values_view(row@), cols@));
    }
    r
}

/// A row: the key's values, then the other values.
pub fn join_row(key: &Vec<Value>, values: &Vec<Value>) -> (r: Vec<Value>)
    ensures
        r@ == key@ + values@,
        values_view(r@) == values_view(key@) + values_view(values@),
{
    let mut r = copy_values(key);
    let mut v = copy_values(values);
    r.append(&mut v);
    proof {
        assert(values_view(r@) =~= values_view(key@) + values_view(values@));
    }
    r
}

impl TableIndex {
    /// Rows that agree on their projection onto an auxiliary index agree on
    /// their primary key.
    pub proof fn lemma_projection_keys(&self, i: int, x: KeyView, y: KeyView)
        requires
            self.layout_ok(),
            0 <= i < self.auxiliary@.len(),
            x.len() == self.width(),
            y.len() == self.width(),
            project(x, self.auxiliary@[i].columns@) == project(y, self.auxiliary@[i].columns@),
        ensures
            x.subrange(0, self.key_len()) == y.subrange(0, self.key_len()),
    {
        let a = self.auxiliary@[i];
        assert forall|p: int| 0 <= p < self.key_len() implies x[p] == y[p] by {
            assert(covers(a.columns@, p));
            let j = choose|j: int| 0 <= j < a.columns@.len() && a.columns@[j] == p;
            assert(project(x, a.columns@)[j] == x[p]);
            assert(project(y, a.columns@)[j] == y[p]);
        }
        assert(x.subrange(0, self.key_len()) =~= y.subrange(0, self.key_len()));
    }

    /// The state after removing row `old` (if given) and adding `row` is
    /// consistent, provided no other row shares `row`'s key.
    proof fn lemma_replace_row(&self, st: TableState, st2: TableState, old: Option<KeyView>, row: KeyView)
        requires
            self.layout_ok(),
            self.state_ok(st),
            row.len() == self.width(),
            old is Some ==> has(st.primary, old->Some_0, true) && old->Some_0.subrange(0, self.key_len())
                == row.subrange(0, self.key_len()),
            old is None ==> forall|x: KeyView|
                #[trigger] has(st.primary, x, true) ==> x.subrange(0, self.key_len()) != row.subrange(
                    0,
                    self.key_len(),
                ),
            wf_tree(st2.primary, self.order as int),
            st2.auxiliary@.len() == st.auxiliary@.len(),
            forall|x: KeyView, f: bool|
                #[trigger] has(st2.primary, x, f) <==> ((has(st.primary, x, f) && (!f || old != Some(x))) || x == row),
            forall|i: int|
                0 <= i < self.auxiliary@.len() ==> wf_tree(
                    #[trigger] st2.auxiliary@[i],
                    self.auxiliary@[i].order as int,
                ),
            forall|i: int, x: KeyView, f: bool|
                0 <= i < self.auxiliary@.len() ==> (#[trigger] has(st2.auxiliary@[i], x, f) <==> ((has(
                    st.auxiliary@[i],
                    x,
                    f,
                ) && (!f || (old is None || x != project(old->Some_0, self.auxiliary@[i].columns@))))
                    || x == project(row, self.auxiliary@[i].columns@))),
        ensures
            self.state_ok(st2),
            live_keys(st2.primary) == live_keys(st.primary).filter(
                |x: KeyView| x.subrange(0, self.key_len()) != row.subrange(0, self.key_len()),
            ).insert(row),
    {
        let kl = self.key_len();
        let rk = row.subrange(0, kl);
        // widths
        assert forall|x: KeyView| #[trigger] has(st2.primary, x, false) implies x.len() == self.width() by {
            if x != row {
                assert(has(st.primary, x, false));
            }
        }
        // the live rows
        assert forall|x: KeyView| has(st2.primary, x, true) <==> ((has(st.primary, x, true) && x.subrange(0, kl) != rk) || x == row) by {
            if has(st.primary, x, true) {
                lemma_live_stored(st.primary, x);
                if x.subrange(0, kl) == rk {
                    if old is Some {
                        let o = old->Some_0;
                        lemma_live_stored(st.primary, o);
                        assert(x == o);
                    }
                }
            }
        }
        assert(live_keys(st2.primary) =~= live_keys(st.primary).filter(
            |x: KeyView| x.subrange(0, kl) != rk,
        ).insert(row));
        // one row per key
        assert forall|x: KeyView, y: KeyView|
            #[trigger] has(st2.primary, x, true) && #[trigger] has(st2.primary, y, true)
                && x.subrange(0, kl) == y.subrange(0, kl) implies x == y by {
            if x != row && y != row {
                assert(has(st.primary, x, true) && has(st.primary, y, true));
            }
        }
        assert forall|i: int| 0 <= i < self.auxiliary@.len() implies {
            let a = #[trigger] self.auxiliary@[i];
            &&& wf_tree(st2.auxiliary@[i], a.order as int)
            &&& widths_are(st2.auxiliary@[i], a.columns@.len() as int)
            &&& live_keys(st2.auxiliary@[i]) == live_keys(st2.primary).map(
                |x: KeyView| project(x, a.columns@),
            )
        } by {
            let a = self.auxiliary@[i];
            let pr = |x: KeyView| project(x, a.columns@);
            assert(live_keys(st.auxiliary@[i]) == live_keys(st.primary).map(pr));
            assert forall|x: KeyView| #[trigger] has(st2.auxiliary@[i], x, false) implies x.len() == a.columns@.len() by {
                if x != project(row, a.columns@) {
                    assert(has(st.auxiliary@[i], x, false));
                }
            }
            assert forall|z: KeyView| live_keys(st2.auxiliary@[i]).contains(z) <==> live_keys(st2.primary).map(pr).contains(z) by {
                if has(st2.auxiliary@[i], z, true) {
                    if z == project(row, a.columns@) {
                        assert(has(st2.primary, row, true));
                        assert(pr(row) == z);
                        assert(live_keys(st2.primary).contains(row));
                    } else {
                        assert(has(st.auxiliary@[i], z, true));
                        assert(live_keys(st.primary).map(pr).contains(z));
                        let x = choose|x: KeyView| live_keys(st.primary).contains(x) && pr(x) == z;
                        if old is Some {
                            let o = old->Some_0;
                            assert(z != project(o, a.columns@));
                            assert(x != o);
                        }
                        assert(has(st2.primary, x, true));
                        assert(live_keys(st2.primary).contains(x) && pr(x) == z);
                    }
                    assert(live_keys(st2.primary).map(pr).contains(z));
                }
                if live_keys(st2.primary).map(pr).contains(z) {
                    let x = choose|x: KeyView| live_keys(st2.primary).contains(x) && pr(x) == z;
                    if x == row {
                        assert(z == project(row, a.columns@));
                        assert(has(st2.auxiliary@[i], z, true));
                    } else {
                        assert(z == project(x, a.columns@));
                        assert(has(st.primary, x, true));
                        assert(live_keys(st.primary).contains(x));
                        assert(live_keys(st.primary).map(pr).contains(z));
                        assert(live_keys(st.auxiliary@[i]).contains(z));
                        assert(has(st.auxiliary@[i], z, true));
                        if old is Some {
                            let o = old->Some_0;
                            if z == project(o, a.columns@) {
                                lemma_live_stored(st.primary, x);
                                lemma_live_stored(st.primary, o);
                                self.lemma_projection_keys(i, x, o);
                                assert(x == o);
                            }
                        }
                    }
                }
            }
            assert(live_keys(st2.auxiliary@[i]) =~= live_keys(st2.primary).map(pr));
        }
    }
}

impl TableIndex {
    /// The live row of `st` under primary key `key`, if there is one.
    pub(crate) fn find_row(&self, st: &TableState, key: &Vec<Value>) -> (r: Option<Key>)
        requires
            self.layout_ok(),
            self.state_ok(*st),
            key@.len() == self.key_len(),
        ensures
            r is Some ==> has(st.primary, values_view(r->Some_0@), true) && values_view(
                r->Some_0@,
            ).subrange(0, self.key_len()) == values_view(key@),
            r is None ==> forall|x: KeyView|
                #[trigger] has(st.primary, x, true) ==> x.subrange(0, self.key_len())
                    != values_view(key@),
    {
        let range = BTreeRange::from_key(key);
        let rows = tree_listing(&st.primary, &range, self.order, Ghost(self.width()));
        let ghost k = values_view(key@);
        let ghost lv = keys_view(rows@);
        proof {
            assert forall|x: KeyView| has(st.primary, x, true) implies (point_range(k).contains(x)
                <==> x.subrange(0, self.key_len()) == k) by {
                lemma_live_stored(st.primary, x);
                lemma_point_prefix(k, x);
            }
        }
        if rows.len() > 0 {
            proof {
                assert(lv.contains(lv[0]));
            }
            Some(copy_values(&rows[0]))
        } else {
            proof {
                assert forall|x: KeyView| #[trigger] has(st.primary, x, true) implies x.subrange(0, self.key_len()) != k by {
                    if x.subrange(0, self.key_len()) == k {
                        assert(live_keys(st.primary).filter(|y: KeyView| range@.contains(y)).contains(x));
                        assert(lv.contains(x));
                    }
                }
            }
            None
        }
    }

    /// The row that `txid` sees under primary key `key`, if any.
    pub fn get(&self, txid: &TransactionId, key: &Vec<Value>) -> (r: TCResult<Option<Key>>)
        requires
            self.wf(),
        ensures
            r is Ok <==> key_fits(self.key@, key@),
            r is Err ==> r->Err_0.kind == ErrorKind::BadRequest,
            r is Ok ==> (r->Ok_0 is Some <==> !self.rows_with_key(*txid, values_view(key@)).is_empty()),
            r is Ok && r->Ok_0 is Some ==> self.rows_with_key(*txid, values_view(key@)) == set![values_view(r->Ok_0->Some_0@)],
    {
        match validate_key(&self.key, key) {
            Ok(_) => {},
            Err(e) => {
                return Err(e);
            },
        }
        let st = self.state.read(txid);
        let found = self.find_row(st, key);
        proof {
            let k = values_view(key@);
            let s = self.rows_with_key(*txid, k);
            if found is Some {
                    let rv = values_view(found->Some_0@);
                    assert(s.contains(rv));
                    assert(s =~= set![rv]) by {
                        assert forall|x: KeyView| s.contains(x) implies x == rv by {
                            assert(has(st.primary, x, true) && has(st.primary, rv, true));
                        }
                    }
            } else {
                    assert(s =~= Set::<KeyView>::empty());
            }
        }
        Ok(found)
    }
}

impl TableIndex {
    /// `st` with row `old` (if given) removed and `row` added, in the
    /// primary tree and in every auxiliary tree.
    fn replaced_state(&self, st: &TableState, old: Option<&Key>, row: &Key) -> (r: TableState)
        requires
            self.layout_ok(),
            self.state_ok(*st),
            row@.len() == self.width(),
            old is Some ==> has(st.primary, values_view(old->Some_0@), true) && values_view(
                old->Some_0@,
            ).subrange(0, self.key_len()) == values_view(row@).subrange(0, self.key_len()),
            old is None ==> forall|x: KeyView|
                #[trigger] has(st.primary, x, true) ==> x.subrange(0, self.key_len())
                    != values_view(row@).subrange(0, self.key_len()),
        ensures
            self.state_ok(r),
            live_keys(r.primary) == live_keys(st.primary).filter(
                |x: KeyView| x.subrange(0, self.key_len()) != values_view(row@).subrange(
                    0,
                    self.key_len(),
                ),
            ).insert(values_view(row@)),
    {
        let ghost rv = values_view(row@);
        let ghost ov: Option<KeyView> = match old {
            Some(o) => Some(values_view(o@)),
            None => None,
        };
        let m = self.order;
        let base = match old {
            Some(o) => {
                let range = BTreeRange::from_key(o);
                tree_tombstone(&st.primary, &range, m)
            },
            None => tree_copy(&st.primary, m),
        };
        proof {
            assert forall|x: KeyView, f: bool| #[trigger] has(base, x, f) <==> (has(st.primary, x, f) && (!f || ov != Some(x))) by {
                if has(st.primary, x, f) && ov is Some {
                    if f {
                        lemma_live_stored(st.primary, x);
                    }
                    lemma_live_stored(st.primary, ov->Some_0);
                    lemma_point_prefix(ov->Some_0, x);
                }
            }
        }
        let primary = tree_insert(base, copy_values(row), m);
        let mut auxiliary: Vec<Node> = Vec::new();
        let mut i: usize = 0;
        while i < self.auxiliary.len()
            invariant
                self.layout_ok(),
                self.state_ok(*st),
                row@.len() == self.width(),
                rv == values_view(row@),
                ov == (match old {
                    Some(o) => Some(values_view(o@)),
                    None => None::<KeyView>,
                }),
                ov is Some ==> has(st.primary, ov->Some_0, true),
                i <= self.auxiliary@.len(),
                auxiliary@.len() == i,
                forall|t: int|
                    0 <= t < i ==> wf_tree(#[trigger] auxiliary@[t], self.auxiliary@[t].order as int),
                forall|t: int, x: KeyView, f: bool|
                    0 <= t < i ==> (#[trigger] has(auxiliary@[t], x, f) <==> ((has(
                        st.auxiliary@[t],
                        x,
                        f,
                    ) && (!f || (ov is None || x != project(ov->Some_0, self.auxiliary@[t].columns@))))
                        || x == project(rv, self.auxiliary@[t].columns@))),
            decreases self.auxiliary@.len() - i,
        {
            let a = &self.auxiliary[i];
            let ghost ii = i as int;
            assert(self.auxiliary@[ii] == *a);
            let ghost cols = a.columns@;
            assert(wf_tree(st.auxiliary@[ii], a.order as int));
            let abase = match old {
                Some(o) => {
                    proof {
                        lemma_live_stored(st.primary, values_view(o@));
                    }
                    let po = project_row(o, &a.columns);
                    let range = BTreeRange::from_key(&po);
                    tree_tombstone(&st.auxiliary[i], &range, a.order)
                },
                None => tree_copy(&st.auxiliary[i], a.order),
            };
            proof {
                assert forall|x: KeyView, f: bool| #[trigger] has(abase, x, f) <==> (has(st.auxiliary@[ii], x, f) && (!f || (ov is None || x != project(ov->Some_0, cols)))) by {
                    if has(st.auxiliary@[ii], x, f) && ov is Some {
                        if f {
                            lemma_live_stored(st.auxiliary@[ii], x);
                        }
                        assert(widths_are(st.auxiliary@[ii], cols.len() as int));
                        lemma_point_prefix(project(ov->Some_0, cols), x);
                    }
                }
            }
            let pr = project_row(row, &a.columns);
            let t = tree_insert(abase, pr, a.order);
            auxiliary.push(t);
            i = i + 1;
        }
        let r = TableState { primary, auxiliary };
        proof {
            self.lemma_replace_row(*st, r, ov, rv);
        }
        r
    }
}

impl TableIndex {
    /// Whether two tables have the same layout.
    pub open spec fn same_layout(&self, other: &TableIndex) -> bool {
        &&& self.key == other.key
        &&& self.values == other.values
        &&& self.columns == other.columns
        &&& self.order == other.order
        &&& self.auxiliary == other.auxiliary
    }

    /// `st` with every row removed: every key of every tree tombstoned.
    fn cleared_state(&self, st: &TableState) -> (r: TableState)
        requires
            self.layout_ok(),
            self.state_ok(*st),
        ensures
            self.state_ok(r),
            live_keys(r.primary) == Set::<KeyView>::empty(),
    {
        let all = BTreeRange::all();
        let primary = tree_tombstone(&st.primary, &all, self.order);
        let mut auxiliary: Vec<Node> = Vec::new();
        let mut i: usize = 0;
        while i < self.auxiliary.len()
            invariant
                self.layout_ok(),
                self.state_ok(*st),
                forall|x: KeyView| all@.contains(x),
                i <= self.auxiliary@.len(),
                auxiliary@.len() == i,
                forall|t: int|
                    0 <= t < i ==> wf_tree(#[trigger] auxiliary@[t], self.auxiliary@[t].order as int)
                        && widths_are(auxiliary@[t], self.auxiliary@[t].columns@.len() as int)
                        && live_keys(auxiliary@[t]) == Set::<KeyView>::empty(),
            decreases self.auxiliary@.len() - i,
        {
            let ghost ii = i as int;
            assert(wf_tree(st.auxiliary@[ii], self.auxiliary@[ii].order as int));
            assert(widths_are(st.auxiliary@[ii], self.auxiliary@[ii].columns@.len() as int));
            let t = tree_tombstone(&st.auxiliary[i], &all, self.auxiliary[i].order);
            proof {
                assert(live_keys(t) =~= Set::<KeyView>::empty());
                assert forall|x: KeyView| #[trigger] has(t, x, false) implies x.len() == self.auxiliary@[ii].columns@.len() by {
                    assert(has(st.auxiliary@[ii], x, false));
                }
            }
            auxiliary.push(t);
            i = i + 1;
        }
        let r = TableState { primary, auxiliary };
        proof {
            assert(live_keys(primary) =~= Set::<KeyView>::empty());
            assert forall|x: KeyView| #[trigger] has(primary, x, false) implies x.len() == self.width() by {
                assert(has(st.primary, x, false));
            }
            assert forall|i: int| 0 <= i < self.auxiliary@.len() implies live_keys(#[trigger] r.auxiliary@[i]) == live_keys(r.primary).map(
                |x: KeyView| project(x, self.auxiliary@[i].columns@),
            ) by {
                assert(live_keys(r.primary).map(|x: KeyView| project(x, self.auxiliary@[i].columns@)) =~= Set::<KeyView>::empty());
            }
        }
        r
    }

    /// Inserts or replaces the row under `key` at `txid`.
    pub fn upsert(&mut self, txid: &TransactionId, key: &Vec<Value>, values: &Vec<Value>) -> (r: TCResult<()>)
        requires
            old(self).wf(),
        ensures
            final(self).wf(),
            final(self).same_layout(old(self)),
            final(self).state.canonical == old(self).state.canonical,
            r is Err <==> (!key_fits(old(self).key@, key@) || !key_fits(old(self).values@, values@)
                || old(self).state.held_by_other(*txid)),
            !key_fits(old(self).key@, key@) || !key_fits(old(self).values@, values@) ==> r is Err
                && r->Err_0.kind == ErrorKind::BadRequest,
            key_fits(old(self).key@, key@) && key_fits(old(self).values@, values@) && old(self).state.held_by_other(*txid)
                ==> r is Err && r->Err_0.kind == ErrorKind::Conflict,
            r is Err && r->Err_0.kind != ErrorKind::BadRequest ==> r->Err_0.kind == ErrorKind::Conflict,
            r is Err ==> final(self).state == old(self).state,
            r is Ok ==> final(self).rows_at(*txid) == old(self).rows_at(*txid).filter(
                |x: KeyView| x.subrange(0, old(self).key_len()) != values_view(key@),
            ).insert(values_view(key@) + values_view(values@)),
            r is Ok ==> forall|t: TransactionId|
                t != *txid ==> final(self).rows_at(t) == old(self).rows_at(t),
    {
        match validate_key(&self.key, key) {
            Ok(_) => {},
            Err(e) => {
                return Err(e);
            },
        }
        match validate_key(&self.values, values) {
            Ok(_) => {},
            Err(e) => {
                return Err(e);
            },
        }
        if self.state.is_held_by_other(txid) {
            return Err(TCError::conflict("another transaction holds a pending write"));
        }
        let row = join_row(key, values);
        let st = self.state.read(txid);
        let found = self.find_row(st, key);
        proof {
            assert(values_view(row@).subrange(0, self.key_len()) =~= values_view(key@));
        }
        let st2 = match &found {
            Some(o) => self.replaced_state(st, Some(o), &row),
            None => self.replaced_state(st, None, &row),
        };
        self.state.write(txid, st2)
    }

    /// Inserts a row under a key that `txid` does not yet see.
    pub fn insert(&mut self, txid: &TransactionId, key: &Vec<Value>, values: &Vec<Value>) -> (r: TCResult<()>)
        requires
            old(self).wf(),
        ensures
            final(self).wf(),
            final(self).same_layout(old(self)),
            final(self).state.canonical == old(self).state.canonical,
            r is Err <==> (!key_fits(old(self).key@, key@) || !key_fits(old(self).values@, values@)
                || !old(self).rows_with_key(*txid, values_view(key@)).is_empty()
                || old(self).state.held_by_other(*txid)),
            !key_fits(old(self).key@, key@) || !key_fits(old(self).values@, values@)
                || !old(self).rows_with_key(*txid, values_view(key@)).is_empty() ==> r is Err
                && r->Err_0.kind == ErrorKind::BadRequest,
            key_fits(old(self).key@, key@) && key_fits(old(self).values@, values@)
                && old(self).rows_with_key(*txid, values_view(key@)).is_empty() && old(self).state.held_by_other(*txid)
                ==> r is Err && r->Err_0.kind == ErrorKind::Conflict,
            r is Err && r->Err_0.kind != ErrorKind::BadRequest ==> r->Err_0.kind == ErrorKind::Conflict,
            r is Err ==> final(self).state == old(self).state,
            r is Ok ==> final(self).rows_at(*txid) == old(self).rows_at(*txid).insert(
                values_view(key@) + values_view(values@),
            ),
            r is Ok ==> forall|t: TransactionId|
                t != *txid ==> final(self).rows_at(t) == old(self).rows_at(t),
    {
        match self.get(txid, key) {
            Ok(Some(_)) => {
                return Err(TCError::bad_request("there is already a row with this key"));
            },
            Ok(None) => {},
            Err(e) => {
                return Err(e);
            },
        }
        let ghost before = self.rows_at(*txid);
        let ghost k = values_view(key@);
        let r = self.upsert(txid, key, values);
        proof {
            assert(before.filter(|x: KeyView| x.subrange(0, self.key_len()) != k) =~= before) by {
                assert forall|x: KeyView| before.contains(x) implies x.subrange(0, self.key_len()) != k by {
                    if x.subrange(0, self.key_len()) == k {
                        assert(old(self).rows_with_key(*txid, k).contains(x));
                    }
                }
            }
        }
        r
    }

    /// Removes every row at `txid`.
    pub fn delete(&mut self, txid: &TransactionId) -> (r: TCResult<()>)
        requires
            old(self).wf(),
        ensures
            final(self).wf(),
            final(self).same_layout(old(self)),
            final(self).state.canonical == old(self).state.canonical,
            r is Err <==> old(self).state.held_by_other(*txid),
            r is Err ==> r->Err_0.kind == ErrorKind::Conflict && final(self).state == old(self).state,
            r is Ok ==> final(self).rows_at(*txid) == Set::<KeyView>::empty(),
            r is Ok ==> forall|t: TransactionId|
                t != *txid ==> final(self).rows_at(t) == old(self).rows_at(t),
    {
        if self.state.is_held_by_other(txid) {
            return Err(TCError::conflict("another transaction holds a pending write"));
        }
        let st = self.state.read(txid);
        let st2 = self.cleared_state(st);
        self.state.write(txid, st2)
    }

    /// The rows that `txid` sees, in primary order.
    pub fn stream(&self, txid: &TransactionId) -> (r: Vec<Key>)
        requires
            self.wf(),
        ensures
            ordered_listing(keys_view(r@), self.rows_at(*txid)),
    {
        let st = self.state.read(txid);
        let all = BTreeRange::all();
        let rows = tree_listing(&st.primary, &all, self.order, Ghost(self.width()));
        proof {
            assert(live_keys(st.primary).filter(|x: KeyView| all@.contains(x)) =~= self.rows_at(*txid));
        }
        rows
    }

    /// The number of rows that `txid` sees.
    pub fn count(&self, txid: &TransactionId) -> (r: u64)
        requires
            self.wf(),
        ensures
            r as int == self.rows_at(*txid).len(),
            self.rows_at(*txid).finite(),
    {
        let rows = self.stream(txid);
        proof {
            lemma_listing_len(keys_view(rows@), self.rows_at(*txid));
        }
        rows.len() as u64
    }

    /// Whether `txid` sees no row.
    pub fn is_empty(&self, txid: &TransactionId) -> (r: bool)
        requires
            self.wf(),
        ensures
            r == (self.rows_at(*txid).len() == 0),
    {
        self.count(txid) == 0
    }

    /// Publishes the writes of `txid`.
    pub fn commit(&mut self, txid: &TransactionId)
        requires
            old(self).wf(),
        ensures
            final(self).wf(),
            final(self).same_layout(old(self)),
            final(self).state == old(self).state.committed(*txid),
    {
        self.state.commit(txid);
    }

    /// Discards the writes of `txid`.
    pub fn rollback(&mut self, txid: &TransactionId)
        requires
            old(self).wf(),
        ensures
            final(self).wf(),
            final(self).same_layout(old(self)),
            final(self).state == old(self).state.rolled_back(*txid),
    {
        self.state.rollback(txid);
    }

    /// Releases what transactions at or before `txid` hold.
    pub fn finalize(&mut self, txid: &TransactionId)
        requires
            old(self).wf(),
        ensures
            final(self).wf(),
            final(self).same_layout(old(self)),
            final(self).state == old(self).state.finalized(*txid),
    {
        self.state.finalize(txid);
    }
}

impl TableIndex {
    proof fn lemma_remove_row(&self, st: TableState, st2: TableState, row: KeyView)
        requires
            self.layout_ok(),
            self.state_ok(st),
            has(st.primary, row, true),
            wf_tree(st2.primary, self.order as int),
            st2.auxiliary@.len() == st.auxiliary@.len(),
            forall|x: KeyView, f: bool|
                #[trigger] has(st2.primary, x, f) <==> (has(st.primary, x, f) && (!f || x != row)),
            forall|i: int|
                0 <= i < self.auxiliary@.len() ==> wf_tree(
                    #[trigger] st2.auxiliary@[i],
                    self.auxiliary@[i].order as int,
                ),
            forall|i: int, x: KeyView, f: bool|
                0 <= i < self.auxiliary@.len() ==> (#[trigger] has(st2.auxiliary@[i], x, f) <==> (has(
                    st.auxiliary@[i],
                    x,
                    f,
                ) && (!f || x != project(row, self.auxiliary@[i].columns@)))),
        ensures
            self.state_ok(st2),
            live_keys(st2.primary) == live_keys(st.primary).remove(row),
    {
        let kl = self.key_len();
        lemma_live_stored(st.primary, row);
        assert(live_keys(st2.primary) =~= live_keys(st.primary).remove(row));
        assert forall|x: KeyView| #[trigger] has(st2.primary, x, false) implies x.len() == self.width() by {
            assert(has(st.primary, x, false));
        }
        assert forall|x: KeyView, y: KeyView|
            #[trigger] has(st2.primary, x, true) && #[trigger] has(st2.primary, y, true)
                && x.subrange(0, kl) == y.subrange(0, kl) implies x == y by {
            assert(has(st.primary, x, true) && has(st.primary, y, true));
        }
        assert forall|i: int| 0 <= i < self.auxiliary@.len() implies {
            let a = #[trigger] self.auxiliary@[i];
            &&& wf_tree(st2.auxiliary@[i], a.order as int)
            &&& widths_are(st2.auxiliary@[i], a.columns@.len() as int)
            &&& live_keys(st2.auxiliary@[i]) == live_keys(st2.primary).map(
                |x: KeyView| project(x, a.columns@),
            )
        } by {
            let a = self.auxiliary@[i];
            let pr = |x: KeyView| project(x, a.columns@);
            assert(live_keys(st.auxiliary@[i]) == live_keys(st.primary).map(pr));
            assert forall|x: KeyView| #[trigger] has(st2.auxiliary@[i], x, false) implies x.len() == a.columns@.len() by {
                assert(has(st.auxiliary@[i], x, false));
            }
            assert forall|z: KeyView| live_keys(st2.auxiliary@[i]).contains(z) <==> live_keys(st2.primary).map(pr).contains(z) by {
                if has(st2.auxiliary@[i], z, true) {
                    assert(has(st.auxiliary@[i], z, true));
                    assert(live_keys(st.auxiliary@[i]).contains(z));
                    assert(live_keys(st.primary).map(pr).contains(z));
                    let x = choose|x: KeyView| live_keys(st.primary).contains(x) && pr(x) == z;
                    assert(z != project(row, a.columns@));
                    assert(x != row);
                    assert(has(st2.primary, x, true));
                    assert(live_keys(st2.primary).contains(x) && pr(x) == z);
                }
                if live_keys(st2.primary).map(pr).contains(z) {
                    let x = choose|x: KeyView| live_keys(st2.primary).contains(x) && pr(x) == z;
                    assert(z == project(x, a.columns@));
                    assert(has(st.primary, x, true));
                    assert(live_keys(st.primary).contains(x));
                    assert(live_keys(st.primary).map(pr).contains(z));
                    assert(live_keys(st.auxiliary@[i]).contains(z));
                    if z == project(row, a.columns@) {
                        lemma_live_stored(st.primary, x);
                        self.lemma_projection_keys(i, x, row);
                        assert(x == row);
                    }
                    assert(has(st2.auxiliary@[i], z, true));
                }
            }
            assert(live_keys(st2.auxiliary@[i]) =~= live_keys(st2.primary).map(pr));
        }
    }

    /// `st` with the live row `row` removed from every tree.
    fn removed_state(&self, st: &TableState, row: &Key) -> (r: TableState)
        requires
            self.layout_ok(),
            self.state_ok(*st),
            has(st.primary, values_view(row@), true),
        ensures
            self.state_ok(r),
            live_keys(r.primary) == live_keys(st.primary).remove(values_view(row@)),
    {
        let ghost rv = values_view(row@);
        proof {
            lemma_live_stored(st.primary, rv);
        }
        let range = BTreeRange::from_key(row);
        let primary = tree_tombstone(&st.primary, &range, self.order);
        proof {
            assert forall|x: KeyView, f: bool| #[trigger] has(primary, x, f) <==> (has(st.primary, x, f) && (!f || x != rv)) by {
                if has(st.primary, x, f) {
                    if f {
                        lemma_live_stored(st.primary, x);
                    }
                    lemma_point_prefix(rv, x);
                }
            }
        }
        let mut auxiliary: Vec<Node> = Vec::new();
        let mut i: usize = 0;
        while i < self.auxiliary.len()
            invariant
                self.layout_ok(),
                self.state_ok(*st),
                rv == values_view(row@),
                row@.len() == self.width(),
                i <= self.auxiliary@.len(),
                auxiliary@.len() == i,
                forall|t: int|
                    0 <= t < i ==> wf_tree(#[trigger] auxiliary@[t], self.auxiliary@[t].order as int),
                forall|t: int, x: KeyView, f: bool|
                    0 <= t < i ==> (#[trigger] has(auxiliary@[t], x, f) <==> (has(
                        st.auxiliary@[t],
                        x,
                        f,
                    ) && (!f || x != project(rv, self.auxiliary@[t].columns@)))),
            decreases self.auxiliary@.len() - i,
        {
            let a = &self.auxiliary[i];
            let ghost ii = i as int;
            assert(self.auxiliary@[ii] == *a);
            let ghost cols = a.columns@;
            assert(wf_tree(st.auxiliary@[ii], a.order as int));
            let pr = project_row(row, &a.columns);
            let prange = BTreeRange::from_key(&pr);
            let t = tree_tombstone(&st.auxiliary[i], &prange, a.order);
            proof {
                assert forall|x: KeyView, f: bool| #[trigger] has(t, x, f) <==> (has(st.auxiliary@[ii], x, f) && (!f || x != project(rv, cols))) by {
                    if has(st.auxiliary@[ii], x, f) {
                        if f {
                            lemma_live_stored(st.auxiliary@[ii], x);
                        }
                        assert(widths_are(st.auxiliary@[ii], cols.len() as int));
                        lemma_point_prefix(project(rv, cols), x);
                    }
                }
            }
            auxiliary.push(t);
            i = i + 1;
        }
        let r = TableState { primary, auxiliary };
        proof {
            self.lemma_remove_row(*st, r, rv);
        }
        r
    }

    /// Removes `row` at `txid`, from the primary tree and every auxiliary one.
    pub fn delete_row(&mut self, txid: &TransactionId, row: &Vec<Value>) -> (r: TCResult<()>)
        requires
            old(self).wf(),
        ensures
            final(self).wf(),
            final(self).same_layout(old(self)),
            final(self).state.canonical == old(self).state.canonical,
            r is Err <==> (!key_fits(old(self).columns@, row@) || old(self).state.held_by_other(*txid)),
            !key_fits(old(self).columns@, row@) ==> r is Err && r->Err_0.kind == ErrorKind::BadRequest,
            key_fits(old(self).columns@, row@) && old(self).state.held_by_other(*txid) ==> r is Err
                && r->Err_0.kind == ErrorKind::Conflict,
            r is Err && r->Err_0.kind != ErrorKind::BadRequest ==> r->Err_0.kind == ErrorKind::Conflict,
            r is Err ==> final(self).state == old(self).state,
            r is Ok ==> final(self).rows_at(*txid) == old(self).rows_at(*txid).remove(values_view(row@)),
            r is Ok ==> forall|t: TransactionId|
                t != *txid ==> final(self).rows_at(t) == old(self).rows_at(t),
    {
        match validate_key(&self.columns, row) {
            Ok(_) => {},
            Err(e) => {
                return Err(e);
            },
        }
        if self.state.is_held_by_other(txid) {
            return Err(TCError::conflict("another transaction holds a pending write"));
        }
        let st = self.state.read(txid);
        if !tree_contains(&st.primary, row, self.order) {
            proof {
                assert(self.rows_at(*txid).remove(values_view(row@)) =~= self.rows_at(*txid));
            }
            return Ok(());
        }
        let st2 = self.removed_state(st, row);
        self.state.write(txid, st2)
    }
}

/// The declaration of an auxiliary index: its name and the names of the
/// columns its key begins with.
#[derive(Debug)]
pub struct IndexSchema {
    pub name: String,
    pub columns: Vec<String>,
}

/// The schema of a table: key columns, value columns, auxiliary indexes.
#[derive(Debug)]
pub struct TableSchema {
    pub key: Vec<Column>,
    pub values: Vec<Column>,
    pub indices: Vec<IndexSchema>,
}

/// The name that no auxiliary index may take.
pub open spec fn reserved_name() -> Seq<char> {
    seq!['p', 'r', 'i', 'm', 'a', 'r', 'y']
}

/// Whether a column of `cols` has the name `name`.
pub open spec fn has_column(cols: Seq<Column>, name: Seq<char>) -> bool {
    exists|i: int| 0 <= i < cols.len() && (#[trigger] cols[i]).name@ == name
}

/// Whether column names repeat.
pub open spec fn names_distinct(names: Seq<String>) -> bool {
    forall|i: int, j: int| 0 <= i < j < names.len() ==> (#[trigger] names[i])@ != (#[trigger] names[j])@
}

/// Whether an auxiliary declaration is valid against the table's columns.
pub open spec fn index_decl_ok(cols: Seq<Column>, d: IndexSchema) -> bool {
    &&& d.name@ != reserved_name()
    &&& names_distinct(d.columns@)
    &&& forall|j: int| 0 <= j < d.columns@.len() ==> has_column(cols, (#[trigger] d.columns@[j])@)
}

/// The error an auxiliary declaration is refused with, if any: a reserved
/// name or a repeated column is a bad request, an unknown column is not found.
pub open spec fn decl_error(cols: Seq<Column>, d: IndexSchema) -> Option<ErrorKind> {
    if d.name@ == reserved_name() || !names_distinct(d.columns@) {
        Some(ErrorKind::BadRequest)
    } else if !(forall|j: int| 0 <= j < d.columns@.len() ==> has_column(cols, (#[trigger] d.columns@[j])@)) {
        Some(ErrorKind::NotFound)
    } else {
        None
    }
}

/// The error of the first refused declaration from `i` on, if any.
pub open spec fn first_decl_error(cols: Seq<Column>, ds: Seq<IndexSchema>, i: int) -> Option<ErrorKind>
    decreases ds.len() - i,
{
    if i < 0 || i >= ds.len() {
        None
    } else if decl_error(cols, ds[i]) is Some {
        decl_error(cols, ds[i])
    } else {
        first_decl_error(cols, ds, i + 1)
    }
}

/// The columns of a table: the key's, then the values'.
pub open spec fn table_columns(s: TableSchema) -> Seq<Column> {
    s.key@ + s.values@
}

pub open spec fn table_schema_ok(s: TableSchema) -> bool {
    &&& schema_ok(table_columns(s))
    &&& forall|i: int| 0 <= i < s.indices@.len() ==> index_decl_ok(table_columns(s), #[trigger] s.indices@[i])
}

/// The position of the first column named `name`.
pub(crate) fn position_of(cols: &Vec<Column>, name: &String) -> (r: Option<usize>)
    ensures
        r is Some <==> has_column(cols@, name@),
        r is Some ==> r->Some_0 < cols@.len() && cols@[r->Some_0 as int].name@ == name@,
        r is Some ==> forall|q: int| 0 <= q < r->Some_0 ==> (#[trigger] cols@[q]).name@ != name@,
{
    let mut i: usize = 0;
    while i < cols.len()
        invariant
            i <= cols@.len(),
            forall|j: int| 0 <= j < i ==> (#[trigger] cols@[j]).name@ != name@,
        decreases cols@.len() - i,
    {
        if cols[i].name == *name {
            return Some(i);
        }
        i = i + 1;
    }
    None
}

fn copy_columns(cols: &Vec<Column>) -> (r: Vec<Column>)
    ensures
        r@ == cols@,
{
    let mut r: Vec<Column> = Vec::new();
    let mut i: usize = 0;
    while i < cols.len()
        invariant
            i <= cols@.len(),
            r@ == cols@.subrange(0, i as int),
        decreases cols@.len() - i,
    {
        r.push(cols[i].copy());
        proof {
            assert(r@ =~= cols@.subrange(0, i + 1));
        }
        i = i + 1;
    }
    proof {
        assert(r@ =~= cols@);
    }
    r
}

/// The columns of `cols` at positions `p`.
fn columns_at(cols: &Vec<Column>, p: &Vec<usize>) -> (r: Vec<Column>)
    requires
        forall|j: int| 0 <= j < p@.len() ==> p@[j] < cols@.len(),
    ensures
        r@.len() == p@.len(),
        forall|j: int| 0 <= j < p@.len() ==> #[trigger] r@[j] == cols@[p@[j] as int],
{
    let mut r: Vec<Column> = Vec::new();
    let mut j: usize = 0;
    while j < p.len()
        invariant
            forall|t: int| 0 <= t < p@.len() ==> p@[t] < cols@.len(),
            j <= p@.len(),
            r@.len() == j,
            forall|t: int| 0 <= t < j ==> #[trigger] r@[t] == cols@[p@[t] as int],
        decreases p@.len() - j,
    {
        r.push(cols[p[j]].copy());
        j = j + 1;
    }
    r
}

/// Checks an auxiliary declaration; on success, the positions of its key:
/// the named columns, then the key columns it does not name.
fn index_positions(cols: &Vec<Column>, key_len: usize, d: &IndexSchema) -> (r: TCResult<Vec<usize>>)
    requires
        key_len <= cols@.len(),
    ensures
        r is Ok <==> index_decl_ok(cols@, *d),
        r is Err ==> Some(r->Err_0.kind) == decl_error(cols@, *d),
        r is Ok ==> ({
            let p = r->Ok_0@;
            &&& p.len() >= d.columns@.len()
            &&& forall|j: int| d.columns@.len() <= j < p.len() ==> #[trigger] p[j] < key_len
            &&& forall|j: int| 0 <= j < p.len() ==> p[j] < cols@.len()
            &&& forall|q: int| 0 <= q < key_len ==> #[trigger] covers(p, q)
            &&& forall|j: int|
                0 <= j < d.columns@.len() ==> cols@[p[j] as int].name@ == (#[trigger] d.columns@[j])@
        }),
{
    let reserved = "primary".to_string();
    proof {
        reveal_strlit("primary");
        assert(reserved@ =~= reserved_name());
    }
    if d.name == reserved {
        return Err(TCError::bad_request("the index name is reserved"));
    }
    let mut i: usize = 0;
    while i < d.columns.len()
        invariant
            d.name@ != reserved_name(),
            i <= d.columns@.len(),
            forall|a: int, b: int| 0 <= a < b < d.columns@.len() && a < i ==> (#[trigger] d.columns@[a])@ != (#[trigger] d.columns@[b])@,
        decreases d.columns@.len() - i,
    {
        let mut j: usize = i + 1;
        while j < d.columns.len()
            invariant
                d.name@ != reserved_name(),
                i < d.columns@.len(),
                i + 1 <= j <= d.columns@.len(),
                forall|a: int, b: int| 0 <= a < b < d.columns@.len() && a < i ==> (#[trigger] d.columns@[a])@ != (#[trigger] d.columns@[b])@,
                forall|b: int| i < b < j ==> d.columns@[i as int]@ != (#[trigger] d.columns@[b])@,
            decreases d.columns@.len() - j,
        {
            if d.columns[i] == d.columns[j] {
                return Err(TCError::bad_request("a column repeats in the index"));
            }
            j = j + 1;
        }
        i = i + 1;
    }
    let mut p: Vec<usize> = Vec::new();
    let mut k: usize = 0;
    while k < d.columns.len()
        invariant
            d.name@ != reserved_name(),
            names_distinct(d.columns@),
            k <= d.columns@.len(),
            p@.len() == k,
            forall|j: int| 0 <= j < k ==> p@[j] < cols@.len(),
            forall|j: int| 0 <= j < k ==> has_column(cols@, (#[trigger] d.columns@[j])@),
            forall|j: int| 0 <= j < k ==> cols@[p@[j] as int].name@ == (#[trigger] d.columns@[j])@,
        decreases d.columns@.len() - k,
    {
        match position_of(cols, &d.columns[k]) {
            Some(pos) => p.push(pos),
            None => {
                return Err(TCError::not_found("no such column"));
            },
        }
        k = k + 1;
    }
    let named = p.len();
    let mut q: usize = 0;
    while q < key_len
        invariant
            key_len <= cols@.len(),
            named == d.columns@.len(),
            q <= key_len,
            p@.len() >= named,
            forall|j: int| 0 <= j < p@.len() ==> p@[j] < cols@.len(),
            forall|j: int| 0 <= j < named ==> cols@[p@[j] as int].name@ == (#[trigger] d.columns@[j])@,
            forall|j: int| named <= j < p@.len() ==> #[trigger] p@[j] < key_len,
            forall|t: int| 0 <= t < q ==> #[trigger] covers(p@, t),
        decreases key_len - q,
    {
        let mut found = false;
        let mut t: usize = 0;
        while t < p.len()
            invariant
                t <= p@.len(),
                found == exists|u: int| 0 <= u < t && p@[u] == q,
            decreases p@.len() - t,
        {
            if p[t] == q {
                found = true;
            }
            t = t + 1;
        }
        if !found {
            let ghost before = p@;
            p.push(q);
            proof {
                assert forall|t2: int| 0 <= t2 < q implies #[trigger] covers(p@, t2) by {
                    assert(covers(before, t2));
                    let u = choose|u: int| 0 <= u < before.len() && before[u] == t2;
                    assert(p@[u] == t2);
                }
                assert(p@[before.len() as int] == q);
            }
        }
        assert(covers(p@, q as int));
        q = q + 1;
    }
    Ok(p)
}

impl TableIndex {
    /// An empty table over `schema`.
    pub fn create(schema: &TableSchema) -> (r: TCResult<TableIndex>)
        ensures
            r is Ok <==> table_schema_ok(*schema),
            !schema_ok(table_columns(*schema)) ==> r is Err && r->Err_0.kind == ErrorKind::BadRequest,
            schema_ok(table_columns(*schema)) && r is Err ==> Some(r->Err_0.kind) == first_decl_error(
                table_columns(*schema),
                schema.indices@,
                0,
            ),
            r is Ok ==> forall|i: int|
                0 <= i < r->Ok_0.auxiliary@.len() ==> {
                    let a = #[trigger] r->Ok_0.auxiliary@[i];
                    let d = schema.indices@[i];
                    &&& a.columns@.len() >= d.columns@.len()
                    &&& forall|j: int|
                        0 <= j < d.columns@.len() ==> table_columns(*schema)[a.columns@[j] as int].name@
                            == (#[trigger] d.columns@[j])@
                    &&& forall|j: int| d.columns@.len() <= j < a.columns@.len() ==> #[trigger] a.columns@[j] < schema.key@.len()
                    &&& forall|q: int| 0 <= q < schema.key@.len() ==> #[trigger] covers(a.columns@, q)
                },
            r is Ok ==> ({
                let t = r->Ok_0;
                &&& t.wf()
                &&& t.key@ == schema.key@
                &&& t.values@ == schema.values@
                &&& t.auxiliary@.len() == schema.indices@.len()
                &&& forall|i: int|
                    0 <= i < t.auxiliary@.len() ==> (#[trigger] t.auxiliary@[i]).name@
                        == schema.indices@[i].name@
                &&& forall|txid: TransactionId| t.rows_at(txid) == Set::<KeyView>::empty()
            }),
    {
        let key = copy_columns(&schema.key);
        let values = copy_columns(&schema.values);
        let mut columns = copy_columns(&schema.key);
        let mut vc = copy_columns(&schema.values);
        columns.append(&mut vc);
        assert(columns@ == table_columns(*schema));
        let order = match derive_order(&columns) {
            Ok(m) => m,
            Err(e) => {
                return Err(e);
            },
        };
        let mut auxiliary: Vec<Auxiliary> = Vec::new();
        let mut trees: Vec<Node> = Vec::new();
        let mut i: usize = 0;
        while i < schema.indices.len()
            invariant
                columns@ == table_columns(*schema),
                key@ == schema.key@,
                schema_ok(columns@),
                i <= schema.indices@.len(),
                auxiliary@.len() == i,
                trees@.len() == i,
                forall|j: int| 0 <= j < i ==> index_decl_ok(table_columns(*schema), #[trigger] schema.indices@[j]),
                first_decl_error(table_columns(*schema), schema.indices@, 0) == first_decl_error(table_columns(*schema), schema.indices@, i as int),
                forall|j: int|
                    0 <= j < i ==> {
                        let a = #[trigger] auxiliary@[j];
                        let d = schema.indices@[j];
                        &&& a.columns@.len() >= d.columns@.len()
                        &&& forall|c: int|
                            0 <= c < d.columns@.len() ==> table_columns(*schema)[a.columns@[c] as int].name@
                                == (#[trigger] d.columns@[c])@
                        &&& forall|c: int| d.columns@.len() <= c < a.columns@.len() ==> #[trigger] a.columns@[c] < key@.len()
                        &&& a.order >= 2
                        &&& a.name@ == schema.indices@[j].name@
                        &&& forall|c: int| 0 <= c < a.columns@.len() ==> a.columns@[c] < columns@.len()
                        &&& forall|q: int| 0 <= q < key@.len() ==> #[trigger] covers(a.columns@, q)
                        &&& wf_tree(trees@[j], a.order as int)
                        &&& forall|x: KeyView, f: bool| has(trees@[j], x, f) == false
                    },
            decreases schema.indices@.len() - i,
        {
            let d = &schema.indices[i];
            let cols = match index_positions(&columns, key.len(), d) {
                Ok(c) => c,
                Err(e) => {
                    return Err(e);
                },
            };
            let acols = columns_at(&columns, &cols);
            proof {
                assert forall|j: int| 0 <= j < acols@.len() implies (#[trigger] column_bytes(acols@[j])).is_some() by {
                    assert(acols@[j] == columns@[cols@[j] as int]);
                }
            }
            let aorder = match derive_order(&acols) {
                Ok(m) => m,
                Err(e) => {
                    return Err(e);
                },
            };
            let tree = tree_empty(aorder);
            auxiliary.push(Auxiliary { name: d.name.clone(), columns: cols, order: aorder });
            trees.push(tree);
            i = i + 1;
        }
        let primary = tree_empty(order);
        let t = TableIndex {
            key,
            values,
            columns,
            order,
            auxiliary,
            state: TxnLock::new(TableState { primary, auxiliary: trees }),
        };
        proof {
            let st = t.state.canonical;
            assert(live_keys(primary) =~= Set::<KeyView>::empty());
            assert forall|i: int| 0 <= i < t.auxiliary@.len() implies live_keys(#[trigger] st.auxiliary@[i]) == live_keys(st.primary).map(
                |x: KeyView| project(x, t.auxiliary@[i].columns@),
            ) by {
                assert(t.auxiliary@[i].order >= 2);
                assert forall|x: KeyView| !live_keys(st.auxiliary@[i]).contains(x) by {
                    assert(has(st.auxiliary@[i], x, true) == false);
                }
                assert(live_keys(st.auxiliary@[i]) =~= Set::<KeyView>::empty());
                assert(live_keys(st.primary).map(|x: KeyView| project(x, t.auxiliary@[i].columns@)) =~= Set::<KeyView>::empty());
            }
            assert forall|i: int| 0 <= i < t.key@.len() implies t.columns@[i] == t.key@[i] by {}
            assert forall|i: int| 0 <= i < t.values@.len() implies t.columns@[t.key@.len() + i] == t.values@[i] by {}
            assert forall|txid: TransactionId| t.rows_at(txid) == Set::<KeyView>::empty() by {}
        }
        Ok(t)
    }
}

/// In a consistent table, every row a transaction sees has its projection
/// in each auxiliary index, no other row shares that projection, and every
/// key of the auxiliary index is the projection of some row.
pub proof fn lemma_auxiliary_mirrors(t: TableIndex, txid: TransactionId, i: int, x: KeyView)
    requires
        t.wf(),
        0 <= i < t.auxiliary@.len(),
    ensures
        t.rows_at(txid).contains(x) ==> t.index_at(txid, i).contains(project(x, t.auxiliary@[i].columns@)),
        forall|y: KeyView|
            t.rows_at(txid).contains(x) && t.rows_at(txid).contains(y) && project(y, t.auxiliary@[i].columns@)
                == project(x, t.auxiliary@[i].columns@) ==> y == x,
        forall|z: KeyView|
            t.index_at(txid, i).contains(z) ==> exists|y: KeyView|
                t.rows_at(txid).contains(y) && project(y, t.auxiliary@[i].columns@) == z,
{
    let st = t.state.visible(txid);
    assert(t.state_ok(st));
    let cols = t.auxiliary@[i].columns@;
    assert(live_keys(st.auxiliary@[i]) == live_keys(st.primary).map(|y: KeyView| project(y, cols)));
    if t.rows_at(txid).contains(x) {
        assert(live_keys(st.primary).contains(x));
        assert(live_keys(st.primary).map(|y: KeyView| project(y, cols)).contains(project(x, cols)));
    }
    assert forall|y: KeyView|
        t.rows_at(txid).contains(x) && t.rows_at(txid).contains(y) && project(y, cols) == project(x, cols) implies y == x by {
        lemma_live_stored(st.primary, x);
        lemma_live_stored(st.primary, y);
        t.lemma_projection_keys(i, y, x);
        assert(has(st.primary, x, true) && has(st.primary, y, true));
    }
}

/// Two upserts under one key leave exactly the second row under that key.
pub proof fn lemma_upsert_twice(
    t0: TableIndex,
    t1: TableIndex,
    t2: TableIndex,
    txid: TransactionId,
    k: KeyView,
    v1: KeyView,
    v2: KeyView,
)
    requires
        k.len() == t0.key_len(),
        t1.key_len() == t0.key_len(),
        t2.key_len() == t0.key_len(),
        t1.rows_at(txid) == t0.rows_at(txid).filter(|x: KeyView| x.subrange(0, t0.key_len()) != k).insert(k + v1),
        t2.rows_at(txid) == t1.rows_at(txid).filter(|x: KeyView| x.subrange(0, t1.key_len()) != k).insert(k + v2),
    ensures
        t2.rows_with_key(txid, k) == set![k + v2],
{
    assert((k + v2).subrange(0, k.len() as int) =~= k);
    assert(t2.rows_with_key(txid, k) =~= set![k + v2]);
}

/// `x` with each update applied in turn: the value at the update's position
/// replaced by the update's value.
pub open spec fn merged(x: KeyView, upd: Seq<(usize, crate::value::ValueView)>) -> KeyView
    decreases upd.len(),
{
    if upd.len() == 0 {
        x
    } else {
        merged(x, upd.drop_last()).update(upd.last().0 as int, upd.last().1)
    }
}

pub open spec fn updates_view(upd: Seq<(usize, Value)>) -> Seq<(usize, crate::value::ValueView)> {
    upd.map_values(|u: (usize, Value)| (u.0, u.1@))
}

proof fn lemma_merged_keeps_key(x: KeyView, upd: Seq<(usize, crate::value::ValueView)>, kl: int)
    requires
        0 <= kl <= x.len(),
        forall|j: int| 0 <= j < upd.len() ==> kl <= (#[trigger] upd[j]).0 < x.len(),
    ensures
        merged(x, upd).len() == x.len(),
        merged(x, upd).subrange(0, kl) == x.subrange(0, kl),
    decreases upd.len(),
{
    if upd.len() > 0 {
        assert forall|j: int| 0 <= j < upd.drop_last().len() implies kl <= (#[trigger] upd.drop_last()[j]).0 < x.len() by {
            assert(upd.drop_last()[j] == upd[j]);
        }
        lemma_merged_keeps_key(x, upd.drop_last(), kl);
        assert(merged(x, upd).subrange(0, kl) =~= merged(x, upd.drop_last()).subrange(0, kl));
    }
}

/// `row` with the updates applied.
fn apply_updates(row: &Vec<Value>, upd: &Vec<(usize, Value)>) -> (r: Vec<Value>)
    requires
        forall|j: int| 0 <= j < upd@.len() ==> (#[trigger] upd@[j]).0 < row@.len(),
    ensures
        values_view(r@) == merged(values_view(row@), updates_view(upd@)),
        r@.len() == row@.len(),
{
    let mut r = copy_values(row);
    let mut j: usize = 0;
    while j < upd.len()
        invariant
            forall|t: int| 0 <= t < upd@.len() ==> (#[trigger] upd@[t]).0 < row@.len(),
            j <= upd@.len(),
            r@.len() == row@.len(),
            values_view(r@) == merged(values_view(row@), updates_view(upd@.subrange(0, j as int))),
        decreases upd@.len() - j,
    {
        let ghost before = r@;
        let p = upd[j].0;
        r.set(p, upd[j].1.copy());
        proof {
            assert(updates_view(upd@.subrange(0, j + 1)).drop_last() =~= updates_view(upd@.subrange(0, j as int)));
            assert(values_view(r@) =~= values_view(before).update(p as int, upd@[j as int].1@));
        }
        j = j + 1;
    }
    proof {
        assert(upd@.subrange(0, upd@.len() as int) =~= upd@);
    }
    r
}

impl TableIndex {
    /// Whether every update names a column that is not part of the primary
    /// key and holds a value that fits it.
    pub open spec fn updates_ok(&self, upd: Seq<(String, Value)>) -> bool {
        forall|j: int| 0 <= j < upd.len() ==> self.update_ok(#[trigger] upd[j])
    }

    /// Whether the first column named by the update is not part of the
    /// primary key, and the update's value fits it.
    pub open spec fn update_ok(&self, u: (String, Value)) -> bool {
        exists|p: int|
            self.key_len() <= p < self.width() && #[trigger] self.columns@[p].name@ == u.0@
                && (forall|q: int| 0 <= q < p ==> (#[trigger] self.columns@[q]).name@ != u.0@)
                && crate::schema::value_fits(self.columns@[p].dtype, self.columns@[p].max_len, u.1)
    }

    /// Resolves updates given by column name into updates by position.
    fn resolve_updates(&self, upd: &Vec<(String, Value)>) -> (r: TCResult<Vec<(usize, Value)>>)
        requires
            self.layout_ok(),
        ensures
            r is Err ==> r->Err_0.kind == ErrorKind::BadRequest,
            r is Ok <==> self.updates_ok(upd@),
            r is Ok ==> r->Ok_0@.len() == upd@.len(),
            r is Ok ==> forall|j: int|
                0 <= j < r->Ok_0@.len() ==> self.key_len() <= (#[trigger] r->Ok_0@[j]).0 < self.width()
                    && self.columns@[r->Ok_0@[j].0 as int].name@ == upd@[j].0@ && r->Ok_0@[j].1 == upd@[j].1
                    && (forall|q: int| 0 <= q < r->Ok_0@[j].0 ==> (#[trigger] self.columns@[q]).name@ != upd@[j].0@)
                    && crate::schema::value_fits(self.columns@[r->Ok_0@[j].0 as int].dtype, self.columns@[r->Ok_0@[j].0 as int].max_len, upd@[j].1),
    {
        let mut out: Vec<(usize, Value)> = Vec::new();
        let mut j: usize = 0;
        while j < upd.len()
            invariant
                self.layout_ok(),
                j <= upd@.len(),
                out@.len() == j,
                forall|t: int| 0 <= t < j ==> self.update_ok(#[trigger] upd@[t]),
                forall|t: int|
                    0 <= t < j ==> self.key_len() <= (#[trigger] out@[t]).0 < self.width()
                        && self.columns@[out@[t].0 as int].name@ == upd@[t].0@ && out@[t].1 == upd@[t].1
                        && (forall|q: int| 0 <= q < out@[t].0 ==> (#[trigger] self.columns@[q]).name@ != upd@[t].0@)
                        && crate::schema::value_fits(self.columns@[out@[t].0 as int].dtype, self.columns@[out@[t].0 as int].max_len, upd@[t].1),
            decreases upd@.len() - j,
        {
            let p = match position_of(&self.columns, &upd[j].0) {
                Some(p) => p,
                None => {
                    proof {
                        if self.update_ok(upd@[j as int]) {
                            let q = choose|q: int| self.key_len() <= q < self.width() && #[trigger] self.columns@[q].name@ == upd@[j as int].0@
                                && (forall|q2: int| 0 <= q2 < q ==> (#[trigger] self.columns@[q2]).name@ != upd@[j as int].0@)
                                && crate::schema::value_fits(self.columns@[q].dtype, self.columns@[q].max_len, upd@[j as int].1);
                            assert(has_column(self.columns@, upd@[j as int].0@));
                        }
                    }
                    return Err(TCError::bad_request("no such column"));
                },
            };
            proof {
                if self.update_ok(upd@[j as int]) {
                    let q = choose|q: int| self.key_len() <= q < self.width() && #[trigger] self.columns@[q].name@ == upd@[j as int].0@
                        && (forall|q2: int| 0 <= q2 < q ==> (#[trigger] self.columns@[q2]).name@ != upd@[j as int].0@)
                        && crate::schema::value_fits(self.columns@[q].dtype, self.columns@[q].max_len, upd@[j as int].1);
                    assert(q == p as int);
                }
            }
            if p < self.key.len() {
                return Err(TCError::bad_request("a primary key column cannot be updated"));
            }
            if !self.columns[p].accepts(&upd[j].1) {
                return Err(TCError::bad_request("the value does not fit its column"));
            }
            proof {
                assert(self.columns@[p as int].name@ == upd@[j as int].0@);
                assert(self.update_ok(upd@[j as int]));
            }
            out.push((p, upd[j].1.copy()));
            j = j + 1;
        }
        Ok(out)
    }
}

/// The position of the first column named `name`.
#[verifier::opaque]
pub open spec fn first_named(cols: Seq<Column>, name: Seq<char>) -> int {
    choose|p: int|
        0 <= p < cols.len() && (#[trigger] cols[p]).name@ == name && forall|q: int|
            0 <= q < p ==> (#[trigger] cols[q]).name@ != name
}

impl TableIndex {
    /// The updates by position: each at the first column of its name.
    pub open spec fn resolved(&self, upd: Seq<(String, Value)>) -> Seq<(usize, crate::value::ValueView)> {
        Seq::new(upd.len(), |j: int| (first_named(self.columns@, upd[j].0@) as usize, upd[j].1@))
    }

    /// A copy of `st`.
    fn copied_state(&self, st: &TableState) -> (r: TableState)
        requires
            self.layout_ok(),
            self.state_ok(*st),
        ensures
            self.state_ok(r),
            live_keys(r.primary) == live_keys(st.primary),
    {
        let primary = tree_copy(&st.primary, self.order);
        let mut auxiliary: Vec<Node> = Vec::new();
        let mut i: usize = 0;
        while i < self.auxiliary.len()
            invariant
                self.layout_ok(),
                self.state_ok(*st),
                i <= self.auxiliary@.len(),
                auxiliary@.len() == i,
                forall|t: int|
                    0 <= t < i ==> wf_tree(#[trigger] auxiliary@[t], self.auxiliary@[t].order as int)
                        && forall|x: KeyView, f: bool| has(auxiliary@[t], x, f) == has(st.auxiliary@[t], x, f),
            decreases self.auxiliary@.len() - i,
        {
            assert(wf_tree(st.auxiliary@[i as int], self.auxiliary@[i as int].order as int));
            auxiliary.push(tree_copy(&st.auxiliary[i], self.auxiliary[i].order));
            i = i + 1;
        }
        let r = TableState { primary, auxiliary };
        proof {
            assert(live_keys(r.primary) =~= live_keys(st.primary));
            assert forall|i: int| 0 <= i < self.auxiliary@.len() implies live_keys(#[trigger] r.auxiliary@[i]) == live_keys(st.auxiliary@[i]) by {
                assert(live_keys(r.auxiliary@[i]) =~= live_keys(st.auxiliary@[i]));
            }
            assert forall|i: int| 0 <= i < self.auxiliary@.len() implies widths_are(#[trigger] r.auxiliary@[i], self.auxiliary@[i].columns@.len() as int) by {
                assert(widths_are(st.auxiliary@[i], self.auxiliary@[i].columns@.len() as int));
            }
        }
        r
    }

    /// Sets, in every row that `txid` sees, each named column to its new
    /// value. Primary key columns cannot be updated.
    pub fn update(&mut self, txid: &TransactionId, updates: &Vec<(String, Value)>) -> (r: TCResult<()>)
        requires
            old(self).wf(),
        ensures
            final(self).wf(),
            final(self).same_layout(old(self)),
            final(self).state.canonical == old(self).state.canonical,
            r is Err <==> (!old(self).updates_ok(updates@) || old(self).state.held_by_other(*txid)),
            !old(self).updates_ok(updates@) ==> r is Err && r->Err_0.kind == ErrorKind::BadRequest,
            old(self).updates_ok(updates@) && old(self).state.held_by_other(*txid) ==> r is Err
                && r->Err_0.kind == ErrorKind::Conflict,
            r is Err && r->Err_0.kind != ErrorKind::BadRequest ==> r->Err_0.kind == ErrorKind::Conflict,
            r is Err ==> final(self).state == old(self).state,
            r is Ok ==> final(self).rows_at(*txid) == old(self).rows_at(*txid).map(
                |x: KeyView| merged(x, old(self).resolved(updates@)),
            ),
            r is Ok ==> forall|t: TransactionId|
                t != *txid ==> final(self).rows_at(t) == old(self).rows_at(t),
    {
        let positions = match self.resolve_updates(updates) {
            Ok(p) => p,
            Err(e) => {
                return Err(e);
            },
        };
        if self.state.is_held_by_other(txid) {
            return Err(TCError::conflict("another transaction holds a pending write"));
        }
        let ghost w = updates_view(positions@);
        let ghost kl = self.key_len();
        proof {
            reveal(first_named);
            assert(w =~= self.resolved(updates@)) by {
                assert forall|j: int| 0 <= j < w.len() implies w[j] == self.resolved(updates@)[j] by {
                    let p = positions@[j].0 as int;
                    let q = first_named(self.columns@, updates@[j].0@);
                    assert(0 <= p < self.columns@.len() && self.columns@[p].name@ == updates@[j].0@);
                    assert(self.update_ok(updates@[j]));
                    assert(forall|q2: int| 0 <= q2 < p ==> (#[trigger] self.columns@[q2]).name@ != updates@[j].0@);
                    assert(0 <= q < self.columns@.len() && self.columns@[q].name@ == updates@[j].0@ && forall|q2: int| 0 <= q2 < q ==> (#[trigger] self.columns@[q2]).name@ != updates@[j].0@);
                    if q < p {
                        assert(self.columns@[q].name@ != updates@[j].0@);
                    } else if q > p {
                        assert(self.columns@[p].name@ != updates@[j].0@);
                    }
                }
            }
        }
        let rows = self.stream(txid);
        let ghost rows0 = self.rows_at(*txid);
        let ghost lv = keys_view(rows@);
        let st = self.state.read(txid);
        let mut cur = self.copied_state(st);
        let mut i: usize = 0;
        while i < rows.len()
            invariant
                self.wf(),
                self.same_layout(old(self)),
                self.state == old(self).state,
                !self.state.held_by_other(*txid),
                rows0 == self.rows_at(*txid),
                self.state_ok(self.state.visible(*txid)),
                lv == keys_view(rows@),
                ordered_listing(lv, rows0),
                kl == self.key_len(),
                w == updates_view(positions@),
                forall|j: int| 0 <= j < positions@.len() ==> kl <= (#[trigger] positions@[j]).0 < self.width(),
                i <= rows@.len(),
                self.state_ok(cur),
                live_keys(cur.primary) == rows0.map(
                    |x: KeyView| if lv.take(i as int).contains(x) { merged(x, w) } else { x },
                ),
            decreases rows@.len() - i,
        {
            let ghost vis = self.state.visible(*txid);
            let ghost x0 = lv[i as int];
            let ghost k0 = x0.subrange(0, kl);
            let ghost m0 = merged(x0, w);
            let ghost a = rows0.map(|x: KeyView| if lv.take(i as int).contains(x) { merged(x, w) } else { x });
            let ghost b = rows0.map(|x: KeyView| if lv.take(i + 1).contains(x) { merged(x, w) } else { x });
            proof {
                assert(lv.contains(x0));
                assert(rows0.contains(x0));
                lemma_live_stored(vis.primary, x0);
                assert(x0.len() == self.width());
                assert(values_view(rows@[i as int]@) == x0);
                // an earlier row of the listing is a different row
                assert(!lv.take(i as int).contains(x0)) by {
                    if lv.take(i as int).contains(x0) {
                        let t = choose|t: int| 0 <= t < lv.take(i as int).len() && #[trigger] lv.take(i as int)[t] == x0;
                        assert(lv[t] == x0);
                        crate::collator::lemma_key_cmp(lv[t], lv[i as int], lv[t]);
                    }
                }
                assert(a.contains(x0));
                assert(has(cur.primary, x0, true));
                assert forall|j: int| 0 <= j < w.len() implies kl <= (#[trigger] w[j]).0 < x0.len() by {
                    assert(w[j].0 == positions@[j].0);
                }
                lemma_merged_keeps_key(x0, w, kl);
            }
            let new_row = apply_updates(&rows[i], &positions);
            proof {
                assert(values_view(new_row@) == m0);
                assert(new_row@.len() == self.width());
            }
            let next = self.replaced_state(&cur, Some(&rows[i]), &new_row);
            proof {
                // every row keeps its key under the updates
                assert forall|x: KeyView| rows0.contains(x) implies merged(x, w).subrange(0, kl) == x.subrange(0, kl) by {
                    lemma_live_stored(vis.primary, x);
                    assert forall|j: int| 0 <= j < w.len() implies kl <= (#[trigger] w[j]).0 < x.len() by {
                        assert(w[j].0 == positions@[j].0);
                    }
                    lemma_merged_keeps_key(x, w, kl);
                }
                assert forall|x: KeyView| lv.take(i + 1).contains(x) <==> (lv.take(i as int).contains(x) || x == x0) by {
                    if lv.take(i + 1).contains(x) {
                        let t = choose|t: int| 0 <= t < lv.take(i + 1).len() && #[trigger] lv.take(i + 1)[t] == x;
                        if t < i {
                            assert(lv.take(i as int)[t] == x);
                        }
                    }
                    if lv.take(i as int).contains(x) {
                        let t = choose|t: int| 0 <= t < lv.take(i as int).len() && #[trigger] lv.take(i as int)[t] == x;
                        assert(lv.take(i + 1)[t] == x);
                    }
                    if x == x0 {
                        assert(lv.take(i + 1)[i as int] == x);
                    }
                }
                let fa = |x: KeyView| if lv.take(i as int).contains(x) { merged(x, w) } else { x };
                let fb = |x: KeyView| if lv.take(i + 1).contains(x) { merged(x, w) } else { x };
                assert forall|y: KeyView| live_keys(next.primary).contains(y) <==> b.contains(y) by {
                    if b.contains(y) {
                        let x = choose|x: KeyView| rows0.contains(x) && fb(x) == y;
                        if x == x0 {
                            assert(y == m0);
                        } else {
                            assert(fa(x) == y);
                            assert(a.contains(y));
                            assert(y.subrange(0, kl) == x.subrange(0, kl));
                            assert(has(vis.primary, x, true) && has(vis.primary, x0, true));
                            assert(x.subrange(0, kl) != k0);
                        }
                    }
                    if live_keys(next.primary).contains(y) && y != m0 {
                        assert(a.contains(y) && y.subrange(0, kl) != k0);
                        let x = choose|x: KeyView| rows0.contains(x) && fa(x) == y;
                        assert(y.subrange(0, kl) == x.subrange(0, kl));
                        assert(x != x0);
                        assert(fb(x) == y);
                    }
                    if y == m0 {
                        assert(fb(x0) == m0);
                    }
                }
                assert(live_keys(next.primary) =~= b);
            }
            cur = next;
            i = i + 1;
        }
        proof {
            assert(lv.take(rows@.len() as int) =~= lv);
            let f = |x: KeyView| if lv.take(rows@.len() as int).contains(x) { merged(x, w) } else { x };
            assert forall|y: KeyView| rows0.map(f).contains(y) <==> rows0.map(|x: KeyView| merged(x, w)).contains(y) by {
                if rows0.map(f).contains(y) {
                    let x = choose|x: KeyView| rows0.contains(x) && f(x) == y;
                    assert(lv.contains(x));
                }
                if rows0.map(|x: KeyView| merged(x, w)).contains(y) {
                    let x = choose|x: KeyView| rows0.contains(x) && merged(x, w) == y;
                    assert(lv.contains(x));
                    assert(f(x) == y);
                }
            }
            assert(rows0.map(f) =~= rows0.map(|x: KeyView| merged(x, w)));
        }
        self.state.write(txid, cur)
    }
}

} // verus!
