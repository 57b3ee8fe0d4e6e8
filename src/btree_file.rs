use vstd::prelude::*;

use crate::btree::{
    collect, has, insert_at_root, keys_view, lookup, sorted_keys, tombstone_range, wf_node, Node,
};
use crate::collator::{Key, KeyView};
use crate::error::{ErrorKind, TCError, TCResult};
use crate::range::{BTreeRange, RangeView};
use crate::schema::{derive_order, key_fits, range_fits, schema_ok, schema_order, validate_key, validate_range, Column};
use crate::txn::{TransactionId, TxnLock};
use crate::value::{copy_values, Value, values_view};

verus! {

/// A well-formed B-tree of order `m`, of some height.
pub open spec fn wf_tree(n: Node, m: int) -> bool {
    exists|h: nat| wf_node(n, m, None, None, true, h)
}

/// The keys stored live in a tree.
pub open spec fn live_keys(n: Node) -> Set<KeyView> {
    Set::new(|x: KeyView| has(n, x, true))
}

/// `s` lists the keys of `set`, each once, in collation order.
pub open spec fn ordered_listing(s: Seq<KeyView>, set: Set<KeyView>) -> bool {
    sorted_keys(s) && forall|x: KeyView| s.contains(x) <==> set.contains(x)
}

/// An ordered index of keys under transactional control: a schema, the
/// order derived from it, and the root of the B-tree as each transaction
/// sees it. A transaction writes a copy of the tree; commit publishes it.
pub struct BTreeFile {
    pub schema: Vec<Column>,
    pub order: usize,
    pub root: TxnLock<Node>,
}

impl BTreeFile {
    pub open spec fn wf(&self) -> bool {
        &&& self.order >= 2
        &&& wf_tree(self.root.canonical, self.order as int)
        &&& widths_are(self.root.canonical, self.schema@.len() as int)
        &&& (self.root.pending is Some ==> wf_tree(self.root.pending->Some_0.1, self.order as int))
        &&& (self.root.pending is Some ==> widths_are(self.root.pending->Some_0.1, self.schema@.len() as int))
    }

    /// The live keys that transaction `txid` sees.
    pub open spec fn live_at(&self, txid: TransactionId) -> Set<KeyView> {
        live_keys(self.root.visible(txid))
    }

    /// The keys stored, live or tombstoned, in the tree that `txid` sees.
    pub open spec fn stored_at(&self, txid: TransactionId) -> Set<KeyView> {
        Set::new(|x: KeyView| has(self.root.visible(txid), x, false))
    }

    /// The live keys that transaction `txid` sees within `range`.
    pub open spec fn live_in(&self, txid: TransactionId, range: RangeView) -> Set<KeyView> {
        self.live_at(txid).filter(|x: KeyView| range.contains(x))
    }

    /// An empty index over `schema`; fails on a schema error.
    pub fn create(schema: Vec<Column>) -> (r: TCResult<BTreeFile>)
        ensures
            r is Ok <==> schema_ok(schema@),
            r is Err ==> r->Err_0.kind == ErrorKind::BadRequest,
            r is Ok ==> ({
                let t = r->Ok_0;
                &&& t.wf()
                &&& t.schema@ == schema@
                &&& t.order as nat == schema_order(schema@)
                &&& t.root.pending is None
                &&& forall|txid: TransactionId| t.live_at(txid) == Set::<KeyView>::empty()
            }),
    {
        let order = match derive_order(&schema) {
            Ok(m) => m,
            Err(e) => {
                return Err(e);
            },
        };
        let root = Node { leaf: true, keys: Vec::new(), children: Vec::new(), rebalance: false };
        proof {
            assert(wf_node(root, order as int, None, None, true, 0));
            assert(live_keys(root) =~= Set::<KeyView>::empty());
        }
        Ok(BTreeFile { schema, order, root: TxnLock::new(root) })
    }

    /// The order of this index.
    pub fn order(&self) -> (r: usize)
        ensures
            r == self.order,
    {
        self.order
    }

    /// The schema of this index.
    pub fn schema(&self) -> (r: &Vec<Column>)
        ensures
            r == &self.schema,
    {
        &self.schema
    }

    /// Inserts one key at `txid`. A tombstoned copy of the key is revived; a
    /// live one stays as it is.
    pub fn insert(&mut self, txid: &TransactionId, key: Vec<Value>) -> (r: TCResult<()>)
        requires
            old(self).wf(),
        ensures
            final(self).wf(),
            final(self).schema == old(self).schema,
            final(self).order == old(self).order,
            final(self).root.canonical == old(self).root.canonical,
            r is Err <==> (!key_fits(old(self).schema@, key@) || old(self).root.held_by_other(
                *txid,
            )),
            !key_fits(old(self).schema@, key@) ==> r is Err && r->Err_0.kind
                == ErrorKind::BadRequest,
            key_fits(old(self).schema@, key@) && old(self).root.held_by_other(*txid) ==> r is Err
                && r->Err_0.kind == ErrorKind::Conflict,
            r is Err ==> final(self).root == old(self).root,
            r is Ok ==> !final(self).root.held_by_other(*txid),
            r is Ok ==> final(self).live_at(*txid) == old(self).live_at(*txid).insert(
                values_view(key@),
            ),
            r is Ok ==> final(self).stored_at(*txid) == old(self).stored_at(*txid).insert(values_view(key@)),
            r is Ok ==> forall|t: TransactionId|
                t != *txid ==> final(self).live_at(t) == old(self).live_at(t),
    {
        match validate_key(&self.schema, &key) {
            Ok(_) => {},
            Err(e) => {
                return Err(e);
            },
        }
        if self.root.is_held_by_other(txid) {
            return Err(TCError::conflict("another transaction holds a pending write"));
        }
        let m = self.order;
        let ghost k = values_view(key@);
        let ghost before = self.root.visible(*txid);
        let cur = self.root.read(txid);
        let ghost h = choose|h: nat| wf_node(*cur, m as int, None, None, true, h);
        let copy = tombstone_range(cur, None, m, Ghost(None), Ghost(None), Ghost(true), Ghost(h));
        let (new_root, Ghost(h2)) = insert_at_root(copy, key, m, Ghost(h));
        let w = self.root.write(txid, new_root);
        proof {
            assert(wf_node(new_root, m as int, None, None, true, h2));
            assert forall|x: KeyView| #[trigger] has(new_root, x, false) implies x.len() == self.schema@.len() by {
                if x != k {
                    assert(has(copy, x, false));
                    assert(has(before, x, false));
                }
            }
            assert(self.stored_at(*txid) =~= old(self).stored_at(*txid).insert(k)) by {
                assert forall|x: KeyView| has(new_root, x, false) <==> (has(before, x, false) || x == k) by {
                    assert(has(copy, x, false) == has(before, x, false));
                }
            }
            assert(live_keys(new_root) =~= live_keys(before).insert(k)) by {
                assert forall|x: KeyView| has(new_root, x, true) <==> (has(before, x, true) || x == k) by {
                    assert(has(copy, x, true) == has(before, x, true));
                }
            }
        }
        w
    }

    /// Inserts every key of `keys` at `txid`, in order, stopping at the first
    /// error.
    pub fn insert_from(&mut self, txid: &TransactionId, keys: &Vec<Key>) -> (r: TCResult<()>)
        requires
            old(self).wf(),
        ensures
            final(self).wf(),
            final(self).schema == old(self).schema,
            final(self).order == old(self).order,
            final(self).root.canonical == old(self).root.canonical,
            r is Ok <==> ((keys@.len() == 0 || !old(self).root.held_by_other(*txid)) && forall|i: int|
                0 <= i < keys@.len() ==> key_fits(old(self).schema@, #[trigger] keys@[i]@)),
            r is Ok ==> final(self).live_at(*txid) == old(self).live_at(*txid).union(
                keys_view(keys@).to_set(),
            ),
    {
        let mut i: usize = 0;
        while i < keys.len()
            invariant
                self.wf(),
                self.schema == old(self).schema,
                self.order == old(self).order,
                self.root.canonical == old(self).root.canonical,
                i <= keys@.len(),
                forall|j: int| 0 <= j < i ==> key_fits(old(self).schema@, #[trigger] keys@[j]@),
                i > 0 ==> !old(self).root.held_by_other(*txid),
                self.root.held_by_other(*txid) == old(self).root.held_by_other(*txid),
                self.live_at(*txid) == old(self).live_at(*txid).union(
                    keys_view(keys@.subrange(0, i as int)).to_set(),
                ),
            decreases keys@.len() - i,
        {
            let k = copy_values(&keys[i]);
            let ghost before = self.live_at(*txid);
            match self.insert(txid, k) {
                Err(e) => {
                    return Err(e);
                },
                Ok(_) => {},
            }
            proof {
                let s0 = keys_view(keys@.subrange(0, i as int));
                let s1 = keys_view(keys@.subrange(0, i + 1));
                assert(s1 =~= s0.push(values_view(keys@[i as int]@)));
                assert(s1.to_set() =~= s0.to_set().insert(values_view(keys@[i as int]@))) by {
                    assert forall|x: KeyView| s1.to_set().contains(x) <==> s0.to_set().insert(values_view(keys@[i as int]@)).contains(x) by {
                        if s1.contains(x) {
                            let t = choose|t: int| 0 <= t < s1.len() && s1[t] == x;
                            if t < s0.len() {
                                assert(s0[t] == x);
                            }
                        }
                        if s0.contains(x) {
                            let t = choose|t: int| 0 <= t < s0.len() && s0[t] == x;
                            assert(s1[t] == x);
                        }
                        if x == values_view(keys@[i as int]@) {
                            assert(s1[i as int] == x);
                        }
                    }
                }
                assert(self.live_at(*txid) =~= old(self).live_at(*txid).union(s1.to_set()));
            }
            i = i + 1;
        }
        proof {
            assert(keys@.subrange(0, keys@.len() as int) =~= keys@);
        }
        Ok(())
    }

    /// Tombstones every key in `range` at `txid`.
    pub fn delete(&mut self, txid: &TransactionId, range: &BTreeRange) -> (r: TCResult<()>)
        requires
            old(self).wf(),
        ensures
            final(self).wf(),
            final(self).schema == old(self).schema,
            final(self).order == old(self).order,
            final(self).root.canonical == old(self).root.canonical,
            r is Err <==> (!range_fits(old(self).schema@, *range) || old(self).root.held_by_other(
                *txid,
            )),
            !range_fits(old(self).schema@, *range) ==> r is Err && r->Err_0.kind
                == ErrorKind::BadRequest,
            range_fits(old(self).schema@, *range) && old(self).root.held_by_other(*txid) ==> r is Err
                && r->Err_0.kind == ErrorKind::Conflict,
            r is Err ==> final(self).root == old(self).root,
            r is Ok ==> !final(self).root.held_by_other(*txid),
            r is Ok ==> final(self).live_at(*txid) == old(self).live_at(*txid).filter(
                |x: KeyView| !range@.contains(x),
            ),
            r is Ok ==> final(self).stored_at(*txid) == old(self).stored_at(*txid),
            r is Ok ==> forall|t: TransactionId|
                t != *txid ==> final(self).live_at(t) == old(self).live_at(t),
    {
        match validate_range(&self.schema, range) {
            Ok(_) => {},
            Err(e) => {
                return Err(e);
            },
        }
        if self.root.is_held_by_other(txid) {
            return Err(TCError::conflict("another transaction holds a pending write"));
        }
        let m = self.order;
        let ghost before = self.root.visible(*txid);
        let cur = self.root.read(txid);
        let ghost h = choose|h: nat| wf_node(*cur, m as int, None, None, true, h);
        let new_root = tombstone_range(cur, Some(range), m, Ghost(None), Ghost(None), Ghost(true), Ghost(h));
        let w = self.root.write(txid, new_root);
        proof {
            assert forall|x: KeyView| #[trigger] has(new_root, x, false) implies x.len() == self.schema@.len() by {
                assert(has(new_root, x, false) == (has(before, x, false) && (!false || !crate::btree::hits(Some(range@), x))));
            }
            assert(self.stored_at(*txid) =~= old(self).stored_at(*txid)) by {
                assert forall|x: KeyView| has(new_root, x, false) == has(before, x, false) by {
                    assert(has(new_root, x, false) == (has(before, x, false) && (!false || !crate::btree::hits(Some(range@), x))));
                }
            }
            assert(live_keys(new_root) =~= live_keys(before).filter(|x: KeyView| !range@.contains(x))) by {
                assert forall|x: KeyView| has(new_root, x, true) <==> (has(before, x, true) && !range@.contains(x)) by {
                    assert(has(new_root, x, true) == (has(before, x, true) && !crate::btree::hits(Some(range@), x)));
                }
            }
        }
        w
    }

    /// Overwrites the live keys in `range` at `txid` with `value`: when the
    /// range holds any live key, those keys leave and `value` takes their
    /// place; otherwise nothing changes. Keys of an index are unique, so
    /// several keys overwritten with one value leave a single key, and the
    /// tree stays ordered.
    pub fn update(&mut self, txid: &TransactionId, range: &BTreeRange, value: Vec<Value>) -> (r: TCResult<()>)
        requires
            old(self).wf(),
        ensures
            final(self).wf(),
            final(self).schema == old(self).schema,
            final(self).order == old(self).order,
            final(self).root.canonical == old(self).root.canonical,
            r is Err <==> (!range_fits(old(self).schema@, *range) || !key_fits(old(self).schema@, value@)
                || old(self).root.held_by_other(*txid)),
            !range_fits(old(self).schema@, *range) || !key_fits(old(self).schema@, value@) ==> r is Err
                && r->Err_0.kind == ErrorKind::BadRequest,
            range_fits(old(self).schema@, *range) && key_fits(old(self).schema@, value@) && old(self).root.held_by_other(*txid)
                ==> r is Err && r->Err_0.kind == ErrorKind::Conflict,
            r is Err && r->Err_0.kind != ErrorKind::BadRequest ==> r->Err_0.kind == ErrorKind::Conflict,
            r is Err ==> final(self).root == old(self).root,
            r is Ok ==> final(self).live_at(*txid) == (if old(self).live_in(*txid, range@).is_empty() {
                old(self).live_at(*txid)
            } else {
                old(self).live_at(*txid).filter(|x: KeyView| !range@.contains(x)).insert(
                    values_view(value@),
                )
            }),
            r is Ok ==> forall|t: TransactionId|
                t != *txid ==> final(self).live_at(t) == old(self).live_at(t),
    {
        match validate_range(&self.schema, range) {
            Ok(_) => {},
            Err(e) => {
                return Err(e);
            },
        }
        match validate_key(&self.schema, &value) {
            Ok(_) => {},
            Err(e) => {
                return Err(e);
            },
        }
        if self.root.is_held_by_other(txid) {
            return Err(TCError::conflict("another transaction holds a pending write"));
        }
        let hits = self.slice(txid, range);
        if hits.len() == 0 {
            proof {
                assert(self.live_in(*txid, range@) =~= Set::<KeyView>::empty()) by {
                    assert forall|x: KeyView| !self.live_in(*txid, range@).contains(x) by {
                        if self.live_in(*txid, range@).contains(x) {
                            assert(keys_view(hits@).contains(x));
                        }
                    }
                }
            }
            return Ok(());
        }
        proof {
            assert(keys_view(hits@).contains(keys_view(hits@)[0]));
            assert(self.live_in(*txid, range@).contains(keys_view(hits@)[0]));
        }
        match self.delete(txid, range) {
            Ok(_) => {},
            Err(e) => {
                return Err(e);
            },
        }
        self.insert(txid, value)
    }

    /// The live keys in `range` that `txid` sees, in collation order, or in
    /// the reverse order when `reverse` is set.
    pub fn stream(&self, txid: &TransactionId, range: &BTreeRange, reverse: bool) -> (r: TCResult<Vec<Key>>)
        requires
            self.wf(),
        ensures
            r is Ok <==> range_fits(self.schema@, *range),
            r is Err ==> r->Err_0.kind == ErrorKind::BadRequest,
            r is Ok && !reverse ==> ordered_listing(keys_view(r->Ok_0@), self.live_in(*txid, range@)),
            r is Ok && reverse ==> ordered_listing(
                keys_view(r->Ok_0@).reverse(),
                self.live_in(*txid, range@),
            ),
    {
        match validate_range(&self.schema, range) {
            Ok(_) => {},
            Err(e) => {
                return Err(e);
            },
        }
        let out = self.slice(txid, range);
        if reverse {
            let rev = reverse_keys(out);
            proof {
                assert(keys_view(rev@).reverse() =~= keys_view(out@));
            }
            Ok(rev)
        } else {
            Ok(out)
        }
    }

    /// The live keys in `range` that `txid` sees, in collation order.
    fn slice(&self, txid: &TransactionId, range: &BTreeRange) -> (r: Vec<Key>)
        requires
            self.wf(),
        ensures
            ordered_listing(keys_view(r@), self.live_in(*txid, range@)),
    {
        let m = self.order;
        let cur = self.root.read(txid);
        let ghost h = choose|h: nat| wf_node(*cur, m as int, None, None, true, h);
        let out = collect(cur, range, m, Ghost(None), Ghost(None), Ghost(true), Ghost(h), Ghost(self.schema@.len() as int));
        proof {
            assert forall|x: KeyView| keys_view(out@).contains(x) <==> self.live_in(*txid, range@).contains(x) by {}
        }
        out
    }

    /// The number of live keys in `range` that `txid` sees.
    pub fn len(&self, txid: &TransactionId, range: &BTreeRange) -> (r: TCResult<u64>)
        requires
            self.wf(),
        ensures
            r is Ok <==> range_fits(self.schema@, *range),
            r is Err ==> r->Err_0.kind == ErrorKind::BadRequest,
            r is Ok ==> r->Ok_0 as int == self.live_in(*txid, range@).len(),
            r is Ok ==> self.live_in(*txid, range@).finite(),
    {
        match validate_range(&self.schema, range) {
            Ok(_) => {},
            Err(e) => {
                return Err(e);
            },
        }
        let out = self.slice(txid, range);
        proof {
            lemma_listing_len(keys_view(out@), self.live_in(*txid, range@));
        }
        Ok(out.len() as u64)
    }

    /// Whether `txid` sees no live key.
    pub fn is_empty(&self, txid: &TransactionId) -> (r: bool)
        requires
            self.wf(),
        ensures
            r == (self.live_at(*txid) == Set::<KeyView>::empty()),
    {
        let all = BTreeRange::all();
        let out = self.slice(txid, &all);
        proof {
            if out@.len() > 0 {
                assert(keys_view(out@).contains(keys_view(out@)[0]));
                assert(self.live_at(*txid).contains(keys_view(out@)[0]));
            } else {
                assert(self.live_at(*txid) =~= Set::<KeyView>::empty()) by {
                    assert forall|x: KeyView| !self.live_at(*txid).contains(x) by {
                        if self.live_at(*txid).contains(x) {
                            assert(self.live_in(*txid, all@).contains(x));
                        }
                    }
                }
            }
        }
        out.len() == 0
    }

    /// The stored copy of `key`, if `txid` sees it live.
    pub fn get(&self, txid: &TransactionId, key: &Vec<Value>) -> (r: TCResult<Option<Key>>)
        requires
            self.wf(),
        ensures
            r is Ok <==> key_fits(self.schema@, key@),
            r is Err ==> r->Err_0.kind == ErrorKind::BadRequest,
            r is Ok ==> (r->Ok_0 is Some <==> self.live_at(*txid).contains(values_view(key@))),
            r is Ok && r->Ok_0 is Some ==> r->Ok_0->Some_0@ == key@,
    {
        match validate_key(&self.schema, key) {
            Ok(_) => {},
            Err(e) => {
                return Err(e);
            },
        }
        let m = self.order;
        let cur = self.root.read(txid);
        let ghost h = choose|h: nat| wf_node(*cur, m as int, None, None, true, h);
        if lookup(cur, key, m, Ghost(None), Ghost(None), Ghost(true), Ghost(h)) {
            Ok(Some(copy_values(key)))
        } else {
            Ok(None)
        }
    }

    /// Publishes the writes of `txid`.
    pub fn commit(&mut self, txid: &TransactionId)
        requires
            old(self).wf(),
        ensures
            final(self).wf(),
            final(self).schema == old(self).schema,
            final(self).order == old(self).order,
            final(self).root == old(self).root.committed(*txid),
    {
        self.root.commit(txid);
    }

    /// Discards the writes of `txid`.
    pub fn rollback(&mut self, txid: &TransactionId)
        requires
            old(self).wf(),
        ensures
            final(self).wf(),
            final(self).schema == old(self).schema,
            final(self).order == old(self).order,
            final(self).root == old(self).root.rolled_back(*txid),
    {
        self.root.rollback(txid);
    }

    /// Releases what transactions at or before `txid` hold.
    pub fn finalize(&mut self, txid: &TransactionId)
        requires
            old(self).wf(),
        ensures
            final(self).wf(),
            final(self).schema == old(self).schema,
            final(self).order == old(self).order,
            final(self).root == old(self).root.finalized(*txid),
    {
        self.root.finalize(txid);
    }
}

/// A listing of a set is as long as the set is large.
pub proof fn lemma_listing_len(s: Seq<KeyView>, set: Set<KeyView>)
    requires
        ordered_listing(s, set),
    ensures
        s.len() == set.len(),
        set.finite(),
{
    assert(s.no_duplicates()) by {
        assert forall|i: int, j: int| 0 <= i < s.len() && 0 <= j < s.len() && i != j implies s[i] != s[j] by {
            if i < j {
                crate::collator::lemma_key_cmp(s[i], s[j], s[j]);
            } else {
                crate::collator::lemma_key_cmp(s[j], s[i], s[i]);
            }
        }
    }
    s.unique_seq_to_set();
    assert(s.to_set() =~= set);
}

/// The keys in reverse order.
pub fn reverse_keys(v: Vec<Key>) -> (r: Vec<Key>)
    ensures
        r@ == v@.reverse(),
{
    let ghost orig = v@;
    let mut v = v;
    let mut r: Vec<Key> = Vec::new();
    while v.len() > 0
        invariant
            v@ == orig.subrange(0, v@.len() as int),
            r@ == orig.subrange(v@.len() as int, orig.len() as int).reverse(),
            v@.len() <= orig.len(),
        decreases v@.len(),
    {
        let k = v.pop().unwrap();
        r.push(k);
        proof {
            assert(r@ =~= orig.subrange(v@.len() as int, orig.len() as int).reverse());
            assert(v@ =~= orig.subrange(0, v@.len() as int));
        }
    }
    proof {
        assert(orig.subrange(0, orig.len() as int) =~= orig);
    }
    r
}

/// Two listings of one set are the same sequence.
pub proof fn lemma_listing_unique(a: Seq<KeyView>, b: Seq<KeyView>, s: Set<KeyView>)
    requires
        ordered_listing(a, s),
        ordered_listing(b, s),
    ensures
        a == b,
    decreases a.len(),
{
    lemma_listing_len(a, s);
    lemma_listing_len(b, s);
    if a.len() > 0 {
        assert(b.contains(a[0]));
        let j = choose|j: int| 0 <= j < b.len() && b[j] == a[0];
        assert(a.contains(b[0]));
        let i = choose|i: int| 0 <= i < a.len() && a[i] == b[0];
        if j > 0 && i > 0 {
            crate::collator::lemma_key_cmp(a[0], b[0], a[0]);
            crate::collator::lemma_key_cmp(a[0], a[0], a[0]);
        }
        let x = a[0];
        let s2 = s.remove(x);
        let a2 = a.drop_first();
        let b2 = b.drop_first();
        assert forall|y: KeyView| a2.contains(y) <==> s2.contains(y) by {
            if a2.contains(y) {
                let t = choose|t: int| 0 <= t < a2.len() && a2[t] == y;
                assert(a[t + 1] == y);
                crate::collator::lemma_key_cmp(a[0], a[t + 1], a[0]);
            }
            if s2.contains(y) {
                let t = choose|t: int| 0 <= t < a.len() && a[t] == y;
                assert(a2[t - 1] == y);
            }
        }
        assert forall|y: KeyView| b2.contains(y) <==> s2.contains(y) by {
            if b2.contains(y) {
                let t = choose|t: int| 0 <= t < b2.len() && b2[t] == y;
                assert(b[t + 1] == y);
                crate::collator::lemma_key_cmp(b[0], b[t + 1], b[0]);
            }
            if s2.contains(y) {
                let t = choose|t: int| 0 <= t < b.len() && b[t] == y;
                assert(b2[t - 1] == y);
            }
        }
        assert(sorted_keys(a2)) by {
            assert forall|p: int, q: int| 0 <= p < q < a2.len() implies crate::collator::key_lt(#[trigger] a2[p], #[trigger] a2[q]) by {
                assert(a2[p] == a[p + 1] && a2[q] == a[q + 1]);
            }
        }
        assert(sorted_keys(b2)) by {
            assert forall|p: int, q: int| 0 <= p < q < b2.len() implies crate::collator::key_lt(#[trigger] b2[p], #[trigger] b2[q]) by {
                assert(b2[p] == b[p + 1] && b2[q] == b[q + 1]);
            }
        }
        lemma_listing_unique(a2, b2, s2);
        assert(a =~= b) by {
            assert forall|t: int| 0 <= t < a.len() implies a[t] == b[t] by {
                if t > 0 {
                    assert(a[t] == a2[t - 1] && b[t] == b2[t - 1]);
                }
            }
        }
    } else {
        assert(b.len() == 0);
        assert(a =~= b);
    }
}

/// After `insert(k)` succeeds at a transaction, `get(k)` at that
/// transaction finds `k`.
pub proof fn lemma_insert_then_get(before: BTreeFile, after: BTreeFile, txid: TransactionId, k: KeyView)
    requires
        after.live_at(txid) == before.live_at(txid).insert(k),
    ensures
        after.live_at(txid).contains(k),
{
}

/// After `insert(k)` and then `delete(range)` with `k` in `range`, a stream
/// of `range` does not yield `k`.
pub proof fn lemma_delete_then_stream(
    t0: BTreeFile,
    t1: BTreeFile,
    t2: BTreeFile,
    txid: TransactionId,
    k: KeyView,
    range: RangeView,
    out: Seq<KeyView>,
)
    requires
        t1.live_at(txid) == t0.live_at(txid).insert(k),
        range.contains(k),
        t2.live_at(txid) == t1.live_at(txid).filter(|x: KeyView| !range.contains(x)),
        ordered_listing(out, t2.live_in(txid, range)),
    ensures
        !out.contains(k),
{
}

/// After `insert(k)`, `delete(range)` with `k` in `range`, and `insert(k)`
/// again, `k` is live.
pub proof fn lemma_reinsert_revives(
    t0: BTreeFile,
    t1: BTreeFile,
    t2: BTreeFile,
    t3: BTreeFile,
    txid: TransactionId,
    k: KeyView,
    range: RangeView,
)
    requires
        t1.live_at(txid) == t0.live_at(txid).insert(k),
        range.contains(k),
        t2.live_at(txid) == t1.live_at(txid).filter(|x: KeyView| !range.contains(x)),
        t3.live_at(txid) == t2.live_at(txid).insert(k),
    ensures
        t3.live_at(txid).contains(k),
        !t2.live_at(txid).contains(k),
{
}

/// A reverse stream of a range is the forward stream reversed: the same
/// keys, each once, in the opposite order.
pub proof fn lemma_reverse_stream(fwd: Seq<KeyView>, rev: Seq<KeyView>, keys: Set<KeyView>)
    requires
        ordered_listing(fwd, keys),
        ordered_listing(rev.reverse(), keys),
    ensures
        rev == fwd.reverse(),
        forall|x: KeyView| rev.contains(x) <==> fwd.contains(x),
{
    lemma_listing_unique(rev.reverse(), fwd, keys);
    assert(rev =~= rev.reverse().reverse());
    assert forall|x: KeyView| rev.contains(x) <==> fwd.contains(x) by {
        if rev.contains(x) {
            let t = choose|t: int| 0 <= t < rev.len() && rev[t] == x;
            assert(fwd[rev.len() - 1 - t] == x);
        }
        if fwd.contains(x) {
            let t = choose|t: int| 0 <= t < fwd.len() && fwd[t] == x;
            assert(rev[fwd.len() - 1 - t] == x);
        }
    }
}

/// Inserting a sequence of keys into an empty index and streaming all of it
/// yields each of those keys once, in collation order.
pub proof fn lemma_insert_then_stream_all(
    t0: BTreeFile,
    t1: BTreeFile,
    txid: TransactionId,
    keys: Seq<KeyView>,
    all: RangeView,
    out: Seq<KeyView>,
)
    requires
        t0.live_at(txid) == Set::<KeyView>::empty(),
        t1.live_at(txid) == t0.live_at(txid).union(keys.to_set()),
        forall|x: KeyView| all.contains(x),
        ordered_listing(out, t1.live_in(txid, all)),
    ensures
        sorted_keys(out),
        out.to_set() == keys.to_set(),
        out.len() == keys.to_set().len(),
{
    assert(out.to_set() =~= keys.to_set()) by {
        assert forall|x: KeyView| out.to_set().contains(x) <==> keys.to_set().contains(x) by {
            assert(t1.live_in(txid, all).contains(x) == keys.to_set().contains(x));
        }
    }
    assert(t1.live_in(txid, all) =~= keys.to_set());
    lemma_listing_len(out, t1.live_in(txid, all));
}

/// The count of a range split into two disjoint parts is the sum of the
/// counts of the parts.
pub proof fn lemma_len_partition(live: Set<KeyView>, r: RangeView, r1: RangeView, r2: RangeView)
    requires
        live.filter(|x: KeyView| r1.contains(x)).finite(),
        live.filter(|x: KeyView| r2.contains(x)).finite(),
        forall|x: KeyView| r.contains(x) <==> (r1.contains(x) || r2.contains(x)),
        forall|x: KeyView| !(r1.contains(x) && r2.contains(x)),
    ensures
        live.filter(|x: KeyView| r.contains(x)).len() == live.filter(|x: KeyView| r1.contains(x)).len()
            + live.filter(|x: KeyView| r2.contains(x)).len(),
{
    let a = live.filter(|x: KeyView| r1.contains(x));
    let b = live.filter(|x: KeyView| r2.contains(x));
    assert(live.filter(|x: KeyView| r.contains(x)) =~= a + b);
    assert(a.disjoint(b));
    vstd::set_lib::lemma_set_disjoint_lens(a, b);
}

/// Every key stored in the tree, live or tombstoned, has `w` columns.
pub open spec fn widths_are(n: Node, w: int) -> bool {
    forall|x: KeyView| #[trigger] has(n, x, false) ==> x.len() == w
}

/// A live key is a stored key.
pub proof fn lemma_live_stored(n: Node, x: KeyView)
    requires
        has(n, x, true),
    ensures
        has(n, x, false),
    decreases n,
{
    if exists|a: int|
        0 <= a < n.keys@.len() && crate::btree::kv(#[trigger] n.keys@[a]) == x && (!true
            || !n.keys@[a].deleted) {
        let a = choose|a: int|
            0 <= a < n.keys@.len() && crate::btree::kv(#[trigger] n.keys@[a]) == x && (!true
                || !n.keys@[a].deleted);
        assert(crate::btree::kv(n.keys@[a]) == x && (!false || !n.keys@[a].deleted));
    } else {
        let j = choose|j: int| 0 <= j < n.children@.len() && has(#[trigger] n.children@[j], x, true);
        lemma_live_stored(n.children@[j], x);
    }
}

/// An empty tree.
pub(crate) fn tree_empty(m: usize) -> (r: Node)
    requires
        m >= 2,
    ensures
        wf_tree(r, m as int),
        forall|x: KeyView, f: bool| has(r, x, f) == false,
{
    let r = Node { leaf: true, keys: Vec::new(), children: Vec::new(), rebalance: false };
    proof {
        assert(wf_node(r, m as int, None, None, true, 0));
    }
    r
}

/// A copy of a tree.
pub(crate) fn tree_copy(n: &Node, m: usize) -> (r: Node)
    requires
        wf_tree(*n, m as int),
    ensures
        wf_tree(r, m as int),
        forall|x: KeyView, f: bool| has(r, x, f) == has(*n, x, f),
{
    let ghost h = choose|h: nat| wf_node(*n, m as int, None, None, true, h);
    let r = tombstone_range(n, None, m, Ghost(None), Ghost(None), Ghost(true), Ghost(h));
    proof {
        assert forall|x: KeyView, f: bool| has(r, x, f) == has(*n, x, f) by {
            assert(has(r, x, f) == (has(*n, x, f) && (!f || !crate::btree::hits(None, x))));
        }
    }
    r
}

/// The tree with `key` added, or revived.
pub(crate) fn tree_insert(n: Node, key: Vec<Value>, m: usize) -> (r: Node)
    requires
        wf_tree(n, m as int),
    ensures
        wf_tree(r, m as int),
        forall|x: KeyView, f: bool| has(r, x, f) <==> (has(n, x, f) || x == values_view(key@)),
{
    let ghost h = choose|h: nat| wf_node(n, m as int, None, None, true, h);
    let (r, Ghost(h2)) = insert_at_root(n, key, m, Ghost(h));
    r
}

/// The tree with every key in `range` tombstoned.
pub(crate) fn tree_tombstone(n: &Node, range: &BTreeRange, m: usize) -> (r: Node)
    requires
        wf_tree(*n, m as int),
    ensures
        wf_tree(r, m as int),
        forall|x: KeyView, f: bool| has(r, x, f) <==> (has(*n, x, f) && (!f || !range@.contains(x))),
{
    let ghost h = choose|h: nat| wf_node(*n, m as int, None, None, true, h);
    let r = tombstone_range(n, Some(range), m, Ghost(None), Ghost(None), Ghost(true), Ghost(h));
    proof {
        assert forall|x: KeyView, f: bool| has(r, x, f) <==> (has(*n, x, f) && (!f || !range@.contains(x))) by {
            assert(has(r, x, f) == (has(*n, x, f) && (!f || !crate::btree::hits(Some(range@), x))));
        }
    }
    r
}

/// The live keys of the tree in `range`, in collation order.
pub(crate) fn tree_listing(n: &Node, range: &BTreeRange, m: usize, Ghost(w): Ghost<int>) -> (r: Vec<Key>)
    requires
        wf_tree(*n, m as int),
        widths_are(*n, w),
    ensures
        ordered_listing(keys_view(r@), live_keys(*n).filter(|x: KeyView| range@.contains(x))),
{
    let ghost h = choose|h: nat| wf_node(*n, m as int, None, None, true, h);
    let out = collect(n, range, m, Ghost(None), Ghost(None), Ghost(true), Ghost(h), Ghost(w));
    proof {
        assert forall|x: KeyView| keys_view(out@).contains(x) <==> live_keys(*n).filter(|x: KeyView| range@.contains(x)).contains(x) by {}
    }
    out
}

/// Whether `key` is live in the tree.
pub(crate) fn tree_contains(n: &Node, key: &Vec<Value>, m: usize) -> (r: bool)
    requires
        wf_tree(*n, m as int),
    ensures
        r == has(*n, values_view(key@), true),
{
    let ghost h = choose|h: nat| wf_node(*n, m as int, None, None, true, h);
    lookup(n, key, m, Ghost(None), Ghost(None), Ghost(true), Ghost(h))
}

} // verus!
