use vstd::prelude::*;

use crate::collator::{compare_key, key_cmp, key_lt, lemma_key_cmp, Key, KeyView};
use crate::error::{TCError, TCResult};
use crate::range::{above_lower, below_upper, bounds_view, is_above_lower, is_below_upper, Bound, BTreeRange, RangeView};
use crate::value::{copy_values, Value, values_view};

verus! {

/// A key as stored in a node: its values and its tombstone flag.
#[derive(Debug)]
pub struct NodeKey {
    pub value: Vec<Value>,
    pub deleted: bool,
}

/// A B-tree node: a leaf holds keys only; any other node holds one more
/// child than it holds keys. `rebalance` marks a node touched by a deletion.
#[derive(Debug)]
pub struct Node {
    pub leaf: bool,
    pub keys: Vec<NodeKey>,
    pub children: Vec<Node>,
    pub rebalance: bool,
}

pub open spec fn kv(k: NodeKey) -> KeyView {
    values_view(k.value@)
}

pub open spec fn keys_view(s: Seq<Key>) -> Seq<KeyView> {
    s.map_values(|k: Key| values_view(k@))
}

pub open spec fn lower_ok(lo: Option<KeyView>, k: KeyView) -> bool {
    match lo {
        Some(l) => key_lt(l, k),
        None => true,
    }
}

pub open spec fn upper_ok(hi: Option<KeyView>, k: KeyView) -> bool {
    match hi {
        Some(h) => key_lt(k, h),
        None => true,
    }
}

/// The exclusive lower bound that a node places on its child `i`.
pub open spec fn child_lo(n: Node, i: int, lo: Option<KeyView>) -> Option<KeyView> {
    if i == 0 {
        lo
    } else {
        Some(kv(n.keys@[i - 1]))
    }
}

/// The exclusive upper bound that a node places on its child `i`.
pub open spec fn child_hi(n: Node, i: int, hi: Option<KeyView>) -> Option<KeyView> {
    if i >= n.keys@.len() {
        hi
    } else {
        Some(kv(n.keys@[i]))
    }
}

/// A well-formed subtree of order `m` and height `h` whose keys lie strictly
/// between `lo` and `hi`: every leaf at depth `h`, keys sorted within each node, every key of child `i`
/// below key `i` and every key of child `i + 1` above it, at most `2m - 1`
/// keys per node, at least `m - 1` in every node but the root, and at least
/// one in a root that is not a leaf.
pub open spec fn wf_node(
    n: Node,
    m: int,
    lo: Option<KeyView>,
    hi: Option<KeyView>,
    root: bool,
    h: nat,
) -> bool
    decreases n,
{
    &&& m >= 2
    &&& (n.leaf <==> h == 0)
    &&& n.keys@.len() <= 2 * m - 1
    &&& (!root ==> n.keys@.len() >= m - 1)
    &&& (root && !n.leaf ==> n.keys@.len() >= 1)
    &&& forall|i: int, j: int|
        0 <= i < j < n.keys@.len() ==> key_lt(#[trigger] kv(n.keys@[i]), #[trigger] kv(n.keys@[j]))
    &&& forall|i: int|
        0 <= i < n.keys@.len() ==> lower_ok(lo, #[trigger] kv(n.keys@[i])) && upper_ok(
            hi,
            kv(n.keys@[i]),
        )
    &&& if n.leaf {
        n.children@.len() == 0
    } else {
        &&& n.children@.len() == n.keys@.len() + 1
        &&& forall|i: int|
            0 <= i < n.children@.len() ==> wf_node(
                #[trigger] n.children@[i],
                m,
                child_lo(n, i, lo),
                child_hi(n, i, hi),
                false,
                (h - 1) as nat,
            )
    }
}

/// Whether key `x` occurs in the subtree (when `live`, only as a key that is
/// not tombstoned).
pub open spec fn has(n: Node, x: KeyView, live: bool) -> bool
    decreases n,
{
    (exists|i: int|
        0 <= i < n.keys@.len() && kv(#[trigger] n.keys@[i]) == x && (!live || !n.keys@[i].deleted))
        || (exists|j: int| 0 <= j < n.children@.len() && has(#[trigger] n.children@[j], x, live))
}

proof fn lemma_split_has(c: Node, left: Node, med: NodeKey, right: Node, m: int)
    requires
        m >= 1,
        c.keys@.len() == 2 * m - 1,
        left.keys@ == c.keys@.subrange(0, m - 1),
        med == c.keys@[m - 1],
        right.keys@ == c.keys@.subrange(m, 2 * m - 1),
        (c.children@.len() == 0 && left.children@.len() == 0 && right.children@.len() == 0) || (
        c.children@.len() == 2 * m && left.children@ == c.children@.subrange(0, m)
            && right.children@ == c.children@.subrange(m, 2 * m)),
    ensures
        forall|x: KeyView, f: bool|
            has(c, x, f) <==> (has(left, x, f) || (kv(med) == x && (!f || !med.deleted)) || has(
                right,
                x,
                f,
            )),
{
    assert forall|x: KeyView, f: bool|
        has(c, x, f) <==> (has(left, x, f) || (kv(med) == x && (!f || !med.deleted)) || has(
            right,
            x,
            f,
        )) by {
        if has(c, x, f) {
            if exists|i: int|
                0 <= i < c.keys@.len() && kv(#[trigger] c.keys@[i]) == x && (!f
                    || !c.keys@[i].deleted) {
                let i = choose|i: int|
                    0 <= i < c.keys@.len() && kv(#[trigger] c.keys@[i]) == x && (!f
                        || !c.keys@[i].deleted);
                if i < m - 1 {
                    assert(left.keys@[i] == c.keys@[i]);
                } else if i > m - 1 {
                    assert(right.keys@[i - m] == c.keys@[i]);
                }
            } else {
                let j = choose|j: int|
                    0 <= j < c.children@.len() && has(#[trigger] c.children@[j], x, f);
                if j < m {
                    assert(left.children@[j] == c.children@[j]);
                } else {
                    assert(right.children@[j - m] == c.children@[j]);
                }
            }
        }
        if has(left, x, f) {
            if exists|i: int|
                0 <= i < left.keys@.len() && kv(#[trigger] left.keys@[i]) == x && (!f
                    || !left.keys@[i].deleted) {
                let i = choose|i: int|
                    0 <= i < left.keys@.len() && kv(#[trigger] left.keys@[i]) == x && (!f
                        || !left.keys@[i].deleted);
                assert(left.keys@[i] == c.keys@[i]);
            } else {
                let j = choose|j: int|
                    0 <= j < left.children@.len() && has(#[trigger] left.children@[j], x, f);
                assert(left.children@[j] == c.children@[j]);
            }
        }
        if has(right, x, f) {
            if exists|i: int|
                0 <= i < right.keys@.len() && kv(#[trigger] right.keys@[i]) == x && (!f
                    || !right.keys@[i].deleted) {
                let i = choose|i: int|
                    0 <= i < right.keys@.len() && kv(#[trigger] right.keys@[i]) == x && (!f
                        || !right.keys@[i].deleted);
                assert(right.keys@[i] == c.keys@[i + m]);
            } else {
                let j = choose|j: int|
                    0 <= j < right.children@.len() && has(#[trigger] right.children@[j], x, f);
                assert(right.children@[j] == c.children@[j + m]);
            }
        }
        if kv(med) == x && (!f || !med.deleted) {
            assert(c.keys@[m - 1] == med);
        }
    }
}

/// Splits a full node around its middle key: the keys below it and their
/// children, the middle key, and the keys above it and their children.
fn split_node(
    c: Node,
    m: usize,
    Ghost(lo): Ghost<Option<KeyView>>,
    Ghost(hi): Ghost<Option<KeyView>>,
    Ghost(root): Ghost<bool>,
    Ghost(h): Ghost<nat>,
) -> (r: (Node, NodeKey, Node))
    requires
        wf_node(c, m as int, lo, hi, root, h),
        c.keys@.len() == 2 * m - 1,
    ensures
        wf_node(r.0, m as int, lo, Some(kv(r.1)), false, h),
        wf_node(r.2, m as int, Some(kv(r.1)), hi, false, h),
        lower_ok(lo, kv(r.1)),
        upper_ok(hi, kv(r.1)),
        r.0.keys@.len() == m - 1,
        r.2.keys@.len() == m - 1,
        r.0.leaf == c.leaf,
        r.2.leaf == c.leaf,
        r.0.keys@ == c.keys@.subrange(0, m - 1),
        r.1 == c.keys@[m - 1],
        r.2.keys@ == c.keys@.subrange(m as int, 2 * m - 1),
        !c.leaf ==> r.0.children@ == c.children@.subrange(0, m as int) && r.2.children@
            == c.children@.subrange(m as int, 2 * m),
        forall|x: KeyView, f: bool|
            has(c, x, f) <==> (has(r.0, x, f) || (kv(r.1) == x && (!f || !r.1.deleted)) || has(
                r.2,
                x,
                f,
            )),
{
    let ghost c0 = c;
    let mut c = c;
    let right_keys = c.keys.split_off(m);
    let med = c.keys.pop().unwrap();
    let right_children = if c.leaf {
        Vec::new()
    } else {
        c.children.split_off(m)
    };
    let left = Node { leaf: c.leaf, keys: c.keys, children: c.children, rebalance: c.rebalance };
    let right = Node { leaf: c.leaf, keys: right_keys, children: right_children, rebalance: false };
    proof {
        let mi = m as int;
        let mk = kv(med);
        assert(left.keys@ =~= c0.keys@.subrange(0, mi - 1));
        assert(med == c0.keys@[mi - 1]);
        if !c0.leaf {
            assert(left.children@ =~= c0.children@.subrange(0, mi));
        }
        lemma_split_has(c0, left, med, right, mi);
        assert(right.keys@ =~= c0.keys@.subrange(mi, 2 * mi - 1));
        if !c0.leaf {
            assert(right.children@ =~= c0.children@.subrange(mi, 2 * mi));
        }
        assert forall|i: int, j: int|
            0 <= i < j < left.keys@.len() implies key_lt(
            #[trigger] kv(left.keys@[i]),
            #[trigger] kv(left.keys@[j]),
        ) by {
            assert(left.keys@[i] == c0.keys@[i]);
            assert(left.keys@[j] == c0.keys@[j]);
        }
        assert forall|i: int| 0 <= i < left.keys@.len() implies lower_ok(
            lo,
            #[trigger] kv(left.keys@[i]),
        ) && upper_ok(Some(mk), kv(left.keys@[i])) by {
            assert(left.keys@[i] == c0.keys@[i]);
            assert(key_lt(kv(c0.keys@[i]), kv(c0.keys@[mi - 1])));
        }
        assert forall|i: int, j: int|
            0 <= i < j < right.keys@.len() implies key_lt(
            #[trigger] kv(right.keys@[i]),
            #[trigger] kv(right.keys@[j]),
        ) by {
            assert(right.keys@[i] == c0.keys@[i + mi]);
            assert(right.keys@[j] == c0.keys@[j + mi]);
        }
        assert forall|i: int| 0 <= i < right.keys@.len() implies lower_ok(
            Some(mk),
            #[trigger] kv(right.keys@[i]),
        ) && upper_ok(hi, kv(right.keys@[i])) by {
            assert(right.keys@[i] == c0.keys@[i + mi]);
            assert(key_lt(kv(c0.keys@[mi - 1]), kv(c0.keys@[i + mi])));
        }
        if !c0.leaf {
            assert forall|i: int| 0 <= i < left.children@.len() implies wf_node(
                #[trigger] left.children@[i],
                mi,
                child_lo(left, i, lo),
                child_hi(left, i, Some(mk)),
                false,
                (h - 1) as nat,
            ) by {
                assert(left.children@[i] == c0.children@[i]);
                assert(wf_node(
                    c0.children@[i],
                    mi,
                    child_lo(c0, i, lo),
                    child_hi(c0, i, hi),
                    false,
                    (h - 1) as nat,
                ));
                if i > 0 {
                    assert(left.keys@[i - 1] == c0.keys@[i - 1]);
                }
                if i < mi - 1 {
                    assert(left.keys@[i] == c0.keys@[i]);
                }
            }
            assert forall|i: int| 0 <= i < right.children@.len() implies wf_node(
                #[trigger] right.children@[i],
                mi,
                child_lo(right, i, Some(mk)),
                child_hi(right, i, hi),
                false,
                (h - 1) as nat,
            ) by {
                assert(right.children@[i] == c0.children@[i + mi]);
                assert(wf_node(
                    c0.children@[i + mi],
                    mi,
                    child_lo(c0, i + mi, lo),
                    child_hi(c0, i + mi, hi),
                    false,
                    (h - 1) as nat,
                ));
                if i > 0 {
                    assert(right.keys@[i - 1] == c0.keys@[i - 1 + mi]);
                }
                if i < mi - 1 {
                    assert(right.keys@[i] == c0.keys@[i + mi]);
                }
            }
        }
    }
    (left, med, right)
}

proof fn lemma_split_child_has(p: Node, pn: Node, i: int, l: Node, med: NodeKey, r: Node)
    requires
        0 <= i < p.children@.len(),
        i <= p.keys@.len(),
        pn.keys@ == p.keys@.insert(i, med),
        pn.children@ == p.children@.subrange(0, i) + seq![l, r] + p.children@.subrange(
            i + 1,
            p.children@.len() as int,
        ),
        i <= p.keys@.len(),
        forall|x: KeyView, f: bool|
            #[trigger] has(p.children@[i], x, f) <==> (has(l, x, f) || (kv(med) == x && (!f
                || !med.deleted)) || has(r, x, f)),
    ensures
        forall|x: KeyView, f: bool| has(pn, x, f) <==> has(p, x, f),
{
    assert forall|x: KeyView, f: bool| has(pn, x, f) <==> has(p, x, f) by {
        if has(p, x, f) {
            if exists|a: int|
                0 <= a < p.keys@.len() && kv(#[trigger] p.keys@[a]) == x && (!f
                    || !p.keys@[a].deleted) {
                let a = choose|a: int|
                    0 <= a < p.keys@.len() && kv(#[trigger] p.keys@[a]) == x && (!f
                        || !p.keys@[a].deleted);
                if a < i {
                    assert(pn.keys@[a] == p.keys@[a]);
                } else {
                    assert(pn.keys@[a + 1] == p.keys@[a]);
                }
            } else {
                let j = choose|j: int|
                    0 <= j < p.children@.len() && has(#[trigger] p.children@[j], x, f);
                if j < i {
                    assert(pn.children@[j] == p.children@[j]);
                } else if j == i {
                    assert(pn.children@[i] == l);
                    assert(pn.children@[i + 1] == r);
                    assert(pn.keys@[i] == med);
                } else {
                    assert(pn.children@[j + 1] == p.children@[j]);
                }
            }
        }
        if has(pn, x, f) {
            if exists|a: int|
                0 <= a < pn.keys@.len() && kv(#[trigger] pn.keys@[a]) == x && (!f
                    || !pn.keys@[a].deleted) {
                let a = choose|a: int|
                    0 <= a < pn.keys@.len() && kv(#[trigger] pn.keys@[a]) == x && (!f
                        || !pn.keys@[a].deleted);
                if a < i {
                    assert(pn.keys@[a] == p.keys@[a]);
                } else if a == i {
                    assert(p.keys@.insert(i, med)[i] == med);
                    assert(pn.keys@[a] == med);
                    assert(kv(med) == x && (!f || !med.deleted));
                    assert(has(p.children@[i], x, f));
                } else {
                    assert(pn.keys@[a] == p.keys@[a - 1]);
                }
            } else {
                let j = choose|j: int|
                    0 <= j < pn.children@.len() && has(#[trigger] pn.children@[j], x, f);
                if j < i {
                    assert(pn.children@[j] == p.children@[j]);
                } else if j == i {
                    assert(pn.children@[j] == l);
                    assert(has(p.children@[i], x, f));
                } else if j == i + 1 {
                    assert(pn.children@[j] == r);
                    assert(has(p.children@[i], x, f));
                } else {
                    assert(pn.children@[j] == p.children@[j - 1]);
                }
            }
        }
    }
}

/// Splits the full child `i` of a node that is not full: the child's middle
/// key moves up to position `i`, and its halves become children `i`, `i + 1`.
fn split_child(
    p: &mut Node,
    i: usize,
    m: usize,
    Ghost(lo): Ghost<Option<KeyView>>,
    Ghost(hi): Ghost<Option<KeyView>>,
    Ghost(root): Ghost<bool>,
    Ghost(h): Ghost<nat>,
)
    requires
        wf_node(*old(p), m as int, lo, hi, root, h),
        !old(p).leaf,
        i < old(p).children@.len(),
        old(p).children@[i as int].keys@.len() == 2 * m - 1,
        old(p).keys@.len() < 2 * m - 1,
    ensures
        wf_node(*final(p), m as int, lo, hi, root, h),
        !final(p).leaf,
        final(p).keys@ == old(p).keys@.insert(i as int, final(p).keys@[i as int]),
        final(p).children@.len() == old(p).children@.len() + 1,
        final(p).children@[i as int].keys@.len() == m - 1,
        final(p).children@[i + 1].keys@.len() == m - 1,
        final(p).keys@[i as int] == old(p).children@[i as int].keys@[m - 1],
        final(p).children@[i as int].keys@ == old(p).children@[i as int].keys@.subrange(0, m - 1),
        final(p).children@[i + 1].keys@ == old(p).children@[i as int].keys@.subrange(m as int, 2 * m - 1),
        final(p).children@[i as int].leaf == old(p).children@[i as int].leaf,
        final(p).children@[i + 1].leaf == old(p).children@[i as int].leaf,
        !old(p).children@[i as int].leaf ==> final(p).children@[i as int].children@
            == old(p).children@[i as int].children@.subrange(0, m as int) && final(p).children@[i + 1].children@
            == old(p).children@[i as int].children@.subrange(m as int, 2 * m),
        final(p).children@ == old(p).children@.subrange(0, i as int) + seq![
            final(p).children@[i as int],
            final(p).children@[i + 1],
        ] + old(p).children@.subrange(i + 1, old(p).children@.len() as int),
        forall|x: KeyView, f: bool| has(*final(p), x, f) <==> has(*old(p), x, f),
{
    let ghost p0 = *p;
    let ghost ii = i as int;
    let ghost mi = m as int;
    let ghost clo = child_lo(p0, ii, lo);
    let ghost chi = child_hi(p0, ii, hi);
    let ghost hc = (h - 1) as nat;
    assert(wf_node(p0.children@[ii], mi, clo, chi, false, hc));
    let c = p.children.remove(i);
    let (l, med, r) = split_node(c, m, Ghost(clo), Ghost(chi), Ghost(false), Ghost(hc));
    p.keys.insert(i, med);
    p.children.insert(i, r);
    p.children.insert(i, l);
    proof {
        let pn = *p;
        let mk = kv(med);
        assert(pn.children@ =~= p0.children@.subrange(0, ii) + seq![l, r] + p0.children@.subrange(
            ii + 1,
            p0.children@.len() as int,
        ));
        lemma_split_child_has(p0, pn, ii, l, med, r);
        assert(pn.keys@[ii] == med);
        // the middle key lies between its new neighbours
        assert forall|j: int| 0 <= j < p0.keys@.len() implies (j < ii ==> key_lt(
            kv(#[trigger] p0.keys@[j]),
            mk,
        )) && (j >= ii ==> key_lt(mk, kv(p0.keys@[j]))) by {
            if j < ii - 1 {
                lemma_key_cmp(kv(p0.keys@[j]), kv(p0.keys@[ii - 1]), mk);
            }
            if j > ii {
                lemma_key_cmp(mk, kv(p0.keys@[ii]), kv(p0.keys@[j]));
            }
        }
        assert forall|a: int, b: int|
            0 <= a < b < pn.keys@.len() implies key_lt(
            #[trigger] kv(pn.keys@[a]),
            #[trigger] kv(pn.keys@[b]),
        ) by {
            if a < ii && b < ii {
                assert(pn.keys@[a] == p0.keys@[a] && pn.keys@[b] == p0.keys@[b]);
            } else if a < ii && b == ii {
                assert(pn.keys@[a] == p0.keys@[a]);
            } else if a < ii {
                assert(pn.keys@[a] == p0.keys@[a] && pn.keys@[b] == p0.keys@[b - 1]);
            } else if a == ii {
                assert(pn.keys@[b] == p0.keys@[b - 1]);
            } else {
                assert(pn.keys@[a] == p0.keys@[a - 1] && pn.keys@[b] == p0.keys@[b - 1]);
            }
        }
        assert forall|a: int| 0 <= a < pn.keys@.len() implies lower_ok(
            lo,
            #[trigger] kv(pn.keys@[a]),
        ) && upper_ok(hi, kv(pn.keys@[a])) by {
            if a < ii {
                assert(pn.keys@[a] == p0.keys@[a]);
            } else if a == ii {
                if ii > 0 {
                    if let Some(lv) = lo {
                        lemma_key_cmp(lv, kv(p0.keys@[ii - 1]), mk);
                    }
                }
                if ii < p0.keys@.len() {
                    if let Some(hv) = hi {
                        lemma_key_cmp(mk, kv(p0.keys@[ii]), hv);
                    }
                }
            } else {
                assert(pn.keys@[a] == p0.keys@[a - 1]);
            }
        }
        assert forall|j: int| 0 <= j < pn.children@.len() implies wf_node(
            #[trigger] pn.children@[j],
            mi,
            child_lo(pn, j, lo),
            child_hi(pn, j, hi),
            false,
            (h - 1) as nat,
        ) by {
            if j < ii {
                assert(pn.children@[j] == p0.children@[j]);
                assert(wf_node(
                    p0.children@[j],
                    mi,
                    child_lo(p0, j, lo),
                    child_hi(p0, j, hi),
                    false,
                    (h - 1) as nat,
                ));
                if j > 0 {
                    assert(pn.keys@[j - 1] == p0.keys@[j - 1]);
                }
                assert(pn.keys@[j] == p0.keys@[j]);
            } else if j == ii {
                if j > 0 {
                    assert(pn.keys@[j - 1] == p0.keys@[j - 1]);
                }
            } else if j == ii + 1 {
                if j < pn.keys@.len() {
                    assert(pn.keys@[j] == p0.keys@[j - 1]);
                }
            } else {
                assert(pn.children@[j] == p0.children@[j - 1]);
                assert(wf_node(
                    p0.children@[j - 1],
                    mi,
                    child_lo(p0, j - 1, lo),
                    child_hi(p0, j - 1, hi),
                    false,
                    (h - 1) as nat,
                ));
                assert(pn.keys@[j - 1] == p0.keys@[j - 2]);
                if j < pn.keys@.len() {
                    assert(pn.keys@[j] == p0.keys@[j - 1]);
                }
            }
        }
        assert(pn.keys@ =~= p0.keys@.insert(ii, pn.keys@[ii]));
    }
}

proof fn lemma_replace_child(
    n: Node,
    n2: Node,
    i: int,
    k: KeyView,
    m: int,
    lo: Option<KeyView>,
    hi: Option<KeyView>,
    root: bool,
    h: nat,
)
    requires
        wf_node(n, m, lo, hi, root, h),
        !n.leaf,
        0 <= i < n.children@.len(),
        n2.leaf == n.leaf,
        n2.keys@ == n.keys@,
        n2.children@ == n.children@.update(i, n2.children@[i]),
        wf_node(n2.children@[i], m, child_lo(n, i, lo), child_hi(n, i, hi), false, (h - 1) as nat),
        forall|x: KeyView, f: bool|
            #[trigger] has(n2.children@[i], x, f) <==> (has(n.children@[i], x, f) || x == k),
    ensures
        wf_node(n2, m, lo, hi, root, h),
        forall|x: KeyView, f: bool| has(n2, x, f) <==> (has(n, x, f) || x == k),
{
    assert forall|j: int| 0 <= j < n2.children@.len() implies wf_node(
        #[trigger] n2.children@[j],
        m,
        child_lo(n2, j, lo),
        child_hi(n2, j, hi),
        false,
        (h - 1) as nat,
    ) by {
        if j != i {
            assert(n2.children@[j] == n.children@[j]);
        }
    }
    assert forall|x: KeyView, f: bool| has(n2, x, f) <==> (has(n, x, f) || x == k) by {
        if x == k {
            assert(has(n2.children@[i], x, f));
        }
        if has(n, x, f) {
            if !(exists|a: int|
                0 <= a < n.keys@.len() && kv(#[trigger] n.keys@[a]) == x && (!f
                    || !n.keys@[a].deleted)) {
                let j = choose|j: int|
                    0 <= j < n.children@.len() && has(#[trigger] n.children@[j], x, f);
                if j == i {
                    assert(has(n2.children@[i], x, f));
                } else {
                    assert(n2.children@[j] == n.children@[j]);
                }
            }
        }
        if has(n2, x, f) {
            if !(exists|a: int|
                0 <= a < n2.keys@.len() && kv(#[trigger] n2.keys@[a]) == x && (!f
                    || !n2.keys@[a].deleted)) {
                let j = choose|j: int|
                    0 <= j < n2.children@.len() && has(#[trigger] n2.children@[j], x, f);
                if j != i {
                    assert(n2.children@[j] == n.children@[j]);
                }
            }
        }
    }
}

proof fn lemma_revive_key(
    n: Node,
    n2: Node,
    i: int,
    m: int,
    lo: Option<KeyView>,
    hi: Option<KeyView>,
    root: bool,
    h: nat,
)
    requires
        wf_node(n, m, lo, hi, root, h),
        0 <= i < n.keys@.len(),
        n2.leaf == n.leaf,
        n2.children@ == n.children@,
        n2.keys@ == n.keys@.update(i, n2.keys@[i]),
        kv(n2.keys@[i]) == kv(n.keys@[i]),
        !n2.keys@[i].deleted,
    ensures
        wf_node(n2, m, lo, hi, root, h),
        forall|x: KeyView, f: bool| has(n2, x, f) <==> (has(n, x, f) || x == kv(n.keys@[i])),
{
    let k = kv(n.keys@[i]);
    assert forall|a: int| 0 <= a < n2.keys@.len() implies kv(#[trigger] n2.keys@[a]) == kv(
        n.keys@[a],
    ) by {}
    assert forall|a: int, b: int|
        0 <= a < b < n2.keys@.len() implies key_lt(
        #[trigger] kv(n2.keys@[a]),
        #[trigger] kv(n2.keys@[b]),
    ) by {
        assert(kv(n2.keys@[a]) == kv(n.keys@[a]) && kv(n2.keys@[b]) == kv(n.keys@[b]));
    }
    assert forall|a: int| 0 <= a < n2.keys@.len() implies lower_ok(
        lo,
        #[trigger] kv(n2.keys@[a]),
    ) && upper_ok(hi, kv(n2.keys@[a])) by {
        assert(kv(n2.keys@[a]) == kv(n.keys@[a]));
    }
    if !n.leaf {
        assert forall|j: int| 0 <= j < n2.children@.len() implies wf_node(
            #[trigger] n2.children@[j],
            m,
            child_lo(n2, j, lo),
            child_hi(n2, j, hi),
            false,
            (h - 1) as nat,
        ) by {
            assert(n2.children@[j] == n.children@[j]);
            if j > 0 {
                assert(kv(n2.keys@[j - 1]) == kv(n.keys@[j - 1]));
            }
            if j < n2.keys@.len() {
                assert(kv(n2.keys@[j]) == kv(n.keys@[j]));
            }
        }
    }
    assert forall|x: KeyView, f: bool| has(n2, x, f) <==> (has(n, x, f) || x == k) by {
        if x == k {
            assert(kv(n2.keys@[i]) == x);
        }
        if has(n, x, f) && x != k {
            if exists|a: int|
                0 <= a < n.keys@.len() && kv(#[trigger] n.keys@[a]) == x && (!f
                    || !n.keys@[a].deleted) {
                let a = choose|a: int|
                    0 <= a < n.keys@.len() && kv(#[trigger] n.keys@[a]) == x && (!f
                        || !n.keys@[a].deleted);
                assert(n2.keys@[a] == n.keys@[a]);
            } else {
                let j = choose|j: int|
                    0 <= j < n.children@.len() && has(#[trigger] n.children@[j], x, f);
                assert(n2.children@[j] == n.children@[j]);
            }
        }
        if has(n2, x, f) && x != k {
            if exists|a: int|
                0 <= a < n2.keys@.len() && kv(#[trigger] n2.keys@[a]) == x && (!f
                    || !n2.keys@[a].deleted) {
                let a = choose|a: int|
                    0 <= a < n2.keys@.len() && kv(#[trigger] n2.keys@[a]) == x && (!f
                        || !n2.keys@[a].deleted);
                assert(n2.keys@[a] == n.keys@[a]);
            } else {
                let j = choose|j: int|
                    0 <= j < n2.children@.len() && has(#[trigger] n2.children@[j], x, f);
                assert(n2.children@[j] == n.children@[j]);
            }
        }
    }
}

proof fn lemma_leaf_insert(
    n: Node,
    n2: Node,
    i: int,
    m: int,
    lo: Option<KeyView>,
    hi: Option<KeyView>,
    root: bool,
)
    requires
        wf_node(n, m, lo, hi, root, 0),
        n.leaf,
        n.keys@.len() < 2 * m - 1,
        0 <= i <= n.keys@.len(),
        n2.leaf,
        n2.children@.len() == 0,
        n2.keys@ == n.keys@.insert(i, n2.keys@[i]),
        !n2.keys@[i].deleted,
        lower_ok(lo, kv(n2.keys@[i])),
        upper_ok(hi, kv(n2.keys@[i])),
        forall|j: int| 0 <= j < i ==> key_lt(#[trigger] kv(n.keys@[j]), kv(n2.keys@[i])),
        i < n.keys@.len() ==> key_lt(kv(n2.keys@[i]), kv(n.keys@[i])),
    ensures
        wf_node(n2, m, lo, hi, root, 0),
        forall|x: KeyView, f: bool| has(n2, x, f) <==> (has(n, x, f) || x == kv(n2.keys@[i])),
{
    let k = kv(n2.keys@[i]);
    assert forall|a: int, b: int|
        0 <= a < b < n2.keys@.len() implies key_lt(
        #[trigger] kv(n2.keys@[a]),
        #[trigger] kv(n2.keys@[b]),
    ) by {
        if a < i && b < i {
            assert(n2.keys@[a] == n.keys@[a] && n2.keys@[b] == n.keys@[b]);
        } else if a < i && b == i {
            assert(n2.keys@[a] == n.keys@[a]);
        } else if a < i {
            assert(n2.keys@[a] == n.keys@[a] && n2.keys@[b] == n.keys@[b - 1]);
        } else if a == i {
            assert(n2.keys@[b] == n.keys@[b - 1]);
            if b - 1 > i {
                lemma_key_cmp(k, kv(n.keys@[i]), kv(n.keys@[b - 1]));
            }
        } else {
            assert(n2.keys@[a] == n.keys@[a - 1] && n2.keys@[b] == n.keys@[b - 1]);
        }
    }
    assert forall|a: int| 0 <= a < n2.keys@.len() implies lower_ok(
        lo,
        #[trigger] kv(n2.keys@[a]),
    ) && upper_ok(hi, kv(n2.keys@[a])) by {
        if a < i {
            assert(n2.keys@[a] == n.keys@[a]);
        } else if a > i {
            assert(n2.keys@[a] == n.keys@[a - 1]);
        }
    }
    assert forall|x: KeyView, f: bool| has(n2, x, f) <==> (has(n, x, f) || x == k) by {
        if x == k {
            assert(kv(n2.keys@[i]) == x);
        }
        if has(n, x, f) {
            let a = choose|a: int|
                0 <= a < n.keys@.len() && kv(#[trigger] n.keys@[a]) == x && (!f
                    || !n.keys@[a].deleted);
            if a < i {
                assert(n2.keys@[a] == n.keys@[a]);
            } else {
                assert(n2.keys@[a + 1] == n.keys@[a]);
            }
        }
        if has(n2, x, f) && x != k {
            let a = choose|a: int|
                0 <= a < n2.keys@.len() && kv(#[trigger] n2.keys@[a]) == x && (!f
                    || !n2.keys@[a].deleted);
            if a < i {
                assert(n2.keys@[a] == n.keys@[a]);
            } else if a > i {
                assert(n2.keys@[a] == n.keys@[a - 1]);
            }
        }
    }
}

/// The first position in a node whose key is not below `key`.
fn find_slot(keys: &Vec<NodeKey>, key: &Vec<Value>) -> (r: usize)
    ensures
        r <= keys@.len(),
        forall|j: int| 0 <= j < r ==> key_lt(#[trigger] kv(keys@[j]), values_view(key@)),
        r < keys@.len() ==> key_cmp(kv(keys@[r as int]), values_view(key@)) >= 0,
{
    let mut i: usize = 0;
    while i < keys.len()
        invariant
            i <= keys@.len(),
            forall|j: int| 0 <= j < i ==> key_lt(#[trigger] kv(keys@[j]), values_view(key@)),
        decreases keys@.len() - i,
    {
        if compare_key(&keys[i].value, key) >= 0 {
            return i;
        }
        i = i + 1;
    }
    i
}

/// Clears the tombstone of key `i` of a node.
fn revive(n: &mut Node, i: usize)
    requires
        i < old(n).keys@.len(),
    ensures
        final(n).leaf == old(n).leaf,
        final(n).children@ == old(n).children@,
        final(n).keys@ == old(n).keys@.update(i as int, final(n).keys@[i as int]),
        kv(final(n).keys@[i as int]) == kv(old(n).keys@[i as int]),
        !final(n).keys@[i as int].deleted,
{
    let mut k = n.keys.remove(i);
    k.deleted = false;
    n.keys.insert(i, k);
    proof {
        assert(n.keys@ =~= old(n).keys@.update(i as int, n.keys@[i as int]));
    }
}

/// Inserts `key` into a subtree whose root is not full, splitting full
/// children on the way down. A key already present is revived.
#[verifier::rlimit(50)]
fn insert_nonfull(
    n: &mut Node,
    key: Vec<Value>,
    m: usize,
    Ghost(lo): Ghost<Option<KeyView>>,
    Ghost(hi): Ghost<Option<KeyView>>,
    Ghost(root): Ghost<bool>,
    Ghost(h): Ghost<nat>,
)
    requires
        wf_node(*old(n), m as int, lo, hi, root, h),
        old(n).keys@.len() < 2 * m - 1,
        lower_ok(lo, values_view(key@)),
        upper_ok(hi, values_view(key@)),
    ensures
        wf_node(*final(n), m as int, lo, hi, root, h),
        forall|x: KeyView, f: bool|
            has(*final(n), x, f) <==> (has(*old(n), x, f) || x == values_view(key@)),
    decreases h,
{
    let ghost n0 = *n;
    let ghost k = values_view(key@);
    let mut i = find_slot(&n.keys, &key);
    if i < n.keys.len() && compare_key(&n.keys[i].value, &key) == 0 {
        proof {
            lemma_key_cmp(kv(n0.keys@[i as int]), k, k);
        }
        revive(n, i);
        proof {
            lemma_revive_key(n0, *n, i as int, m as int, lo, hi, root, h);
        }
        return;
    }
    proof {
        if i < n0.keys@.len() {
            lemma_key_cmp(kv(n0.keys@[i as int]), k, k);
        }
    }
    if n.leaf {
        n.keys.insert(i, NodeKey { value: key, deleted: false });
        proof {
            lemma_leaf_insert(n0, *n, i as int, m as int, lo, hi, root);
        }
        return;
    }
    let ghost mut n1 = *n;
    if n.children[i].keys.len() >= m && n.children[i].keys.len() - m == m - 1 {
        split_child(n, i, m, Ghost(lo), Ghost(hi), Ghost(root), Ghost(h));
        proof {
            n1 = *n;
        }
        let c = compare_key(&key, &n.keys[i].value);
        proof {
            let ii = i as int;
            lemma_key_cmp(k, kv(n1.keys@[ii]), k);
            if ii < n0.keys@.len() {
                assert(n1.keys@[ii + 1] == n0.keys@[ii]);
            }
            if ii > 0 {
                assert(n1.keys@[ii - 1] == n0.keys@[ii - 1]);
            }
        }
        if c == 0 {
            revive(n, i);
            proof {
                lemma_revive_key(n1, *n, i as int, m as int, lo, hi, root, h);
            }
            return;
        }
        if c > 0 {
            i = i + 1;
        }
    }
    let ghost clo = child_lo(n1, i as int, lo);
    let ghost chi = child_hi(n1, i as int, hi);
    let ghost hc = (h - 1) as nat;
    assert(wf_node(n1.children@[i as int], m as int, clo, chi, false, hc));
    let mut child = n.children.remove(i);
    insert_nonfull(&mut child, key, m, Ghost(clo), Ghost(chi), Ghost(false), Ghost(hc));
    n.children.insert(i, child);
    proof {
        assert(n.children@ =~= n1.children@.update(i as int, n.children@[i as int]));
        lemma_replace_child(n1, *n, i as int, k, m as int, lo, hi, root, h);
    }
}

proof fn lemma_new_root_has(l: Node, med: NodeKey, r: Node, nr: Node)
    requires
        nr.keys@ == seq![med],
        nr.children@ == seq![l, r],
    ensures
        forall|x: KeyView, f: bool|
            has(nr, x, f) <==> (has(l, x, f) || (kv(med) == x && (!f || !med.deleted)) || has(
                r,
                x,
                f,
            )),
{
    assert forall|x: KeyView, f: bool|
        has(nr, x, f) <==> (has(l, x, f) || (kv(med) == x && (!f || !med.deleted)) || has(
            r,
            x,
            f,
        )) by {
        if has(l, x, f) {
            assert(nr.children@[0] == l);
        }
        if has(r, x, f) {
            assert(nr.children@[1] == r);
        }
        if kv(med) == x && (!f || !med.deleted) {
            assert(nr.keys@[0] == med);
        }
    }
}

/// Inserts `key` into the tree rooted at `root`, of order `m` and height
/// `h`; a full root is split first, and the tree grows by one level.
/// Returns the new root and its height.
pub(crate) fn insert_at_root(root: Node, key: Vec<Value>, m: usize, Ghost(h): Ghost<nat>) -> (r: (
    Node,
    Ghost<nat>,
))
    requires
        wf_node(root, m as int, None, None, true, h),
    ensures
        wf_node(r.0, m as int, None, None, true, r.1@),
        forall|x: KeyView, f: bool| has(r.0, x, f) <==> (has(root, x, f) || x == values_view(key@)),
{
    if root.keys.len() >= m && root.keys.len() - m == m - 1 {
        let ghost r0 = root;
        let (l, med, r) = split_node(root, m, Ghost(None), Ghost(None), Ghost(true), Ghost(h));
        let mut keys: Vec<NodeKey> = Vec::new();
        keys.push(med);
        let mut children: Vec<Node> = Vec::new();
        children.push(l);
        children.push(r);
        let mut nr = Node { leaf: false, keys, children, rebalance: false };
        proof {
            assert(nr.keys@ =~= seq![med]);
            assert(nr.children@ =~= seq![l, r]);
            lemma_new_root_has(l, med, r, nr);
            assert(nr.children@[0] == l && nr.children@[1] == r);
            assert(wf_node(nr, m as int, None, None, true, h + 1));
        }
        insert_nonfull(&mut nr, key, m, Ghost(None), Ghost(None), Ghost(true), Ghost(h + 1));
        (nr, Ghost(h + 1))
    } else {
        let mut root = root;
        insert_nonfull(&mut root, key, m, Ghost(None), Ghost(None), Ghost(true), Ghost(h));
        (root, Ghost(h))
    }
}

/// Keys in strictly increasing collation order.
pub open spec fn sorted_keys(s: Seq<KeyView>) -> bool {
    forall|i: int, j: int| 0 <= i < j < s.len() ==> key_lt(#[trigger] s[i], #[trigger] s[j])
}

/// Whether key `x` occurs live as key `j` of the node or in its child `j`.
pub open spec fn live_at(n: Node, j: int, x: KeyView) -> bool {
    (j < n.keys@.len() && kv(n.keys@[j]) == x && !n.keys@[j].deleted) || (j < n.children@.len()
        && has(n.children@[j], x, true))
}

/// Whether key `x` occurs live among the first `i` keys and children.
pub open spec fn live_prefix(n: Node, i: int, x: KeyView) -> bool {
    exists|j: int| 0 <= j < i && #[trigger] live_at(n, j, x)
}

proof fn lemma_live_prefix_step(n: Node, i: int)
    requires
        0 <= i,
    ensures
        forall|x: KeyView| live_prefix(n, i + 1, x) <==> (live_prefix(n, i, x) || live_at(n, i, x)),
{
    assert forall|x: KeyView| live_prefix(n, i + 1, x) <==> (live_prefix(n, i, x) || live_at(n, i, x)) by {
        if live_prefix(n, i + 1, x) {
            let j = choose|j: int| 0 <= j < i + 1 && #[trigger] live_at(n, j, x);
            if j < i {
            }
        }
        if live_at(n, i, x) {
            assert(live_at(n, i, x));
        }
    }
}

proof fn lemma_live_prefix_all(n: Node)
    requires
        n.children@.len() <= n.keys@.len() + 1,
    ensures
        forall|x: KeyView| live_prefix(n, n.keys@.len() as int + 1, x) <==> has(n, x, true),
{
    assert forall|x: KeyView| live_prefix(n, n.keys@.len() as int + 1, x) <==> has(n, x, true) by {
        if has(n, x, true) {
            if exists|a: int|
                0 <= a < n.keys@.len() && kv(#[trigger] n.keys@[a]) == x && (!true
                    || !n.keys@[a].deleted) {
                let a = choose|a: int|
                    0 <= a < n.keys@.len() && kv(#[trigger] n.keys@[a]) == x && (!true
                        || !n.keys@[a].deleted);
                assert(live_at(n, a, x));
            } else {
                let j = choose|j: int|
                    0 <= j < n.children@.len() && has(#[trigger] n.children@[j], x, true);
                assert(live_at(n, j, x));
            }
        }
        if live_prefix(n, n.keys@.len() as int + 1, x) {
            let j = choose|j: int| 0 <= j < n.keys@.len() + 1 && #[trigger] live_at(n, j, x);
            if j < n.keys@.len() && kv(n.keys@[j]) == x && !n.keys@[j].deleted {
            } else {
                assert(has(n.children@[j], x, true));
            }
        }
    }
}

proof fn lemma_append_sorted(a: Seq<KeyView>, b: Seq<KeyView>, pivot: Option<KeyView>)
    requires
        sorted_keys(a),
        sorted_keys(b),
        pivot is None ==> a.len() == 0,
        forall|t: int| 0 <= t < a.len() ==> key_cmp(#[trigger] a[t], pivot->Some_0) <= 0,
        forall|t: int| 0 <= t < b.len() ==> lower_ok(pivot, #[trigger] b[t]),
    ensures
        sorted_keys(a + b),
{
    let c = a + b;
    assert forall|i: int, j: int| 0 <= i < j < c.len() implies key_lt(
        #[trigger] c[i],
        #[trigger] c[j],
    ) by {
        if j < a.len() {
        } else if i >= a.len() {
            assert(c[i] == b[i - a.len()] && c[j] == b[j - a.len()]);
        } else {
            let p = pivot->Some_0;
            assert(c[i] == a[i] && c[j] == b[j - a.len()]);
            assert(lower_ok(pivot, b[j - a.len()]));
            lemma_key_cmp(a[i], p, b[j - a.len()]);
            lemma_key_cmp(a[i], p, p);
        }
    }
}

proof fn lemma_keys_view_append(a: Seq<Key>, b: Seq<Key>)
    ensures
        keys_view(a + b) == keys_view(a) + keys_view(b),
{
    assert(keys_view(a + b) =~= keys_view(a) + keys_view(b));
}

proof fn lemma_keys_view_push(a: Seq<Key>, k: Key)
    ensures
        keys_view(a.push(k)) == keys_view(a).push(values_view(k@)),
{
    assert(keys_view(a.push(k)) =~= keys_view(a).push(values_view(k@)));
}

/// A child to the left of the first key at or above the lower bounds, or to
/// the right of the first key beyond the upper bounds, holds no key of the
/// range.
proof fn lemma_pruned_child(
    n: Node,
    m: int,
    lo: Option<KeyView>,
    hi: Option<KeyView>,
    root: bool,
    h: nat,
    range: RangeView,
    w: int,
    l: int,
    r: int,
    i: int,
)
    requires
        wf_node(n, m, lo, hi, root, h),
        !n.leaf,
        0 <= i <= n.keys@.len(),
        forall|x: KeyView| #[trigger] has(n, x, false) ==> x.len() == w,
        0 <= l <= n.keys@.len(),
        0 <= r <= n.keys@.len(),
        forall|j: int| 0 <= j < l ==> !above_lower(#[trigger] kv(n.keys@[j]), range.start),
        r < n.keys@.len() ==> !below_upper(kv(n.keys@[r]), range.end),
        i < l || i > r,
    ensures
        forall|x: KeyView| has(n.children@[i], x, true) ==> !range.contains(x),
{
    assert forall|x: KeyView| has(n.children@[i], x, true) implies !range.contains(x) by {
        crate::btree_file::lemma_live_stored(n.children@[i], x);
        assert(has(n, x, false));
        if i < l {
            lemma_key_child_order(n, m, lo, hi, root, h, i, x, true);
            assert(has(n, kv(n.keys@[i]), false));
            crate::range::lemma_bounds_monotone(x, kv(n.keys@[i]), range.start, range.end);
        } else {
            lemma_key_child_order(n, m, lo, hi, root, h, i - 1, x, true);
            assert(has(n, kv(n.keys@[i - 1]), false));
            assert(has(n, kv(n.keys@[r]), false));
            lemma_key_cmp(kv(n.keys@[r]), kv(n.keys@[i - 1]), x);
            lemma_key_cmp(kv(n.keys@[r]), kv(n.keys@[r]), kv(n.keys@[r]));
            crate::range::lemma_bounds_monotone(kv(n.keys@[r]), kv(n.keys@[i - 1]), range.start, range.end);
            crate::range::lemma_bounds_monotone(kv(n.keys@[i - 1]), x, range.start, range.end);
        }
    }
}

/// The first key of a node at or above the lower bounds.
fn first_above(keys: &Vec<NodeKey>, lower: &Vec<Bound>) -> (r: usize)
    ensures
        r <= keys@.len(),
        forall|j: int| 0 <= j < r ==> !above_lower(#[trigger] kv(keys@[j]), bounds_view(lower@)),
        r < keys@.len() ==> above_lower(kv(keys@[r as int]), bounds_view(lower@)),
{
    let mut i: usize = 0;
    while i < keys.len()
        invariant
            i <= keys@.len(),
            forall|j: int| 0 <= j < i ==> !above_lower(#[trigger] kv(keys@[j]), bounds_view(lower@)),
        decreases keys@.len() - i,
    {
        if is_above_lower(&keys[i].value, lower) {
            return i;
        }
        i = i + 1;
    }
    i
}

/// The first key of a node beyond the upper bounds.
fn first_beyond(keys: &Vec<NodeKey>, upper: &Vec<Bound>) -> (r: usize)
    ensures
        r <= keys@.len(),
        forall|j: int| 0 <= j < r ==> below_upper(#[trigger] kv(keys@[j]), bounds_view(upper@)),
        r < keys@.len() ==> !below_upper(kv(keys@[r as int]), bounds_view(upper@)),
{
    let mut i: usize = 0;
    while i < keys.len()
        invariant
            i <= keys@.len(),
            forall|j: int| 0 <= j < i ==> below_upper(#[trigger] kv(keys@[j]), bounds_view(upper@)),
        decreases keys@.len() - i,
    {
        if !is_below_upper(&keys[i].value, upper) {
            return i;
        }
        i = i + 1;
    }
    i
}

/// The live keys of a subtree that lie in `range`, in collation order.
pub(crate) fn collect(
    n: &Node,
    range: &BTreeRange,
    m: usize,
    Ghost(lo): Ghost<Option<KeyView>>,
    Ghost(hi): Ghost<Option<KeyView>>,
    Ghost(root): Ghost<bool>,
    Ghost(h): Ghost<nat>,
    Ghost(w): Ghost<int>,
) -> (r: Vec<Key>)
    requires
        wf_node(*n, m as int, lo, hi, root, h),
        forall|x: KeyView| #[trigger] has(*n, x, false) ==> x.len() == w,
    ensures
        sorted_keys(keys_view(r@)),
        forall|t: int|
            0 <= t < r@.len() ==> lower_ok(lo, #[trigger] keys_view(r@)[t]) && upper_ok(
                hi,
                keys_view(r@)[t],
            ),
        forall|x: KeyView| keys_view(r@).contains(x) <==> (has(*n, x, true) && range@.contains(x)),
    decreases h,
{
    let l = first_above(&n.keys, &range.start);
    let r = first_beyond(&n.keys, &range.end);
    let mut out: Vec<Key> = Vec::new();
    let mut i: usize = 0;
    while i < n.keys.len()
        invariant
            wf_node(*n, m as int, lo, hi, root, h),
            forall|x: KeyView| #[trigger] has(*n, x, false) ==> x.len() == w,
            l <= n.keys@.len(),
            r <= n.keys@.len(),
            forall|j: int| 0 <= j < l ==> !above_lower(#[trigger] kv(n.keys@[j]), range@.start),
            r < n.keys@.len() ==> !below_upper(kv(n.keys@[r as int]), range@.end),
            i <= n.keys@.len(),
            i == 0 ==> out@.len() == 0,
            sorted_keys(keys_view(out@)),
            forall|t: int|
                0 <= t < out@.len() ==> lower_ok(lo, #[trigger] keys_view(out@)[t]) && key_cmp(
                    keys_view(out@)[t],
                    kv(n.keys@[i - 1]),
                ) <= 0,
            forall|x: KeyView|
                keys_view(out@).contains(x) <==> (live_prefix(*n, i as int, x) && range@.contains(x)),
        decreases n.keys@.len() - i,
    {
        let ghost ii = i as int;
        let ghost ov = keys_view(out@);
        let ghost ki = kv(n.keys@[ii]);
        proof {
            lemma_live_prefix_step(*n, ii);
        }
        if !n.leaf && l <= i && i <= r {
            let ghost clo = child_lo(*n, ii, lo);
            let ghost chi = child_hi(*n, ii, hi);
            assert(wf_node(n.children@[ii], m as int, clo, chi, false, (h - 1) as nat));
            proof {
                assert forall|x: KeyView| #[trigger] has(n.children@[ii], x, false) implies x.len() == w by {
                    assert(has(*n, x, false));
                }
            }
            let mut c = collect(&n.children[i], range, m, Ghost(clo), Ghost(chi), Ghost(false), Ghost((h - 1) as nat), Ghost(w));
            let ghost cv = keys_view(c@);
            proof {
                lemma_keys_view_append(out@, c@);
                let pivot = if ii == 0 { None } else { Some(kv(n.keys@[ii - 1])) };
                assert forall|t: int| 0 <= t < cv.len() implies lower_ok(pivot, #[trigger] cv[t]) by {
                    assert(lower_ok(clo, cv[t]));
                }
                lemma_append_sorted(ov, cv, pivot);
            }
            out.append(&mut c);
            proof {
                let nv = keys_view(out@);
                assert(nv == ov + cv);
                assert forall|t: int| 0 <= t < nv.len() implies lower_ok(lo, #[trigger] nv[t]) && key_cmp(nv[t], ki) < 0 by {
                    if t < ov.len() {
                        assert(nv[t] == ov[t]);
                        lemma_key_cmp(ov[t], kv(n.keys@[ii - 1]), ki);
                        lemma_key_cmp(ov[t], kv(n.keys@[ii - 1]), kv(n.keys@[ii - 1]));
                    } else {
                        assert(nv[t] == cv[t - ov.len()]);
                        assert(lower_ok(clo, cv[t - ov.len()]) && upper_ok(chi, cv[t - ov.len()]));
                        if ii > 0 {
                            if let Some(lv) = lo {
                                lemma_key_cmp(lv, kv(n.keys@[ii - 1]), cv[t - ov.len()]);
                            }
                        }
                    }
                }
                assert forall|x: KeyView| nv.contains(x) <==> ((live_prefix(*n, ii, x) || (ii < n.children@.len() && has(n.children@[ii], x, true))) && range@.contains(x)) by {
                    if nv.contains(x) {
                        let t = choose|t: int| 0 <= t < nv.len() && nv[t] == x;
                        if t < ov.len() {
                            assert(ov.contains(x));
                        } else {
                            assert(cv.contains(x));
                        }
                    }
                    if live_prefix(*n, ii, x) && range@.contains(x) {
                        let t = choose|t: int| 0 <= t < ov.len() && ov[t] == x;
                        assert(nv[t] == x);
                    }
                    if ii < n.children@.len() && has(n.children@[ii], x, true) && range@.contains(x) {
                        let t = choose|t: int| 0 <= t < cv.len() && cv[t] == x;
                        assert(nv[t + ov.len()] == x);
                    }
                }
            }
        } else {
            proof {
                if !n.leaf {
                    lemma_pruned_child(*n, m as int, lo, hi, root, h, range@, w, l as int, r as int, ii);
                }
                assert forall|x: KeyView| ov.contains(x) <==> ((live_prefix(*n, ii, x) || (ii < n.children@.len() && has(n.children@[ii], x, true))) && range@.contains(x)) by {}
                assert forall|t: int| 0 <= t < ov.len() implies lower_ok(lo, #[trigger] ov[t]) && key_cmp(ov[t], ki) < 0 by {
                    lemma_key_cmp(ov[t], kv(n.keys@[ii - 1]), ki);
                    lemma_key_cmp(ov[t], kv(n.keys@[ii - 1]), kv(n.keys@[ii - 1]));
                }
            }
        }
        let ghost before = out@;
        let ghost ov2 = keys_view(out@);
        assert(forall|x: KeyView| ov2.contains(x) <==> ((live_prefix(*n, ii, x) || (ii < n.children@.len() && has(n.children@[ii], x, true))) && range@.contains(x)));
        assert(forall|x: KeyView| live_prefix(*n, ii + 1, x) <==> (live_prefix(*n, ii, x) || live_at(*n, ii, x)));
        let live = !n.keys[i].deleted && range.contains_key(&n.keys[i].value);
        if !live {
            proof {
                assert forall|x: KeyView| ov2.contains(x) <==> (live_prefix(*n, ii + 1, x) && range@.contains(x)) by {
                    if live_prefix(*n, ii + 1, x) && range@.contains(x) {
                        if !live_prefix(*n, ii, x) {
                            assert(live_at(*n, ii, x));
                        }
                    }
                }
            }
        }
        if live {
            let k = copy_values(&n.keys[i].value);
            out.push(k);
            proof {
                lemma_keys_view_push(before, k);
                let nv = keys_view(out@);
                assert(nv == ov2.push(ki));
                assert forall|a: int, b: int| 0 <= a < b < nv.len() implies key_lt(
                    #[trigger] nv[a],
                    #[trigger] nv[b],
                ) by {
                    if b == ov2.len() {
                        assert(nv[a] == ov2[a]);
                    } else {
                        assert(nv[a] == ov2[a] && nv[b] == ov2[b]);
                    }
                }
                assert forall|x: KeyView| nv.contains(x) <==> (live_prefix(*n, ii + 1, x) && range@.contains(x)) by {
                    if nv.contains(x) {
                        let t = choose|t: int| 0 <= t < nv.len() && nv[t] == x;
                        if t < ov2.len() {
                            assert(ov2.contains(x));
                        }
                    }
                    if live_prefix(*n, ii + 1, x) && range@.contains(x) {
                        if !live_prefix(*n, ii, x) {
                            assert(live_at(*n, ii, x));
                        }
                        if x == ki {
                            assert(nv[ov2.len() as int] == x);
                        } else {
                            assert(ov2.contains(x));
                            let t = choose|t: int| 0 <= t < ov2.len() && ov2[t] == x;
                            assert(nv[t] == x);
                        }
                    }
                }
                assert forall|t: int| 0 <= t < nv.len() implies lower_ok(lo, #[trigger] nv[t]) && key_cmp(nv[t], ki) <= 0 by {
                    if t < ov2.len() {
                        assert(nv[t] == ov2[t]);
                    } else {
                        lemma_key_cmp(ki, ki, ki);
                    }
                }
            }
        }
        i = i + 1;
    }
    let ghost len = n.keys@.len() as int;
    let ghost ov = keys_view(out@);
    proof {
        lemma_live_prefix_step(*n, len);
        lemma_live_prefix_all(*n);
        assert forall|t: int| 0 <= t < ov.len() implies upper_ok(hi, #[trigger] ov[t]) by {
            if let Some(hv) = hi {
                lemma_key_cmp(ov[t], kv(n.keys@[len - 1]), hv);
                lemma_key_cmp(ov[t], kv(n.keys@[len - 1]), kv(n.keys@[len - 1]));
            }
        }
    }
    if !n.leaf && r == n.keys.len() {
        let ghost clo = child_lo(*n, len, lo);
        assert(wf_node(n.children@[len], m as int, clo, hi, false, (h - 1) as nat));
        proof {
            assert forall|x: KeyView| #[trigger] has(n.children@[len], x, false) implies x.len() == w by {
                assert(has(*n, x, false));
            }
        }
        let mut c = collect(&n.children[n.keys.len()], range, m, Ghost(clo), Ghost(hi), Ghost(false), Ghost((h - 1) as nat), Ghost(w));
        let ghost cv = keys_view(c@);
        proof {
            lemma_keys_view_append(out@, c@);
            let pivot = if len == 0 { None } else { Some(kv(n.keys@[len - 1])) };
            assert forall|t: int| 0 <= t < cv.len() implies lower_ok(pivot, #[trigger] cv[t]) by {
                assert(lower_ok(clo, cv[t]));
            }
            lemma_append_sorted(ov, cv, pivot);
        }
        out.append(&mut c);
        proof {
            let nv = keys_view(out@);
            assert(nv == ov + cv);
            assert forall|t: int| 0 <= t < nv.len() implies lower_ok(lo, #[trigger] nv[t]) && upper_ok(hi, nv[t]) by {
                if t < ov.len() {
                    assert(nv[t] == ov[t]);
                } else {
                    assert(nv[t] == cv[t - ov.len()]);
                    assert(lower_ok(clo, cv[t - ov.len()]) && upper_ok(hi, cv[t - ov.len()]));
                    if len > 0 {
                        if let Some(lv) = lo {
                            lemma_key_cmp(lv, kv(n.keys@[len - 1]), cv[t - ov.len()]);
                        }
                    }
                }
            }
            assert forall|x: KeyView| nv.contains(x) <==> (has(*n, x, true) && range@.contains(x)) by {
                if nv.contains(x) {
                    let t = choose|t: int| 0 <= t < nv.len() && nv[t] == x;
                    if t < ov.len() {
                        assert(ov.contains(x));
                        assert(live_prefix(*n, len, x));
                    } else {
                        assert(cv.contains(x));
                        assert(live_at(*n, len, x));
                    }
                    assert(live_prefix(*n, len + 1, x));
                }
                if has(*n, x, true) && range@.contains(x) {
                    assert(live_prefix(*n, len + 1, x));
                    if live_prefix(*n, len, x) {
                        let t = choose|t: int| 0 <= t < ov.len() && ov[t] == x;
                        assert(nv[t] == x);
                    } else {
                        assert(live_at(*n, len, x));
                        let t = choose|t: int| 0 <= t < cv.len() && cv[t] == x;
                        assert(nv[t + ov.len()] == x);
                    }
                }
            }
        }
    } else {
        proof {
            if !n.leaf {
                lemma_pruned_child(*n, m as int, lo, hi, root, h, range@, w, l as int, r as int, len);
            }
            assert forall|x: KeyView| ov.contains(x) <==> (has(*n, x, true) && range@.contains(x)) by {
                if ov.contains(x) {
                    assert(live_prefix(*n, len, x));
                    assert(live_prefix(*n, len + 1, x));
                }
                if has(*n, x, true) && range@.contains(x) {
                    assert(live_prefix(*n, len + 1, x));
                    if !live_prefix(*n, len, x) {
                        assert(live_at(*n, len, x));
                    }
                }
            }
        }
    }
    out
}

/// Whether `range` is given and holds `x`.
pub open spec fn hits(range: Option<RangeView>, x: KeyView) -> bool {
    match range {
        Some(r) => r.contains(x),
        None => false,
    }
}

pub open spec fn opt_range(range: Option<&BTreeRange>) -> Option<RangeView> {
    match range {
        Some(r) => Some(r@),
        None => None,
    }
}

/// `a` holds the keys of `b`, with every key in `range` tombstoned.
pub open spec fn tombstoned(a: Node, b: Node, range: Option<RangeView>) -> bool {
    forall|x: KeyView, f: bool|
        #[trigger] has(a, x, f) <==> (has(b, x, f) && (!f || !hits(range, x)))
}

proof fn lemma_tombstone_node(
    n: Node,
    r: Node,
    range: Option<RangeView>,
    m: int,
    lo: Option<KeyView>,
    hi: Option<KeyView>,
    root: bool,
    h: nat,
)
    requires
        wf_node(n, m, lo, hi, root, h),
        r.leaf == n.leaf,
        r.keys@.len() == n.keys@.len(),
        r.children@.len() == n.children@.len(),
        forall|j: int|
            0 <= j < n.keys@.len() ==> kv(#[trigger] r.keys@[j]) == kv(n.keys@[j])
                && r.keys@[j].deleted == (n.keys@[j].deleted || hits(range, kv(n.keys@[j]))),
        forall|j: int|
            0 <= j < n.children@.len() ==> wf_node(
                #[trigger] r.children@[j],
                m,
                child_lo(n, j, lo),
                child_hi(n, j, hi),
                false,
                (h - 1) as nat,
            ) && tombstoned(r.children@[j], n.children@[j], range),
    ensures
        wf_node(r, m, lo, hi, root, h),
        tombstoned(r, n, range),
{
    assert forall|a: int, b: int|
        0 <= a < b < r.keys@.len() implies key_lt(
        #[trigger] kv(r.keys@[a]),
        #[trigger] kv(r.keys@[b]),
    ) by {
        assert(kv(r.keys@[a]) == kv(n.keys@[a]) && kv(r.keys@[b]) == kv(n.keys@[b]));
    }
    assert forall|a: int| 0 <= a < r.keys@.len() implies lower_ok(
        lo,
        #[trigger] kv(r.keys@[a]),
    ) && upper_ok(hi, kv(r.keys@[a])) by {
        assert(kv(r.keys@[a]) == kv(n.keys@[a]));
    }
    if !n.leaf {
        assert forall|j: int| 0 <= j < r.children@.len() implies wf_node(
            #[trigger] r.children@[j],
            m,
            child_lo(r, j, lo),
            child_hi(r, j, hi),
            false,
            (h - 1) as nat,
        ) by {
            if j > 0 {
                assert(kv(r.keys@[j - 1]) == kv(n.keys@[j - 1]));
            }
            if j < r.keys@.len() {
                assert(kv(r.keys@[j]) == kv(n.keys@[j]));
            }
        }
    }
    assert forall|x: KeyView, f: bool|
        #[trigger] has(r, x, f) <==> (has(n, x, f) && (!f || !hits(range, x))) by {
        if has(n, x, f) && (!f || !hits(range, x)) {
            if exists|a: int|
                0 <= a < n.keys@.len() && kv(#[trigger] n.keys@[a]) == x && (!f
                    || !n.keys@[a].deleted) {
                let a = choose|a: int|
                    0 <= a < n.keys@.len() && kv(#[trigger] n.keys@[a]) == x && (!f
                        || !n.keys@[a].deleted);
                assert(kv(r.keys@[a]) == x);
            } else {
                let j = choose|j: int|
                    0 <= j < n.children@.len() && has(#[trigger] n.children@[j], x, f);
                assert(tombstoned(r.children@[j], n.children@[j], range));
                assert(has(r.children@[j], x, f));
            }
        }
        if has(r, x, f) {
            if exists|a: int|
                0 <= a < r.keys@.len() && kv(#[trigger] r.keys@[a]) == x && (!f
                    || !r.keys@[a].deleted) {
                let a = choose|a: int|
                    0 <= a < r.keys@.len() && kv(#[trigger] r.keys@[a]) == x && (!f
                        || !r.keys@[a].deleted);
                assert(kv(n.keys@[a]) == x);
            } else {
                let j = choose|j: int|
                    0 <= j < r.children@.len() && has(#[trigger] r.children@[j], x, f);
                assert(tombstoned(r.children@[j], n.children@[j], range));
                assert(has(n.children@[j], x, f));
            }
        }
    }
}

/// A copy of the subtree with every key in `range`, if one is given,
/// tombstoned; nodes whose keys were touched are marked for rebalancing.
pub(crate) fn tombstone_range(
    n: &Node,
    range: Option<&BTreeRange>,
    m: usize,
    Ghost(lo): Ghost<Option<KeyView>>,
    Ghost(hi): Ghost<Option<KeyView>>,
    Ghost(root): Ghost<bool>,
    Ghost(h): Ghost<nat>,
) -> (r: Node)
    requires
        wf_node(*n, m as int, lo, hi, root, h),
    ensures
        wf_node(r, m as int, lo, hi, root, h),
        tombstoned(r, *n, opt_range(range)),
    decreases h,
{
    let mut keys: Vec<NodeKey> = Vec::new();
    let mut touched = n.rebalance;
    let mut i: usize = 0;
    while i < n.keys.len()
        invariant
            i <= n.keys@.len(),
            keys@.len() == i,
            forall|j: int|
                0 <= j < i ==> kv(#[trigger] keys@[j]) == kv(n.keys@[j]) && keys@[j].deleted == (
                n.keys@[j].deleted || hits(opt_range(range), kv(n.keys@[j]))),
        decreases n.keys@.len() - i,
    {
        let hit = match range {
            Some(r) => r.contains_key(&n.keys[i].value),
            None => false,
        };
        if hit {
            touched = true;
        }
        keys.push(NodeKey { value: copy_values(&n.keys[i].value), deleted: n.keys[i].deleted || hit });
        i = i + 1;
    }
    let mut children: Vec<Node> = Vec::new();
    let mut j: usize = 0;
    while j < n.children.len()
        invariant
            wf_node(*n, m as int, lo, hi, root, h),
            j <= n.children@.len(),
            children@.len() == j,
            forall|t: int|
                0 <= t < j ==> wf_node(
                    #[trigger] children@[t],
                    m as int,
                    child_lo(*n, t, lo),
                    child_hi(*n, t, hi),
                    false,
                    (h - 1) as nat,
                ) && tombstoned(children@[t], n.children@[t], opt_range(range)),
        decreases n.children@.len() - j,
    {
        assert(!n.leaf);
        assert(wf_node(n.children@[j as int], m as int, child_lo(*n, j as int, lo), child_hi(*n, j as int, hi), false, (h - 1) as nat));
        let c = tombstone_range(
            &n.children[j],
            range,
            m,
            Ghost(child_lo(*n, j as int, lo)),
            Ghost(child_hi(*n, j as int, hi)),
            Ghost(false),
            Ghost((h - 1) as nat),
        );
        children.push(c);
        j = j + 1;
    }
    let r = Node { leaf: n.leaf, keys, children, rebalance: touched };
    proof {
        lemma_tombstone_node(*n, r, opt_range(range), m as int, lo, hi, root, h);
    }
    r
}

/// Every key of a well-formed subtree lies within the subtree's bounds.
pub proof fn lemma_has_bounds(
    n: Node,
    m: int,
    lo: Option<KeyView>,
    hi: Option<KeyView>,
    root: bool,
    h: nat,
    x: KeyView,
    f: bool,
)
    requires
        wf_node(n, m, lo, hi, root, h),
        has(n, x, f),
    ensures
        lower_ok(lo, x),
        upper_ok(hi, x),
    decreases h,
{
    if exists|a: int|
        0 <= a < n.keys@.len() && kv(#[trigger] n.keys@[a]) == x && (!f || !n.keys@[a].deleted) {
    } else {
        let j = choose|j: int| 0 <= j < n.children@.len() && has(#[trigger] n.children@[j], x, f);
        let cl = child_lo(n, j, lo);
        let ch = child_hi(n, j, hi);
        lemma_has_bounds(n.children@[j], m, cl, ch, false, (h - 1) as nat, x, f);
        if j > 0 {
            if let Some(l) = lo {
                lemma_key_cmp(l, kv(n.keys@[j - 1]), x);
            }
        }
        if j < n.keys@.len() {
            if let Some(u) = hi {
                lemma_key_cmp(x, kv(n.keys@[j]), u);
            }
        }
    }
}

/// Whether `key` is stored live in the subtree, found by descending from
/// the root along the one path that may hold it.
pub(crate) fn lookup(
    n: &Node,
    key: &Vec<Value>,
    m: usize,
    Ghost(lo): Ghost<Option<KeyView>>,
    Ghost(hi): Ghost<Option<KeyView>>,
    Ghost(root): Ghost<bool>,
    Ghost(h): Ghost<nat>,
) -> (r: bool)
    requires
        wf_node(*n, m as int, lo, hi, root, h),
    ensures
        r == has(*n, values_view(key@), true),
    decreases h,
{
    let ghost k = values_view(key@);
    let i = find_slot(&n.keys, key);
    let ghost ii = i as int;
    let found = i < n.keys.len() && compare_key(&n.keys[i].value, key) == 0;
    proof {
        if i < n.keys.len() {
            lemma_key_cmp(kv(n.keys@[ii]), k, k);
        }
        // no key of the node but key `i` can equal `key`
        assert forall|a: int| 0 <= a < n.keys@.len() && a != ii implies kv(#[trigger] n.keys@[a]) != k by {
            lemma_key_cmp(kv(n.keys@[a]), k, k);
            if a > ii {
                lemma_key_cmp(k, kv(n.keys@[ii]), kv(n.keys@[a]));
                lemma_key_cmp(kv(n.keys@[a]), k, k);
                lemma_key_cmp(kv(n.keys@[ii]), kv(n.keys@[a]), k);
            }
        }
        // no child but child `i` can hold `key`
        assert forall|j: int| 0 <= j < n.children@.len() && (j != ii || found) implies !(#[trigger] has(
            n.children@[j],
            k,
            true,
        )) by {
            if has(n.children@[j], k, true) {
                lemma_has_bounds(
                    n.children@[j],
                    m as int,
                    child_lo(*n, j, lo),
                    child_hi(*n, j, hi),
                    false,
                    (h - 1) as nat,
                    k,
                    true,
                );
                if j < ii {
                    lemma_key_cmp(k, kv(n.keys@[j]), k);
                } else if j > ii {
                    lemma_key_cmp(kv(n.keys@[j - 1]), k, k);
                    if j - 1 > ii {
                        lemma_key_cmp(kv(n.keys@[ii]), kv(n.keys@[j - 1]), k);
                    }
                    lemma_key_cmp(kv(n.keys@[ii]), k, k);
                } else {
                    lemma_key_cmp(k, k, k);
                }
            }
        }
    }
    if found {
        proof {
            assert(kv(n.keys@[ii]) == k);
            if has(*n, k, true) {
                if exists|a: int|
                    0 <= a < n.keys@.len() && kv(#[trigger] n.keys@[a]) == k && (!true || !n.keys@[a].deleted) {
                    let a = choose|a: int|
                        0 <= a < n.keys@.len() && kv(#[trigger] n.keys@[a]) == k && (!true || !n.keys@[a].deleted);
                    assert(a == ii);
                } else {
                    let j = choose|j: int| 0 <= j < n.children@.len() && has(#[trigger] n.children@[j], k, true);
                    assert(has(n.children@[j], k, true) == false);
                }
            }
        }
        return !n.keys[i].deleted;
    }
    if n.leaf {
        return false;
    }
    assert(wf_node(n.children@[ii], m as int, child_lo(*n, ii, lo), child_hi(*n, ii, hi), false, (h - 1) as nat));
    let r = lookup(&n.children[i], key, m, Ghost(child_lo(*n, ii, lo)), Ghost(child_hi(*n, ii, hi)), Ghost(false), Ghost((h - 1) as nat));
    proof {
        if has(*n, k, true) {
            if !exists|a: int|
                0 <= a < n.keys@.len() && kv(#[trigger] n.keys@[a]) == k && (!true || !n.keys@[a].deleted) {
                let j = choose|j: int| 0 <= j < n.children@.len() && has(#[trigger] n.children@[j], k, true);
            }
        }
    }
    r
}

/// In a well-formed node every key of child `i` lies below key `i`, and
/// every key of child `i + 1` above it.
pub proof fn lemma_key_child_order(
    n: Node,
    m: int,
    lo: Option<KeyView>,
    hi: Option<KeyView>,
    root: bool,
    h: nat,
    i: int,
    x: KeyView,
    f: bool,
)
    requires
        wf_node(n, m, lo, hi, root, h),
        !n.leaf,
        0 <= i < n.keys@.len(),
    ensures
        has(n.children@[i], x, f) ==> key_lt(x, kv(n.keys@[i])),
        has(n.children@[i + 1], x, f) ==> key_lt(kv(n.keys@[i]), x),
{
    if has(n.children@[i], x, f) {
        lemma_has_bounds(n.children@[i], m, child_lo(n, i, lo), child_hi(n, i, hi), false, (h - 1) as nat, x, f);
    }
    if has(n.children@[i + 1], x, f) {
        lemma_has_bounds(
            n.children@[i + 1],
            m,
            child_lo(n, i + 1, lo),
            child_hi(n, i + 1, hi),
            false,
            (h - 1) as nat,
            x,
            f,
        );
    }
}

/// Every node of a well-formed tree but the root holds between `ceil(m/2)`
/// and `2m` children, or none when it is a leaf; a root that is not a leaf
/// holds at least two.
pub proof fn lemma_fanout(n: Node, m: int, lo: Option<KeyView>, hi: Option<KeyView>, root: bool, h: nat)
    requires
        wf_node(n, m, lo, hi, root, h),
    ensures
        n.leaf ==> n.children@.len() == 0,
        !n.leaf ==> n.children@.len() <= 2 * m,
        !n.leaf && !root ==> n.children@.len() >= (m + 1) / 2,
        !n.leaf && root ==> n.children@.len() >= 2,
{
}

} // verus!
