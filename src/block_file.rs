use vstd::prelude::*;

use crate::error::{ErrorKind, TCError, TCResult};
use crate::host_dir::HostDir;
use crate::txn::{TransactionId, TxnLock};

verus! {

/// The names a list holds.
pub open spec fn name_set(v: Seq<String>) -> Set<Seq<char>> {
    Set::new(|n: Seq<char>| exists|i: int| 0 <= i < v.len() && (#[trigger] v[i])@ == n)
}

/// The staged blobs of transaction `t`: the first staging directory for `t`.
pub open spec fn staged_at(p: Seq<(TransactionId, HostDir)>, t: TransactionId) -> Option<
    Map<Seq<char>, Seq<u8>>,
>
    decreases p.len(),
{
    if p.len() == 0 {
        None
    } else if p[0].0 == t {
        Some(p[0].1@)
    } else {
        staged_at(p.drop_first(), t)
    }
}

/// The name reserved for the staging directory.
pub open spec fn pending_name() -> Seq<char> {
    seq!['.', 'p', 'e', 'n', 'd', 'i', 'n', 'g']
}

proof fn lemma_staged_push(p: Seq<(TransactionId, HostDir)>, e: (TransactionId, HostDir), t: TransactionId)
    ensures
        staged_at(p.push(e), t) == (if staged_at(p, t) is Some {
            staged_at(p, t)
        } else if e.0 == t {
            Some(e.1@)
        } else {
            None
        }),
    decreases p.len(),
{
    if p.len() > 0 {
        assert(p.push(e).drop_first() =~= p.drop_first().push(e));
        lemma_staged_push(p.drop_first(), e, t);
    } else {
        assert(p.push(e).drop_first() =~= p);
        assert(p.push(e)[0] == e);
    }
}

/// The first staging directory of `t` sits at index `i`.
pub open spec fn first_staged(p: Seq<(TransactionId, HostDir)>, t: TransactionId, i: int) -> bool {
    0 <= i < p.len() && p[i].0 == t && forall|j: int| 0 <= j < i ==> (#[trigger] p[j]).0 != t
}

proof fn lemma_staged_first(p: Seq<(TransactionId, HostDir)>, t: TransactionId, i: int)
    requires
        first_staged(p, t, i),
    ensures
        staged_at(p, t) == Some(p[i].1@),
    decreases p.len(),
{
    if i > 0 {
        assert(first_staged(p.drop_first(), t, i - 1)) by {
            assert forall|j: int| 0 <= j < i - 1 implies (#[trigger] p.drop_first()[j]).0 != t by {
                assert(p.drop_first()[j] == p[j + 1]);
            }
        }
        lemma_staged_first(p.drop_first(), t, i - 1);
    }
}

proof fn lemma_staged_none(p: Seq<(TransactionId, HostDir)>, t: TransactionId)
    requires
        forall|j: int| 0 <= j < p.len() ==> (#[trigger] p[j]).0 != t,
    ensures
        staged_at(p, t) is None,
    decreases p.len(),
{
    if p.len() > 0 {
        assert forall|j: int| 0 <= j < p.len() - 1 implies (#[trigger] p.drop_first()[j]).0 != t by {
            assert(p.drop_first()[j] == p[j + 1]);
        }
        lemma_staged_none(p.drop_first(), t);
    }
}

proof fn lemma_staged_update(p: Seq<(TransactionId, HostDir)>, t: TransactionId, i: int, d: HostDir, u: TransactionId)
    requires
        first_staged(p, t, i),
    ensures
        staged_at(p.update(i, (t, d)), u) == (if u == t { Some(d@) } else { staged_at(p, u) }),
    decreases p.len(),
{
    let q = p.update(i, (t, d));
    if i == 0 {
        if u != t {
            assert(q.drop_first() =~= p.drop_first());
        }
    } else {
        assert(first_staged(p.drop_first(), t, i - 1)) by {
            assert forall|j: int| 0 <= j < i - 1 implies (#[trigger] p.drop_first()[j]).0 != t by {
                assert(p.drop_first()[j] == p[j + 1]);
            }
        }
        assert(q.drop_first() =~= p.drop_first().update(i - 1, (t, d)));
        lemma_staged_update(p.drop_first(), t, i - 1, d, u);
    }
}

/// The staging directories but those of `t`.
fn without_staged(p: Vec<(TransactionId, HostDir)>, t: &TransactionId) -> (r: Vec<(TransactionId, HostDir)>)
    ensures
        forall|u: TransactionId| #[trigger] staged_at(r@, u) == (if u == *t { None } else { staged_at(p@, u) }),
{
    let ghost orig = p@;
    let mut p = p;
    let mut kept: Vec<(TransactionId, HostDir)> = Vec::new();
    let mut i: usize = 0;
    let n = p.len();
    proof {
        assert(orig.subrange(0, 0) + p@ =~= orig);
        assert(orig.len() == n);
    }
    while p.len() > 0
        invariant
            i <= orig.len(),
            orig.len() <= usize::MAX,
            p@ == orig.subrange(i as int, orig.len() as int),
            forall|u: TransactionId| #[trigger] staged_at(kept@, u) == (if u == *t { None } else { staged_at(orig.subrange(0, i as int), u) }),
        decreases p@.len(),
    {
        let e = p.remove(0);
        let ghost pre = orig.subrange(0, i as int);
        proof {
            assert(e == orig[i as int]);
            assert(orig.subrange(0, i + 1) =~= pre.push(e));
            assert(p@ =~= orig.subrange(i + 1, orig.len() as int));
        }
        let ghost before = kept@;
        if e.0 != *t {
            kept.push(e);
            proof {
                assert forall|u: TransactionId| #[trigger] staged_at(kept@, u) == (if u == *t { None } else { staged_at(orig.subrange(0, i + 1), u) }) by {
                    lemma_staged_push(before, e, u);
                    lemma_staged_push(pre, e, u);
                }
            }
        } else {
            proof {
                assert forall|u: TransactionId| #[trigger] staged_at(kept@, u) == (if u == *t { None } else { staged_at(orig.subrange(0, i + 1), u) }) by {
                    lemma_staged_push(pre, e, u);
                }
            }
        }
        i = i + 1;
    }
    proof {
        assert(orig.subrange(0, i as int) =~= orig);
    }
    kept
}

/// Whether `v` holds the name `n`.
fn names_contain(v: &Vec<String>, n: &String) -> (r: bool)
    ensures
        r == name_set(v@).contains(n@),
{
    let mut i: usize = 0;
    while i < v.len()
        invariant
            i <= v@.len(),
            forall|j: int| 0 <= j < i ==> (#[trigger] v@[j])@ != n@,
        decreases v@.len() - i,
    {
        if v[i] == *n {
            proof {
                assert(v@[i as int]@ == n@);
            }
            return true;
        }
        i = i + 1;
    }
    false
}

/// A copy of a list of names.
fn copy_names(v: &Vec<String>) -> (r: Vec<String>)
    ensures
        r@ == v@,
{
    let mut r: Vec<String> = Vec::new();
    let mut i: usize = 0;
    while i < v.len()
        invariant
            i <= v@.len(),
            r@ == v@.subrange(0, i as int),
        decreases v@.len() - i,
    {
        r.push(v[i].clone());
        proof {
            assert(r@ =~= v@.subrange(0, i + 1));
        }
        i = i + 1;
    }
    proof {
        assert(r@ =~= v@);
    }
    r
}

/// The names of `v` but `n`.
fn names_without(v: &Vec<String>, n: &String) -> (r: Vec<String>)
    ensures
        name_set(r@) == name_set(v@).remove(n@),
{
    let mut r: Vec<String> = Vec::new();
    let mut i: usize = 0;
    while i < v.len()
        invariant
            i <= v@.len(),
            name_set(r@) == name_set(v@.subrange(0, i as int)).remove(n@),
        decreases v@.len() - i,
    {
        let ghost before = r@;
        if v[i] != *n {
            r.push(v[i].clone());
        }
        proof {
            let pre = v@.subrange(0, i + 1);
            assert forall|x: Seq<char>| name_set(r@).contains(x) <==> name_set(pre).remove(n@).contains(x) by {
                if name_set(r@).contains(x) {
                    let j = choose|j: int| 0 <= j < r@.len() && (#[trigger] r@[j])@ == x;
                    if j < before.len() {
                        assert(name_set(before).contains(x));
                        let k = choose|k: int| 0 <= k < i && (#[trigger] v@.subrange(0, i as int)[k])@ == x;
                        assert(pre[k] == v@[k]);
                    } else {
                        assert(pre[i as int]@ == x);
                    }
                }
                if name_set(pre).remove(n@).contains(x) {
                    let k = choose|k: int| 0 <= k < pre.len() && (#[trigger] pre[k])@ == x;
                    if k < i {
                        assert(v@.subrange(0, i as int)[k] == pre[k]);
                        assert(name_set(before).contains(x));
                        let j = choose|j: int| 0 <= j < before.len() && (#[trigger] before[j])@ == x;
                        assert(r@[j] == before[j]);
                    } else {
                        assert(r@[r@.len() - 1]@ == x);
                    }
                }
            }
            assert(name_set(r@) =~= name_set(pre).remove(n@));
        }
        i = i + 1;
    }
    proof {
        assert(v@.subrange(0, v@.len() as int) =~= v@);
    }
    r
}

proof fn lemma_name_set_push(v: Seq<String>, n: String)
    ensures
        name_set(v.push(n)) == name_set(v).insert(n@),
{
    assert forall|x: Seq<char>| name_set(v.push(n)).contains(x) <==> name_set(v).insert(n@).contains(x) by {
        if name_set(v.push(n)).contains(x) {
            let j = choose|j: int| 0 <= j < v.push(n).len() && (#[trigger] v.push(n)[j])@ == x;
            if j < v.len() {
                assert(v[j] == v.push(n)[j]);
            }
        }
        if name_set(v).contains(x) {
            let j = choose|j: int| 0 <= j < v.len() && (#[trigger] v[j])@ == x;
            assert(v.push(n)[j] == v[j]);
        }
        if x == n@ {
            assert(v.push(n)[v.len() as int] == n);
        }
    }
    assert(name_set(v.push(n)) =~= name_set(v).insert(n@));
}

/// Copies into `dst` the blobs of `src` whose names `names` holds.
fn copy_listed(dst: &mut HostDir, src: &HostDir, names: &Vec<String>)
    ensures
        final(dst)@ == old(dst)@.union_prefer_right(src@.restrict(name_set(names@))),
{
    let ghost base = dst@;
    let ghost keep = name_set(names@);
    let mut i: usize = 0;
    proof {
        assert(base.union_prefer_right(crate::host_dir::entries_map(src.entries@.subrange(0, 0)).restrict(keep)) =~= base);
    }
    while i < src.entries.len()
        invariant
            i <= src.entries@.len(),
            keep == name_set(names@),
            dst@ == base.union_prefer_right(crate::host_dir::entries_map(src.entries@.subrange(0, i as int)).restrict(keep)),
        decreases src.entries@.len() - i,
    {
        let ghost pre = src.entries@.subrange(0, i + 1);
        proof {
            assert(pre.drop_last() =~= src.entries@.subrange(0, i as int));
        }
        let ghost before = dst@;
        if names_contain(names, &src.entries[i].0) {
            dst.write_block(src.entries[i].0.clone(), crate::host_dir::copy_bytes(&src.entries[i].1));
            proof {
                assert(dst@ =~= base.union_prefer_right(crate::host_dir::entries_map(pre).restrict(keep)));
            }
        } else {
            proof {
                assert(dst@ =~= base.union_prefer_right(crate::host_dir::entries_map(pre).restrict(keep)));
            }
        }
        i = i + 1;
    }
    proof {
        assert(src.entries@.subrange(0, src.entries@.len() as int) =~= src.entries@);
    }
}

/// The first staging directory of `t`, if any.
fn find_staged(p: &Vec<(TransactionId, HostDir)>, t: &TransactionId) -> (r: Option<usize>)
    ensures
        r is Some ==> first_staged(p@, *t, r->Some_0 as int),
        r is None ==> forall|j: int| 0 <= j < p@.len() ==> (#[trigger] p@[j]).0 != *t,
{
    let mut i: usize = 0;
    while i < p.len()
        invariant
            i <= p@.len(),
            forall|j: int| 0 <= j < i ==> (#[trigger] p@[j]).0 != *t,
        decreases p@.len() - i,
    {
        if p[i].0 == *t {
            return Some(i);
        }
        i = i + 1;
    }
    None
}

/// Relies on uuid's `Uuid::new_v4` and its hyphenated `to_string`: a fresh
/// random identifier of 36 characters.
#[verifier::external_body]
fn random_block_name() -> (r: String)
    ensures
        r@.len() == 36,
{
    uuid::Uuid::new_v4().to_string()
}

/// A named file of blocks under transactional control: the canonical
/// directory of committed blobs, one staging directory per transaction with
/// the blobs it wrote, and, under transactional locks, the names of the
/// blocks that exist and of those written.
pub struct BlockFile {
    pub dir: HostDir,
    pub pending: Vec<(TransactionId, HostDir)>,
    pub listing: TxnLock<Vec<String>>,
    pub mutated: TxnLock<Vec<String>>,
}

impl BlockFile {
    /// The names of the blocks that `t` sees.
    pub open spec fn listed(&self, t: TransactionId) -> Set<Seq<char>> {
        name_set(self.listing.visible(t)@)
    }

    /// The names of the blocks that `t` wrote.
    pub open spec fn mutated_at(&self, t: TransactionId) -> Set<Seq<char>> {
        name_set(self.mutated.visible(t)@)
    }

    /// The blobs that `t` staged, if it staged any.
    pub open spec fn staged(&self, t: TransactionId) -> Option<Map<Seq<char>, Seq<u8>>> {
        staged_at(self.pending@, t)
    }

    /// The bytes of block `id` as `t` sees them: its staged copy, else the
    /// canonical one.
    pub open spec fn block_at(&self, t: TransactionId, id: Seq<char>) -> Option<Seq<u8>> {
        if !self.listed(t).contains(id) {
            None
        } else if self.staged(t) is Some && self.staged(t)->Some_0.contains_key(id) {
            Some(self.staged(t)->Some_0[id])
        } else if self.dir@.contains_key(id) {
            Some(self.dir@[id])
        } else {
            None
        }
    }

    /// An empty file.
    pub fn new() -> (r: BlockFile)
        ensures
            forall|t: TransactionId| r.listed(t) == Set::<Seq<char>>::empty(),
            forall|t: TransactionId| r.staged(t) is None,
            r.dir@ == Map::<Seq<char>, Seq<u8>>::empty(),
    {
        let r = BlockFile {
            dir: HostDir::new(),
            pending: Vec::new(),
            listing: TxnLock::new(Vec::new()),
            mutated: TxnLock::new(Vec::new()),
        };
        proof {
            assert forall|t: TransactionId| r.listed(t) == Set::<Seq<char>>::empty() by {
                assert(r.listed(t) =~= Set::<Seq<char>>::empty());
            }
        }
        r
    }

    /// Stages `data` as the contents of block `id` at `t`.
    fn stage(&mut self, t: &TransactionId, id: String, data: Vec<u8>)
        ensures
            final(self).dir == old(self).dir,
            final(self).listing == old(self).listing,
            final(self).mutated == old(self).mutated,
            forall|u: TransactionId| #[trigger] final(self).staged(u) == (if u == *t {
                Some(
                    match old(self).staged(*t) {
                        Some(m) => m,
                        None => Map::empty(),
                    }.insert(id@, data@),
                )
            } else {
                old(self).staged(u)
            }),
    {
        match find_staged(&self.pending, t) {
            Some(i) => {
                let (tt, mut d) = self.pending.remove(i);
                let ghost before = old(self).pending@;
                proof {
                    lemma_staged_first(before, *t, i as int);
                }
                d.write_block(id, data);
                self.pending.insert(i, (tt, d));
                proof {
                    assert(self.pending@ =~= before.update(i as int, (*t, d)));
                    assert forall|u: TransactionId| #[trigger] staged_at(self.pending@, u) == (if u == *t { Some(before[i as int].1@.insert(id@, data@)) } else { staged_at(before, u) }) by {
                        lemma_staged_update(before, *t, i as int, d, u);
                    }
                }
            },
            None => {
                let mut d = HostDir::new();
                d.write_block(id, data);
                let ghost before = self.pending@;
                proof {
                    lemma_staged_none(before, *t);
                }
                self.pending.push((*t, d));
                proof {
                    assert forall|u: TransactionId| #[trigger] staged_at(self.pending@, u) == (if u == *t { Some(Map::<Seq<char>, Seq<u8>>::empty().insert(id@, data@)) } else { staged_at(before, u) }) by {
                        lemma_staged_push(before, (*t, d), u);
                        assert(d@ =~= Map::<Seq<char>, Seq<u8>>::empty().insert(id@, data@));
                    }
                }
            },
        }
    }

    /// Records that `t` wrote block `id`.
    fn mark_mutated(&mut self, t: &TransactionId, id: &String) -> (r: TCResult<()>)
        ensures
            final(self).dir == old(self).dir,
            final(self).pending == old(self).pending,
            final(self).listing == old(self).listing,
            r is Err <==> old(self).mutated.held_by_other(*t),
            r is Err ==> r->Err_0.kind == ErrorKind::Conflict && final(self).mutated == old(self).mutated,
            r is Ok ==> final(self).mutated_at(*t) == old(self).mutated_at(*t).insert(id@),
            r is Ok ==> final(self).mutated.canonical == old(self).mutated.canonical,
            r is Ok ==> final(self).mutated.pending is Some && final(self).mutated.pending->Some_0.0 == *t,
    {
        if self.mutated.is_held_by_other(t) {
            return Err(TCError::conflict("another transaction holds a pending write"));
        }
        let mut names = copy_names(self.mutated.read(t));
        let ghost before = names@;
        let c = id.clone();
        names.push(c);
        proof {
            lemma_name_set_push(before, c);
        }
        self.mutated.write(t, names)
    }

    /// Creates block `id` at `t` holding `data`.
    pub fn create_block(&mut self, t: &TransactionId, id: String, data: Vec<u8>) -> (r: TCResult<()>)
        ensures
            r is Err <==> (id@ == pending_name() || old(self).listed(*t).contains(id@)
                || old(self).listing.held_by_other(*t) || old(self).mutated.held_by_other(*t)),
            (id@ == pending_name() || old(self).listed(*t).contains(id@)) ==> r is Err && r->Err_0.kind == ErrorKind::BadRequest,
            !(id@ == pending_name() || old(self).listed(*t).contains(id@)) && (old(self).listing.held_by_other(*t)
                || old(self).mutated.held_by_other(*t)) ==> r is Err && r->Err_0.kind == ErrorKind::Conflict,
            r is Err && r->Err_0.kind != ErrorKind::BadRequest ==> r->Err_0.kind == ErrorKind::Conflict,
            r is Err ==> final(self).listing == old(self).listing && final(self).mutated == old(self).mutated
                && final(self).pending == old(self).pending,
            final(self).dir == old(self).dir,
            final(self).listing.canonical == old(self).listing.canonical,
            final(self).mutated.canonical == old(self).mutated.canonical,
            r is Ok ==> final(self).listed(*t) == old(self).listed(*t).insert(id@),
            r is Ok ==> final(self).mutated_at(*t) == old(self).mutated_at(*t).insert(id@),
            r is Ok ==> final(self).block_at(*t, id@) == Some(data@),
            r is Ok ==> forall|u: TransactionId| u != *t ==> #[trigger] final(self).staged(u) == old(self).staged(u),
    {
        let reserved = ".pending".to_string();
        proof {
            reveal_strlit(".pending");
            assert(reserved@ =~= pending_name());
        }
        if id == reserved {
            return Err(TCError::bad_request("the name is reserved"));
        }
        if names_contain(self.listing.read(t), &id) {
            return Err(TCError::bad_request("there is already a block of that name"));
        }
        if self.listing.is_held_by_other(t) || self.mutated.is_held_by_other(t) {
            return Err(TCError::conflict("another transaction holds a pending write"));
        }
        let mut names = copy_names(self.listing.read(t));
        let ghost before = names@;
        let c = id.clone();
        names.push(c);
        proof {
            lemma_name_set_push(before, c);
        }
        let _ = self.listing.write(t, names);
        let _ = self.mark_mutated(t, &id);
        self.stage(t, id, data);
        Ok(())
    }

    /// Replaces the contents of block `id` at `t` with `data`.
    pub fn write_block(&mut self, t: &TransactionId, id: &String, data: Vec<u8>) -> (r: TCResult<()>)
        ensures
            r is Err <==> (!old(self).listed(*t).contains(id@) || old(self).mutated.held_by_other(*t)),
            !old(self).listed(*t).contains(id@) ==> r is Err && r->Err_0.kind == ErrorKind::NotFound,
            old(self).listed(*t).contains(id@) && old(self).mutated.held_by_other(*t) ==> r is Err
                && r->Err_0.kind == ErrorKind::Conflict,
            r is Err && r->Err_0.kind != ErrorKind::NotFound ==> r->Err_0.kind == ErrorKind::Conflict,
            r is Err ==> final(self).mutated == old(self).mutated && final(self).pending == old(self).pending,
            final(self).dir == old(self).dir,
            final(self).listing == old(self).listing,
            final(self).mutated.canonical == old(self).mutated.canonical,
            r is Ok ==> final(self).mutated_at(*t) == old(self).mutated_at(*t).insert(id@),
            r is Ok ==> final(self).block_at(*t, id@) == Some(data@),
            r is Ok ==> forall|u: TransactionId| u != *t ==> #[trigger] final(self).staged(u) == old(self).staged(u),
    {
        if !names_contain(self.listing.read(t), id) {
            return Err(TCError::not_found("no block of that name"));
        }
        match self.mark_mutated(t, id) {
            Ok(_) => {},
            Err(e) => {
                return Err(e);
            },
        }
        self.stage(t, id.clone(), data);
        Ok(())
    }

    /// The contents of block `id` as `t` sees them.
    pub fn get_block(&self, t: &TransactionId, id: &String) -> (r: TCResult<Vec<u8>>)
        ensures
            !self.listed(*t).contains(id@) ==> r is Err && r->Err_0.kind == ErrorKind::NotFound,
            self.listed(*t).contains(id@) && self.block_at(*t, id@) is None ==> r is Err && r->Err_0.kind == ErrorKind::Internal,
            self.block_at(*t, id@) is Some ==> r is Ok && r->Ok_0@ == self.block_at(*t, id@)->Some_0,
    {
        if !names_contain(self.listing.read(t), id) {
            return Err(TCError::not_found("no block of that name"));
        }
        match find_staged(&self.pending, t) {
            Some(i) => {
                proof {
                    lemma_staged_first(self.pending@, *t, i as int);
                }
                match self.pending[i].1.get_block(id) {
                    Some(b) => {
                        return Ok(b);
                    },
                    None => {},
                }
            },
            None => {
                proof {
                    lemma_staged_none(self.pending@, *t);
                }
            },
        }
        match self.dir.get_block(id) {
            Some(b) => Ok(b),
            None => Err(TCError::internal("data corrupt")),
        }
    }

    /// Removes block `id` from what `t` sees.
    pub fn delete_block(&mut self, t: &TransactionId, id: &String) -> (r: TCResult<()>)
        ensures
            r is Err <==> old(self).listing.held_by_other(*t),
            r is Err ==> r->Err_0.kind == ErrorKind::Conflict,
            r is Err ==> final(self).listing == old(self).listing,
            final(self).dir == old(self).dir,
            final(self).pending == old(self).pending,
            final(self).mutated == old(self).mutated,
            final(self).listing.canonical == old(self).listing.canonical,
            r is Ok ==> final(self).listed(*t) == old(self).listed(*t).remove(id@),
    {
        if self.listing.is_held_by_other(t) {
            return Err(TCError::conflict("another transaction holds a pending write"));
        }
        let names = names_without(self.listing.read(t), id);
        self.listing.write(t, names)
    }

    /// A name that `t` sees no block under.
    pub fn unique_id(&self, t: &TransactionId) -> (r: TCResult<String>)
        ensures
            r is Ok ==> !self.listed(*t).contains(r->Ok_0@) && r->Ok_0@ != pending_name(),
            r is Err ==> r->Err_0.kind == ErrorKind::Internal,
    {
        let mut tries: usize = 0;
        while tries < 8
            invariant
                tries <= 8,
            decreases 8 - tries,
        {
            let name = random_block_name();
            if !names_contain(self.listing.read(t), &name) {
                proof {
                    assert(pending_name().len() == 8);
                }
                return Ok(name);
            }
            tries = tries + 1;
        }
        Err(TCError::internal("could not find a free block name"))
    }

    /// Copies the blobs staged by `t` for blocks of the canonical listing
    /// into the canonical directory, as restarting after an interrupted
    /// commit does.
    pub fn replay(&mut self, t: &TransactionId)
        ensures
            final(self).dir@ == old(self).dir@.union_prefer_right(
                match old(self).staged(*t) {
                    Some(m) => m,
                    None => Map::empty(),
                }.restrict(name_set(old(self).listing.canonical@)),
            ),
            final(self).pending == old(self).pending,
            final(self).listing == old(self).listing,
            final(self).mutated == old(self).mutated,
    {
        match find_staged(&self.pending, t) {
            Some(i) => {
                proof {
                    lemma_staged_first(self.pending@, *t, i as int);
                }
                let names = copy_names(&self.listing.canonical);
                let mut dir = HostDir::new();
                std::mem::swap(&mut dir, &mut self.dir);
                copy_listed(&mut dir, &self.pending[i].1, &names);
                std::mem::swap(&mut dir, &mut self.dir);
            },
            None => {
                proof {
                    lemma_staged_none(self.pending@, *t);
                    assert(old(self).dir@.union_prefer_right(Map::<Seq<char>, Seq<u8>>::empty().restrict(name_set(old(self).listing.canonical@))) =~= old(self).dir@);
                }
            },
        }
    }
}

impl BlockFile {
    /// Commits `t`: blocks that `t` no longer sees leave the canonical
    /// directory, `t`'s view of the names becomes canonical, its set of
    /// written blocks empties, and the blobs it staged are copied into the
    /// canonical directory. The staging directory stays until finalization.
    pub fn commit(&mut self, t: &TransactionId)
        ensures
            !old(self).listing.held_by_other(*t) ==> final(self).listing.canonical == old(self).listing.visible(*t),
            final(self).listing == old(self).listing.committed(*t),
            !old(self).mutated.held_by_other(*t) ==> final(self).mutated_at(*t) == Set::<Seq<char>>::empty()
                && final(self).mutated.pending is None,
            old(self).mutated.held_by_other(*t) ==> final(self).mutated == old(self).mutated,
            final(self).dir@ == old(self).dir@.remove_keys(
                name_set(old(self).listing.canonical@).difference(old(self).listed(*t)),
            ).union_prefer_right(
                match old(self).staged(*t) {
                    Some(m) => m,
                    None => Map::empty(),
                }.restrict(old(self).listed(*t)),
            ),
            final(self).pending == old(self).pending,
    {
        let old_names = copy_names(&self.listing.canonical);
        let new_names = copy_names(self.listing.read(t));
        let ghost removed = name_set(old_names@).difference(name_set(new_names@));
        let mut i: usize = 0;
        while i < old_names.len()
            invariant
                i <= old_names@.len(),
                old_names@ == old(self).listing.canonical@,
                new_names@ == old(self).listing.visible(*t)@,
                self.listing == old(self).listing,
                self.mutated == old(self).mutated,
                self.pending == old(self).pending,
                self.dir@ == old(self).dir@.remove_keys(
                    name_set(old_names@.subrange(0, i as int)).difference(name_set(new_names@)),
                ),
            decreases old_names@.len() - i,
        {
            proof {
                assert(old_names@.subrange(0, i + 1) =~= old_names@.subrange(0, i as int).push(old_names@[i as int]));
                lemma_name_set_push(old_names@.subrange(0, i as int), old_names@[i as int]);
            }
            let ghost s0 = name_set(old_names@.subrange(0, i as int)).difference(name_set(new_names@));
            let ghost s1 = name_set(old_names@.subrange(0, i + 1)).difference(name_set(new_names@));
            if !names_contain(&new_names, &old_names[i]) {
                let _ = self.dir.delete_block(&old_names[i]);
                proof {
                    assert(s1 =~= s0.insert(old_names@[i as int]@));
                    assert(self.dir@ =~= old(self).dir@.remove_keys(s1));
                }
            } else {
                proof {
                    assert(s1 =~= s0);
                }
            }
            i = i + 1;
        }
        proof {
            assert(old_names@.subrange(0, old_names@.len() as int) =~= old_names@);
        }
        self.listing.commit(t);
        if !self.mutated.is_held_by_other(t) {
            let _ = self.mutated.write(t, Vec::new());
            self.mutated.commit(t);
            proof {
                assert(self.mutated_at(*t) =~= Set::<Seq<char>>::empty());
            }
        }
        match find_staged(&self.pending, t) {
            Some(i) => {
                proof {
                    lemma_staged_first(self.pending@, *t, i as int);
                }
                let mut dir = HostDir::new();
                std::mem::swap(&mut dir, &mut self.dir);
                copy_listed(&mut dir, &self.pending[i].1, &new_names);
                std::mem::swap(&mut dir, &mut self.dir);
            },
            None => {
                proof {
                    lemma_staged_none(self.pending@, *t);
                    assert(self.dir@.union_prefer_right(Map::<Seq<char>, Seq<u8>>::empty().restrict(name_set(new_names@))) =~= self.dir@);
                }
            },
        }
    }

    /// Rolls `t` back: its view of the names and of the written blocks is
    /// discarded, and so are the blobs it staged; the canonical directory
    /// does not change.
    pub fn rollback(&mut self, t: &TransactionId)
        ensures
            final(self).listing == old(self).listing.rolled_back(*t),
            final(self).mutated == old(self).mutated.rolled_back(*t),
            final(self).dir == old(self).dir,
            final(self).staged(*t) is None,
            forall|u: TransactionId| u != *t ==> #[trigger] final(self).staged(u) == old(self).staged(u),
    {
        self.listing.rollback(t);
        self.mutated.rollback(t);
        let mut p: Vec<(TransactionId, HostDir)> = Vec::new();
        std::mem::swap(&mut p, &mut self.pending);
        self.pending = without_staged(p, t);
    }

    /// Finalizes `t`: its staging directory is removed, and what
    /// transactions at or before it hold is released.
    pub fn finalize(&mut self, t: &TransactionId)
        ensures
            final(self).staged(*t) is None,
            forall|u: TransactionId| u != *t ==> #[trigger] final(self).staged(u) == old(self).staged(u),
            final(self).listing == old(self).listing.finalized(*t),
            final(self).mutated == old(self).mutated.finalized(*t),
            final(self).dir == old(self).dir,
    {
        let mut p: Vec<(TransactionId, HostDir)> = Vec::new();
        std::mem::swap(&mut p, &mut self.pending);
        self.pending = without_staged(p, t);
        self.listing.finalize(t);
        self.mutated.finalize(t);
    }
}

/// After a commit, the committed transaction's view of the names is the
/// canonical one, and it has written nothing since; after finalization it
/// keeps no staging directory.
pub proof fn lemma_commit_finalize(f0: BlockFile, f1: BlockFile, f2: BlockFile, t: TransactionId)
    requires
        !f0.listing.held_by_other(t),
        !f0.mutated.held_by_other(t),
        f1.listing.canonical == f0.listing.visible(t),
        f1.listing == f0.listing.committed(t),
        f1.mutated_at(t) == Set::<Seq<char>>::empty(),
        f2.staged(t) is None,
        f2.listing == f1.listing.finalized(t),
    ensures
        name_set(f1.listing.canonical@) == f0.listed(t),
        f1.mutated_at(t).is_empty(),
        f1.listed(t) == f0.listed(t),
        f2.staged(t) is None,
{
}

/// A commit keeps every canonical blob named in the canonical listing.
pub proof fn lemma_commit_keeps_dir_listed(f0: BlockFile, f1: BlockFile, t: TransactionId)
    requires
        f0.dir@.dom().subset_of(name_set(f0.listing.canonical@)),
        !f0.listing.held_by_other(t),
        f1.listing.canonical == f0.listing.visible(t),
        f1.dir@ == f0.dir@.remove_keys(name_set(f0.listing.canonical@).difference(f0.listed(t))).union_prefer_right(
            match f0.staged(t) {
                Some(m) => m,
                None => Map::empty(),
            }.restrict(f0.listed(t)),
        ),
    ensures
        f1.dir@.dom().subset_of(name_set(f1.listing.canonical@)),
{
}

} // verus!
