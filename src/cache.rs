use vstd::prelude::*;

use crate::error::{ErrorKind, TCError, TCResult};
use crate::host_dir::copy_bytes;
use crate::txn::{TransactionId, TxnLock};

verus! {

/// A cache slot: the name of a block and the lock over its contents.
pub type Slot = (String, TxnLock<Vec<u8>>);

/// The lock of the first slot for block `id`.
pub open spec fn slot_at(s: Seq<Slot>, id: Seq<char>) -> Option<TxnLock<Vec<u8>>>
    decreases s.len(),
{
    if s.len() == 0 {
        None
    } else if s[0].0@ == id {
        Some(s[0].1)
    } else {
        slot_at(s.drop_first(), id)
    }
}

/// Slot `i` is the first slot for its block.
pub open spec fn first_slot(s: Seq<Slot>, id: Seq<char>, i: int) -> bool {
    0 <= i < s.len() && s[i].0@ == id && forall|j: int| 0 <= j < i ==> (#[trigger] s[j]).0@ != id
}

proof fn lemma_slot_first(s: Seq<Slot>, id: Seq<char>, i: int)
    requires
        first_slot(s, id, i),
    ensures
        slot_at(s, id) == Some(s[i].1),
    decreases s.len(),
{
    if i > 0 {
        assert(first_slot(s.drop_first(), id, i - 1)) by {
            assert forall|j: int| 0 <= j < i - 1 implies (#[trigger] s.drop_first()[j]).0@ != id by {
                assert(s.drop_first()[j] == s[j + 1]);
            }
        }
        lemma_slot_first(s.drop_first(), id, i - 1);
    }
}

proof fn lemma_slot_none(s: Seq<Slot>, id: Seq<char>)
    requires
        forall|j: int| 0 <= j < s.len() ==> (#[trigger] s[j]).0@ != id,
    ensures
        slot_at(s, id) is None,
    decreases s.len(),
{
    if s.len() > 0 {
        assert forall|j: int| 0 <= j < s.len() - 1 implies (#[trigger] s.drop_first()[j]).0@ != id by {
            assert(s.drop_first()[j] == s[j + 1]);
        }
        lemma_slot_none(s.drop_first(), id);
    }
}

proof fn lemma_slot_update(s: Seq<Slot>, id: Seq<char>, i: int, e: Slot, u: Seq<char>)
    requires
        first_slot(s, id, i),
        e.0@ == id,
    ensures
        slot_at(s.update(i, e), u) == (if u == id { Some(e.1) } else { slot_at(s, u) }),
    decreases s.len(),
{
    let q = s.update(i, e);
    if i == 0 {
        if u != id {
            assert(q.drop_first() =~= s.drop_first());
        }
    } else {
        assert(first_slot(s.drop_first(), id, i - 1)) by {
            assert forall|j: int| 0 <= j < i - 1 implies (#[trigger] s.drop_first()[j]).0@ != id by {
                assert(s.drop_first()[j] == s[j + 1]);
            }
        }
        assert(q.drop_first() =~= s.drop_first().update(i - 1, e));
        lemma_slot_update(s.drop_first(), id, i - 1, e, u);
    }
}

proof fn lemma_slot_push(s: Seq<Slot>, e: Slot, u: Seq<char>)
    ensures
        slot_at(s.push(e), u) == (if slot_at(s, u) is Some {
            slot_at(s, u)
        } else if e.0@ == u {
            Some(e.1)
        } else {
            None
        }),
    decreases s.len(),
{
    if s.len() > 0 {
        assert(s.push(e).drop_first() =~= s.drop_first().push(e));
        lemma_slot_push(s.drop_first(), e, u);
    } else {
        assert(s.push(e).drop_first() =~= s);
        assert(s.push(e)[0] == e);
    }
}

/// Each lock of the slots moved by one step of transaction `t`: committed
/// when `commit`, rolled back otherwise.
pub open spec fn stepped(l: TxnLock<Vec<u8>>, t: TransactionId, commit: bool) -> TxnLock<Vec<u8>> {
    if commit {
        l.committed(t)
    } else {
        l.rolled_back(t)
    }
}

proof fn lemma_slot_map(s: Seq<Slot>, s2: Seq<Slot>, t: TransactionId, commit: bool, u: Seq<char>)
    requires
        s2.len() == s.len(),
        forall|j: int| 0 <= j < s.len() ==> (#[trigger] s2[j]).0 == s[j].0 && s2[j].1 == stepped(s[j].1, t, commit),
    ensures
        slot_at(s2, u) == (match slot_at(s, u) {
            Some(l) => Some(stepped(l, t, commit)),
            None => None,
        }),
    decreases s.len(),
{
    if s.len() > 0 {
        assert(s2[0].0 == s[0].0);
        assert forall|j: int| 0 <= j < s.len() - 1 implies (#[trigger] s2.drop_first()[j]).0 == s.drop_first()[j].0
            && s2.drop_first()[j].1 == stepped(s.drop_first()[j].1, t, commit) by {
            assert(s2.drop_first()[j] == s2[j + 1]);
            assert(s.drop_first()[j] == s[j + 1]);
        }
        lemma_slot_map(s.drop_first(), s2.drop_first(), t, commit, u);
    }
}

/// The first slot for block `id`, if any.
fn find_slot(s: &Vec<Slot>, id: &String) -> (r: Option<usize>)
    ensures
        r is Some ==> first_slot(s@, id@, r->Some_0 as int),
        r is None ==> forall|j: int| 0 <= j < s@.len() ==> (#[trigger] s@[j]).0@ != id@,
{
    let mut i: usize = 0;
    while i < s.len()
        invariant
            i <= s@.len(),
            forall|j: int| 0 <= j < i ==> (#[trigger] s@[j]).0@ != id@,
        decreases s@.len() - i,
    {
        if s[i].0 == *id {
            return Some(i);
        }
        i = i + 1;
    }
    None
}

/// A cache of block contents: for each block, a transactional lock over
/// its bytes.
pub struct BlockCache {
    pub slots: Vec<Slot>,
}

impl BlockCache {
    /// The lock over block `id`, if it is cached.
    pub open spec fn slot(&self, id: Seq<char>) -> Option<TxnLock<Vec<u8>>> {
        slot_at(self.slots@, id)
    }

    pub fn new() -> (r: BlockCache)
        ensures
            forall|id: Seq<char>| r.slot(id) is None,
    {
        BlockCache { slots: Vec::new() }
    }

    /// Caches `data` as the contents of block `id`, replacing any slot for it.
    pub fn insert(&mut self, id: String, data: Vec<u8>)
        ensures
            forall|u: Seq<char>| #[trigger] final(self).slot(u) == (if u == id@ {
                Some(TxnLock { canonical: data, pending: None })
            } else {
                old(self).slot(u)
            }),
    {
        let ghost before = self.slots@;
        let ghost name = id@;
        let lock = TxnLock::new(data);
        match find_slot(&self.slots, &id) {
            Some(i) => {
                let _ = self.slots.remove(i);
                let e = (id, lock);
                self.slots.insert(i, e);
                proof {
                    assert(self.slots@ =~= before.update(i as int, e));
                    assert forall|u: Seq<char>| #[trigger] slot_at(self.slots@, u) == (if u == name { Some(e.1) } else { slot_at(before, u) }) by {
                        lemma_slot_update(before, name, i as int, e, u);
                    }
                }
            },
            None => {
                let e = (id, lock);
                self.slots.push(e);
                proof {
                    lemma_slot_none(before, name);
                    assert forall|u: Seq<char>| #[trigger] slot_at(self.slots@, u) == (if u == name { Some(e.1) } else { slot_at(before, u) }) by {
                        lemma_slot_push(before, e, u);
                    }
                }
            },
        }
    }

    /// The contents of block `id` that `t` sees, if it is cached.
    pub fn get(&self, id: &String, t: &TransactionId) -> (r: Option<Vec<u8>>)
        ensures
            r is Some <==> self.slot(id@) is Some,
            r is Some ==> r->Some_0@ == self.slot(id@)->Some_0.visible(*t)@,
    {
        match find_slot(&self.slots, id) {
            Some(i) => {
                proof {
                    lemma_slot_first(self.slots@, id@, i as int);
                }
                Some(copy_bytes(self.slots[i].1.read(t)))
            },
            None => {
                proof {
                    lemma_slot_none(self.slots@, id@);
                }
                None
            },
        }
    }

    /// Whether block `id` has a pending value.
    pub fn is_dirty(&self, id: &String) -> (r: bool)
        ensures
            r == (self.slot(id@) is Some && self.slot(id@)->Some_0.pending is Some),
    {
        match find_slot(&self.slots, id) {
            Some(i) => {
                proof {
                    lemma_slot_first(self.slots@, id@, i as int);
                }
                self.slots[i].1.pending.is_some()
            },
            None => {
                proof {
                    lemma_slot_none(self.slots@, id@);
                }
                false
            },
        }
    }

    /// Opens or replaces the pending value of block `id` at `t`.
    pub fn write(&mut self, id: &String, t: &TransactionId, data: Vec<u8>) -> (r: TCResult<()>)
        ensures
            old(self).slot(id@) is None ==> r is Err && r->Err_0.kind == ErrorKind::NotFound,
            old(self).slot(id@) is Some ==> (r is Err <==> old(self).slot(id@)->Some_0.held_by_other(*t)),
            r is Err && r->Err_0.kind != ErrorKind::NotFound ==> r->Err_0.kind == ErrorKind::Conflict,
            r is Err ==> final(self).slots == old(self).slots,
            r is Ok ==> final(self).slot(id@) == Some(TxnLock {
                canonical: old(self).slot(id@)->Some_0.canonical,
                pending: Some((*t, data)),
            }),
            r is Ok ==> forall|u: Seq<char>| u != id@ ==> #[trigger] final(self).slot(u) == old(self).slot(u),
    {
        let ghost before = self.slots@;
        match find_slot(&self.slots, id) {
            Some(i) => {
                proof {
                    lemma_slot_first(before, id@, i as int);
                }
                if self.slots[i].1.is_held_by_other(t) {
                    return Err(TCError::conflict("another transaction holds a pending write"));
                }
                let (name, mut lock) = self.slots.remove(i);
                let _ = lock.write(t, data);
                let e = (name, lock);
                self.slots.insert(i, e);
                proof {
                    assert(self.slots@ =~= before.update(i as int, e));
                    assert forall|u: Seq<char>| #[trigger] slot_at(self.slots@, u) == (if u == id@ { Some(e.1) } else { slot_at(before, u) }) by {
                        lemma_slot_update(before, id@, i as int, e, u);
                    }
                }
                Ok(())
            },
            None => {
                proof {
                    lemma_slot_none(before, id@);
                }
                Err(TCError::not_found("the block is not cached"))
            },
        }
    }

    /// Commits (or, when `commit` is unset, rolls back) `t` in every slot.
    fn step_all(&mut self, t: &TransactionId, commit: bool)
        ensures
            forall|u: Seq<char>| #[trigger] final(self).slot(u) == (match old(self).slot(u) {
                Some(l) => Some(stepped(l, *t, commit)),
                None => None,
            }),
    {
        let ghost s0 = self.slots@;
        let mut i: usize = 0;
        while i < self.slots.len()
            invariant
                self.slots@.len() == s0.len(),
                i <= s0.len(),
                forall|j: int| 0 <= j < i ==> (#[trigger] self.slots@[j]).0 == s0[j].0 && self.slots@[j].1 == stepped(s0[j].1, *t, commit),
                forall|j: int| i <= j < s0.len() ==> #[trigger] self.slots@[j] == s0[j],
            decreases s0.len() - i,
        {
            let ghost before = self.slots@;
            let (name, mut lock) = self.slots.remove(i);
            if commit {
                lock.commit(t);
            } else {
                lock.rollback(t);
            }
            self.slots.insert(i, (name, lock));
            proof {
                assert(self.slots@ =~= before.update(i as int, (name, lock)));
            }
            i = i + 1;
        }
        proof {
            assert forall|u: Seq<char>| #[trigger] slot_at(self.slots@, u) == (match slot_at(s0, u) {
                Some(l) => Some(stepped(l, *t, commit)),
                None => None,
            }) by {
                lemma_slot_map(s0, self.slots@, *t, commit, u);
            }
        }
    }

    /// Promotes the pending value of `t`, in every slot, to canonical.
    pub fn commit(&mut self, t: &TransactionId)
        ensures
            forall|u: Seq<char>| #[trigger] final(self).slot(u) == (match old(self).slot(u) {
                Some(l) => Some(l.committed(*t)),
                None => None,
            }),
    {
        self.step_all(t, true);
    }

    /// Discards the pending value of `t` in every slot.
    pub fn rollback(&mut self, t: &TransactionId)
        ensures
            forall|u: Seq<char>| #[trigger] final(self).slot(u) == (match old(self).slot(u) {
                Some(l) => Some(l.rolled_back(*t)),
                None => None,
            }),
    {
        self.step_all(t, false);
    }

    /// Drops block `id` from the cache, unless a transaction has a pending
    /// value for it; returns whether it was dropped.
    pub fn evict(&mut self, id: &String) -> (r: bool)
        ensures
            r == (old(self).slot(id@) is Some && old(self).slot(id@)->Some_0.pending is None),
            r ==> final(self).slot(id@) is None,
            !r ==> final(self).slots == old(self).slots,
            forall|u: Seq<char>| u != id@ ==> #[trigger] final(self).slot(u) == old(self).slot(u),
    {
        let found = find_slot(&self.slots, id);
        proof {
            if found is Some {
                lemma_slot_first(self.slots@, id@, found->Some_0 as int);
            } else {
                lemma_slot_none(self.slots@, id@);
            }
        }
        if found.is_some() && !self.is_dirty(id) {
            let ghost before = self.slots@;
            let mut kept: Vec<Slot> = Vec::new();
            let mut old_slots: Vec<Slot> = Vec::new();
            std::mem::swap(&mut old_slots, &mut self.slots);
            let n = old_slots.len();
            let mut i: usize = 0;
            proof {
                assert(before.subrange(0, 0) + old_slots@ =~= before);
            }
            while old_slots.len() > 0
                invariant
                    i <= before.len(),
                    before.len() == n,
                    old_slots@ == before.subrange(i as int, before.len() as int),
                    forall|u: Seq<char>| #[trigger] slot_at(kept@, u) == (if u == id@ { None } else { slot_at(before.subrange(0, i as int), u) }),
                decreases old_slots@.len(),
            {
                let e = old_slots.remove(0);
                let ghost pre = before.subrange(0, i as int);
                proof {
                    assert(e == before[i as int]);
                    assert(before.subrange(0, i + 1) =~= pre.push(e));
                    assert(old_slots@ =~= before.subrange(i + 1, before.len() as int));
                }
                let ghost k0 = kept@;
                if e.0 != *id {
                    kept.push(e);
                    proof {
                        assert forall|u: Seq<char>| #[trigger] slot_at(kept@, u) == (if u == id@ { None } else { slot_at(before.subrange(0, i + 1), u) }) by {
                            lemma_slot_push(k0, e, u);
                            lemma_slot_push(pre, e, u);
                        }
                    }
                } else {
                    proof {
                        assert forall|u: Seq<char>| #[trigger] slot_at(kept@, u) == (if u == id@ { None } else { slot_at(before.subrange(0, i + 1), u) }) by {
                            lemma_slot_push(pre, e, u);
                        }
                    }
                }
                i = i + 1;
            }
            proof {
                assert(before.subrange(0, i as int) =~= before);
            }
            self.slots = kept;
            true
        } else {
            false
        }
    }
}

} // verus!
