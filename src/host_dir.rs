use vstd::prelude::*;

use crate::error::{ErrorKind, TCError, TCResult};

verus! {

/// The blobs a list of entries describes: a later entry for a name
/// replaces an earlier one.
pub open spec fn entries_map(s: Seq<(String, Vec<u8>)>) -> Map<Seq<char>, Seq<u8>>
    decreases s.len(),
{
    if s.len() == 0 {
        Map::empty()
    } else {
        entries_map(s.drop_last()).insert(s.last().0@, s.last().1@)
    }
}

/// A directory of named blobs.
#[derive(Debug)]
pub struct HostDir {
    pub entries: Vec<(String, Vec<u8>)>,
}

impl View for HostDir {
    type V = Map<Seq<char>, Seq<u8>>;

    open spec fn view(&self) -> Map<Seq<char>, Seq<u8>> {
        entries_map(self.entries@)
    }
}

/// A copy of a blob.
pub fn copy_bytes(b: &Vec<u8>) -> (r: Vec<u8>)
    ensures
        r@ == b@,
{
    let mut copy: Vec<u8> = Vec::new();
    let mut t: usize = 0;
    while t < b.len()
        invariant
            t <= b@.len(),
            copy@ == b@.subrange(0, t as int),
        decreases b@.len() - t,
    {
        copy.push(b[t]);
        proof {
            assert(copy@ =~= b@.subrange(0, t + 1));
        }
        t = t + 1;
    }
    proof {
        assert(copy@ =~= b@);
    }
    copy
}

impl HostDir {
    pub fn new() -> (r: HostDir)
        ensures
            r@ == Map::<Seq<char>, Seq<u8>>::empty(),
    {
        HostDir { entries: Vec::new() }
    }

    /// The blob called `name`, if there is one.
    pub fn get_block(&self, name: &String) -> (r: Option<Vec<u8>>)
        ensures
            r is Some <==> self@.contains_key(name@),
            r is Some ==> r->Some_0@ == self@[name@],
    {
        let mut i: usize = self.entries.len();
        proof {
            assert(self.entries@.subrange(0, self.entries@.len() as int) =~= self.entries@);
        }
        while i > 0
            invariant
                i <= self.entries@.len(),
                forall|j: int| i <= j < self.entries@.len() ==> (#[trigger] self.entries@[j]).0@ != name@,
                entries_map(self.entries@).contains_key(name@) == entries_map(self.entries@.subrange(0, i as int)).contains_key(name@),
                entries_map(self.entries@).contains_key(name@) ==> entries_map(self.entries@)[name@] == entries_map(self.entries@.subrange(0, i as int))[name@],
            decreases i,
        {
            let ghost pre = self.entries@.subrange(0, i as int);
            assert(pre.drop_last() =~= self.entries@.subrange(0, i - 1));
            if self.entries[i - 1].0 == *name {
                return Some(copy_bytes(&self.entries[i - 1].1));
            }
            i = i - 1;
        }
        proof {
            assert(self.entries@.subrange(0, 0) =~= Seq::<(String, Vec<u8>)>::empty());
        }
        None
    }

    /// Whether there is a blob called `name`.
    pub fn contains(&self, name: &String) -> (r: bool)
        ensures
            r == self@.contains_key(name@),
    {
        self.get_block(name).is_some()
    }

    /// Creates the blob `name`; fails with a conflict when there is one.
    pub fn create_block(&mut self, name: String, data: Vec<u8>) -> (r: TCResult<()>)
        ensures
            r is Err <==> old(self)@.contains_key(name@),
            r is Err ==> r->Err_0.kind == ErrorKind::Conflict && final(self)@ == old(self)@,
            r is Ok ==> final(self)@ == old(self)@.insert(name@, data@),
    {
        if self.contains(&name) {
            return Err(TCError::conflict("there is already a blob of that name"));
        }
        self.write_block(name, data);
        Ok(())
    }

    /// Writes the blob `name`, replacing any blob of that name.
    pub fn write_block(&mut self, name: String, data: Vec<u8>)
        ensures
            final(self)@ == old(self)@.insert(name@, data@),
    {
        self.entries.push((name, data));
        proof {
            assert(self.entries@.drop_last() =~= old(self).entries@);
        }
    }

    /// Removes the blob `name`; fails when there is none.
    pub fn delete_block(&mut self, name: &String) -> (r: TCResult<()>)
        ensures
            r is Err <==> !old(self)@.contains_key(name@),
            r is Err ==> r->Err_0.kind == ErrorKind::NotFound,
            final(self)@ == old(self)@.remove(name@),
    {
        if !self.contains(name) {
            proof {
                assert(self@.remove(name@) =~= self@);
            }
            return Err(TCError::not_found("no blob of that name"));
        }
        self.remove_block(name);
        Ok(())
    }

    fn remove_block(&mut self, name: &String)
        ensures
            final(self)@ == old(self)@.remove(name@),
    {
        let mut kept: Vec<(String, Vec<u8>)> = Vec::new();
        let mut i: usize = 0;
        while i < self.entries.len()
            invariant
                self.entries == old(self).entries,
                i <= self.entries@.len(),
                entries_map(kept@) == entries_map(self.entries@.subrange(0, i as int)).remove(name@),
            decreases self.entries@.len() - i,
        {
            let ghost pre = self.entries@.subrange(0, i + 1);
            proof {
                assert(pre.drop_last() =~= self.entries@.subrange(0, i as int));
            }
            if self.entries[i].0 != *name {
                let e = (self.entries[i].0.clone(), copy_bytes(&self.entries[i].1));
                let ghost before = kept@;
                kept.push(e);
                proof {
                    assert(kept@.drop_last() =~= before);
                    assert(entries_map(kept@) =~= entries_map(pre).remove(name@));
                }
            } else {
                proof {
                    assert(entries_map(kept@) =~= entries_map(pre).remove(name@));
                }
            }
            i = i + 1;
        }
        proof {
            assert(self.entries@.subrange(0, self.entries@.len() as int) =~= self.entries@);
        }
        self.entries = kept;
    }

    /// Moves every blob of `src` into this directory, replacing blobs of the
    /// same name.
    pub fn copy_all(&mut self, src: &HostDir)
        ensures
            final(self)@ == old(self)@.union_prefer_right(src@),
    {
        let mut i: usize = 0;
        while i < src.entries.len()
            invariant
                i <= src.entries@.len(),
                entries_map(self.entries@) == entries_map(old(self).entries@).union_prefer_right(
                    entries_map(src.entries@.subrange(0, i as int)),
                ),
            decreases src.entries@.len() - i,
        {
            let ghost pre = src.entries@.subrange(0, i + 1);
            proof {
                assert(pre.drop_last() =~= src.entries@.subrange(0, i as int));
            }
            let e = (src.entries[i].0.clone(), copy_bytes(&src.entries[i].1));
            let ghost before = self.entries@;
            self.entries.push(e);
            proof {
                assert(self.entries@.drop_last() =~= before);
                assert(entries_map(self.entries@) =~= entries_map(old(self).entries@).union_prefer_right(entries_map(pre)));
            }
            i = i + 1;
        }
        proof {
            assert(src.entries@.subrange(0, src.entries@.len() as int) =~= src.entries@);
        }
    }

    /// Whether the directory holds no blob.
    pub fn is_empty(&self) -> (r: bool)
        ensures
            r == (self@ == Map::<Seq<char>, Seq<u8>>::empty()),
    {
        proof {
            if self.entries@.len() > 0 {
                assert(self@.contains_key(self.entries@.last().0@));
            } else {
                assert(self@ =~= Map::<Seq<char>, Seq<u8>>::empty());
            }
        }
        self.entries.len() == 0
    }
}

} // verus!
