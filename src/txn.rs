use vstd::prelude::*;

use crate::error::{TCError, TCResult};

verus! {

/// A transaction identifier: a timestamp in nanoseconds and a nonce that
/// separates transactions begun at the same instant. Identifiers are
/// ordered by timestamp, then by nonce.
#[derive(Clone, Copy, Debug, PartialEq, Eq, Structural, Hash)]
pub struct TransactionId {
    pub timestamp: u128,
    pub nonce: u16,
}

/// The order of transaction identifiers.
pub open spec fn txid_lt(a: TransactionId, b: TransactionId) -> bool {
    a.timestamp < b.timestamp || (a.timestamp == b.timestamp && a.nonce < b.nonce)
}

pub open spec fn txid_le(a: TransactionId, b: TransactionId) -> bool {
    txid_lt(a, b) || a == b
}

/// Relies on rand::random: any `u16` may come back.
#[verifier::external_body]
fn random_nonce() -> (r: u16) {
    rand::random::<u16>()
}

impl TransactionId {
    /// An identifier at the given timestamp with a random nonce.
    pub fn new(timestamp: u128) -> (r: TransactionId)
        ensures
            r.timestamp == timestamp,
    {
        let nonce = random_nonce();
        TransactionId { timestamp, nonce }
    }

    /// An identifier with a given nonce.
    pub fn with_nonce(timestamp: u128, nonce: u16) -> (r: TransactionId)
        ensures
            r.timestamp == timestamp,
            r.nonce == nonce,
    {
        TransactionId { timestamp, nonce }
    }

    pub fn less_than(&self, other: &TransactionId) -> (r: bool)
        ensures
            r == txid_lt(*self, *other),
    {
        self.timestamp < other.timestamp || (self.timestamp == other.timestamp && self.nonce
            < other.nonce)
    }

    pub fn at_or_before(&self, other: &TransactionId) -> (r: bool)
        ensures
            r == txid_le(*self, *other),
    {
        self.less_than(other) || *self == *other
    }
}

/// A value under transactional control: a canonical value, and at most one
/// pending value, written by one transaction and not yet committed.
pub struct TxnLock<T> {
    pub canonical: T,
    pub pending: Option<(TransactionId, T)>,
}

impl<T> TxnLock<T> {
    /// What a reader at `txid` sees: its own pending value, else the canonical one.
    pub open spec fn visible(&self, txid: TransactionId) -> T {
        match self.pending {
            Some((t, v)) if t == txid => v,
            _ => self.canonical,
        }
    }

    /// Whether a transaction other than `txid` holds the pending value.
    pub open spec fn held_by_other(&self, txid: TransactionId) -> bool {
        match self.pending {
            Some((t, _)) => t != txid,
            None => false,
        }
    }

    pub fn new(canonical: T) -> (r: TxnLock<T>)
        ensures
            r.canonical == canonical,
            r.pending.is_none(),
    {
        TxnLock { canonical, pending: None }
    }

    /// The value visible at `txid`.
    pub fn read(&self, txid: &TransactionId) -> (r: &T)
        ensures
            *r == self.visible(*txid),
    {
        match &self.pending {
            Some((t, v)) => {
                if *t == *txid {
                    v
                } else {
                    &self.canonical
                }
            },
            None => &self.canonical,
        }
    }

    /// Whether `txid` holds the pending value.
    pub fn is_pending_at(&self, txid: &TransactionId) -> (r: bool)
        ensures
            r == (self.pending.is_some() && self.pending.unwrap().0 == *txid),
    {
        match &self.pending {
            Some((t, _)) => *t == *txid,
            None => false,
        }
    }

    /// Whether a transaction other than `txid` holds the pending value.
    pub fn is_held_by_other(&self, txid: &TransactionId) -> (r: bool)
        ensures
            r == self.held_by_other(*txid),
    {
        match &self.pending {
            Some((t, _)) => *t != *txid,
            None => false,
        }
    }

    /// Opens or replaces the pending value of `txid`. Fails with a conflict
    /// when another transaction holds the pending value.
    pub fn write(&mut self, txid: &TransactionId, value: T) -> (r: TCResult<()>)
        ensures
            r.is_err() <==> old(self).held_by_other(*txid),
            r.is_err() ==> r->Err_0.kind == crate::error::ErrorKind::Conflict && *final(self)
                == *old(self),
            r.is_ok() ==> final(self).canonical == old(self).canonical && final(self).pending
                == Some((*txid, value)),
    {
        let other = match &self.pending {
            Some((t, _)) => *t != *txid,
            None => false,
        };
        if other {
            Err(TCError::conflict("another transaction holds a pending write"))
        } else {
            self.pending = Some((*txid, value));
            Ok(())
        }
    }

    /// The state after `txid` commits.
    pub open spec fn committed(self, txid: TransactionId) -> TxnLock<T> {
        match self.pending {
            Some((t, v)) if t == txid => TxnLock { canonical: v, pending: None },
            _ => self,
        }
    }

    /// The state after `txid` rolls back.
    pub open spec fn rolled_back(self, txid: TransactionId) -> TxnLock<T> {
        match self.pending {
            Some((t, _)) if t == txid => TxnLock { canonical: self.canonical, pending: None },
            _ => self,
        }
    }

    /// The state after `txid` is finalized.
    pub open spec fn finalized(self, txid: TransactionId) -> TxnLock<T> {
        match self.pending {
            Some((t, _)) if txid_le(t, txid) => TxnLock {
                canonical: self.canonical,
                pending: None,
            },
            _ => self,
        }
    }

    /// Promotes the pending value of `txid`, if there is one, to canonical.
    pub fn commit(&mut self, txid: &TransactionId)
        ensures
            *final(self) == old(self).committed(*txid),
    {
        if self.is_pending_at(txid) {
            let p = self.pending.take();
            match p {
                Some((_, v)) => {
                    self.canonical = v;
                },
                None => {},
            }
        }
    }

    /// Discards the pending value of `txid`, if there is one.
    pub fn rollback(&mut self, txid: &TransactionId)
        ensures
            *final(self) == old(self).rolled_back(*txid),
    {
        if self.is_pending_at(txid) {
            self.pending = None;
        }
    }

    /// Releases the pending state of any transaction at or before `txid`.
    pub fn finalize(&mut self, txid: &TransactionId)
        ensures
            *final(self) == old(self).finalized(*txid),
    {
        let release = match &self.pending {
            Some((t, _)) => t.at_or_before(txid),
            None => false,
        };
        if release {
            self.pending = None;
        }
    }
}

/// Rolling back a transaction twice leaves the lock as rolling it back once;
/// so does finalizing twice.
pub proof fn lemma_rollback_finalize_idempotent<T>(lock: TxnLock<T>, txid: TransactionId)
    ensures
        lock.rolled_back(txid).rolled_back(txid) == lock.rolled_back(txid),
        lock.finalized(txid).finalized(txid) == lock.finalized(txid),
{
}

/// After a commit, every transaction reads the committed value, and the
/// committing transaction holds nothing pending.
pub proof fn lemma_commit_publishes<T>(lock: TxnLock<T>, txid: TransactionId, reader: TransactionId)
    requires
        lock.pending.is_some(),
        lock.pending.unwrap().0 == txid,
    ensures
        lock.committed(txid).visible(reader) == lock.visible(txid),
        lock.committed(txid).pending.is_none(),
{
}

} // verus!
