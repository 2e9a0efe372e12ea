//! The naming context: an explicit pair of monotonically increasing counters
//! threaded through one compilation run, minting globally unique temporary
//! names (one scheme per merge point, one for final materialization).

use vstd::prelude::*;
use crate::ir::{NameKind, TempName};

verus! {

/// The pass's private source of unique temporary names.  Each mint uses the
/// current counter of its kind and increments it, so no two names minted
/// from one context (across any number of pass invocations) are ever equal.
pub struct NameGen {
    pub merge: u64,
    pub materialize: u64,
}

impl NameGen {
    /// A fresh naming context for a new compilation run.
    pub fn new() -> (r: NameGen)
        ensures
            r.merge == 0,
            r.materialize == 0,
    {
        NameGen { merge: 0, materialize: 0 }
    }

    /// Mint a fresh per-merge-point temporary name.
    pub fn fresh_merge(&mut self) -> (r: TempName)
        requires
            old(self).merge < u64::MAX,
        ensures
            r == (TempName { kind: NameKind::Merge, index: old(self).merge }),
            final(self).merge == old(self).merge + 1,
            final(self).materialize == old(self).materialize,
    {
        let index = self.merge;
        self.merge = self.merge + 1;
        TempName { kind: NameKind::Merge, index }
    }

    /// Mint a fresh materialization temporary name.
    pub fn fresh_materialize(&mut self) -> (r: TempName)
        requires
            old(self).materialize < u64::MAX,
        ensures
            r == (TempName { kind: NameKind::Materialize, index: old(self).materialize }),
            final(self).materialize == old(self).materialize + 1,
            final(self).merge == old(self).merge,
    {
        let index = self.materialize;
        self.materialize = self.materialize + 1;
        TempName { kind: NameKind::Materialize, index }
    }
}

} // verus!
