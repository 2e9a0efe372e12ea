//! Laws of the naming scheme, stated over the spec functions the contracts
//! use.
//!
//! `remove_return` guarantees that every temporary name in a rewritten root
//! of a source tree lies in the half-open counter ranges of that run, and
//! that the counters only grow.  The lemmas here close the uniqueness
//! argument: a name cannot lie in two disjoint ranges, so two runs of the
//! pass over one naming context — in particular over two structurally
//! identical inputs of the same compilation unit — never produce two
//! temporaries with the same name.

use vstd::prelude::*;
use crate::ir::{has_temp, lemma_has_temp_in_range, temps_bounded, Expression, TempName};

verus! {

/// Trees whose temporary names lie in disjoint counter ranges share no
/// temporary name: what one run of the pass produced, a later run of the
/// same naming context can never mint again.
pub proof fn lemma_runs_share_no_temporary(
    e1: Expression,
    e2: Expression,
    m0: int,
    m1: int,
    m2: int,
    t0: int,
    t1: int,
    t2: int,
    n: TempName,
)
    requires
        temps_bounded(e1, m0, m1, t0, t1),
        temps_bounded(e2, m1, m2, t1, t2),
        has_temp(e1, n),
    ensures
        !has_temp(e2, n),
{
    lemma_has_temp_in_range(e1, n, m0, m1, t0, t1);
    if has_temp(e2, n) {
        lemma_has_temp_in_range(e2, n, m1, m2, t1, t2);
    }
}

/// Two distinct indices of one naming scheme give distinct names.
pub proof fn lemma_temp_names_injective(a: TempName, b: TempName)
    requires
        a.kind == b.kind,
        a.index != b.index,
    ensures
        a != b,
{
}

/// Names whose indices lie in disjoint counter ranges are distinct: a name
/// minted by one run of the pass never equals a name minted by a later run
/// over the same naming context.
pub proof fn lemma_disjoint_ranges_distinct_names(
    a: TempName,
    b: TempName,
    lo1: int,
    hi1: int,
    lo2: int,
    hi2: int,
)
    requires
        lo1 <= a.index < hi1,
        lo2 <= b.index < hi2,
        hi1 <= lo2,
    ensures
        a != b,
{
}

} // verus!
