//! The library-wide laws: what the enumeration and the report promise as
//! a whole, proved once over the models that the functions' contracts
//! speak of.

use vstd::prelude::*;
use crate::agg::count_some;
use crate::agg::entries_list;
use crate::agg::run;
use crate::agg::sum_counts;
use crate::lock::replay;
use crate::moves::all_seqs;
use crate::moves::geom4;
use crate::moves::lemma_all_seqs_len;
use crate::moves::lemma_all_seqs_valid;
use crate::report::sort_model;

verus! {

/// Replaying a move sequence is deterministic: any two locks built by
/// replaying the same sequence from the reset state are identical.
pub proof fn lemma_replay_deterministic(s: Seq<u8>, l1: Seq<int>, l2: Seq<int>)
    requires
        l1 == replay(s),
        l2 == replay(s),
    ensures
        l1 == l2,
{
}

/// Enumeration completeness: for a maximum of `max` moves, the number of
/// (sequence, resulting state) pairs recorded is `4 + 4^2 + ... +
/// 4^max`.
pub proof fn lemma_enumeration_complete(max: nat)
    ensures
        sum_counts(run(all_seqs(max))) == geom4(max),
{
    lemma_all_seqs_valid(max);
    crate::agg::lemma_run_props(all_seqs(max));
    lemma_all_seqs_len(max);
}

/// Aggregation consistency: the counts over all entries sum to the pairs
/// recorded, and the distinct states plus the duplicates are exactly the
/// pairs recorded.
pub proof fn lemma_aggregation_consistent(max: nat)
    ensures
        sum_counts(run(all_seqs(max))) == geom4(max),
        count_some(run(all_seqs(max))) + (sum_counts(run(all_seqs(max))) - count_some(
            run(all_seqs(max)),
        )) == geom4(max),
        0 <= count_some(run(all_seqs(max))) <= geom4(max),
{
    lemma_enumeration_complete(max);
    lemma_all_seqs_valid(max);
    crate::agg::lemma_run_props(all_seqs(max));
}

/// Round-trip determinism: two tables built by enumerating the same
/// maximum hold the same entries and sort to the identical report.
pub proof fn lemma_report_deterministic(
    max: nat,
    t1: Seq<Option<crate::agg::TargetModel>>,
    t2: Seq<Option<crate::agg::TargetModel>>,
)
    requires
        t1 == run(all_seqs(max)),
        t2 == run(all_seqs(max)),
    ensures
        t1 == t2,
        sort_model(entries_list(t1)) == sort_model(entries_list(t2)),
{
}

} // verus!
