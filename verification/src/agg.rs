//! Exhaustive enumeration and aggregation.
//!
//! The enumerator replays every move sequence of length 1 to `max`
//! against a fresh lock and files the outcome in a table with one slot
//! per possible lock state, keyed by the state's base-15 index. Each
//! occupied slot counts the sequences that end there, keeps the first
//! such sequence, and keeps them all in enumeration order.

use vstd::prelude::*;
use crate::lock::Lock;
use crate::lock::lock_index;
use crate::lock::lock_wf;
use crate::lock::replay;
use crate::lock::state_of_index;
use crate::lock::lemma_replay_wf;
use crate::lock::lemma_index_range;
use crate::lock::STATE_SPACE;
use crate::moves::MoveSeq;
use crate::moves::all_seqs;
use crate::moves::codes_of_len;
use crate::moves::copy_dirs;
use crate::moves::dirs_of_code;
use crate::moves::geom4;
use crate::moves::lemma_all_seqs_valid;
use crate::moves::lemma_all_seqs_len;
use crate::moves::lemma_dirs_of_code_valid;
use crate::moves::lemma_geom4_bound;
use crate::moves::lemma_pow4_pos;
use crate::moves::pow4;
use crate::moves::pow4_exec;
use crate::moves::valid_dirs;
use crate::moves::valid_seq_list;

verus! {

/// The mathematical content of one aggregation entry.
#[verifier::ext_equal]
pub ghost struct TargetModel {
    /// How many enumerated sequences arrive at this lock state.
    pub count: int,
    /// The first enumerated sequence that got here.
    pub first: Seq<u8>,
    /// All sequences that got here, in enumeration order.
    pub all: Seq<Seq<u8>>,
}

/// How we got to a state.
pub struct Target {
    /// How many sequences (up to the max) arrive at this state.
    pub count: u64,
    /// The first sequence we encountered that got here.
    pub seq: MoveSeq,
    /// All of the sequences for this state.
    pub all: Vec<MoveSeq>,
}

impl View for Target {
    type V = TargetModel;

    open spec fn view(&self) -> TargetModel {
        TargetModel {
            count: self.count as int,
            first: self.seq@,
            all: Seq::new(self.all@.len(), |i: int| self.all@[i]@),
        }
    }
}

/// A well-formed entry: the count matches the list of sequences, the
/// first sequence heads that list, and every sequence is valid.
pub open spec fn entry_wf(e: TargetModel) -> bool {
    &&& e.count == e.all.len()
    &&& e.count >= 1
    &&& e.first == e.all[0]
    &&& forall|i: int| 0 <= i < e.all.len() ==> valid_dirs(#[trigger] e.all[i])
}

/// The table before anything is recorded: one empty slot per state.
pub open spec fn empty_table() -> Seq<Option<TargetModel>> {
    Seq::new(STATE_SPACE as nat, |i: int| None::<TargetModel>)
}

/// Filing one sequence under the index of the state it reaches.
pub open spec fn record_spec(t: Seq<Option<TargetModel>>, s: Seq<u8>) -> Seq<
    Option<TargetModel>,
> {
    let k = lock_index(replay(s));
    match t[k] {
        None => t.update(k, Some(TargetModel { count: 1, first: s, all: seq![s] })),
        Some(e) => t.update(
            k,
            Some(TargetModel { count: e.count + 1, first: e.first, all: e.all.push(s) }),
        ),
    }
}

/// The table after filing a whole list of sequences, in order.
pub open spec fn run(l: Seq<Seq<u8>>) -> Seq<Option<TargetModel>>
    decreases l.len(),
{
    if l.len() == 0 {
        empty_table()
    } else {
        record_spec(run(l.drop_last()), l.last())
    }
}

/// The count held in a slot, zero for an empty one.
pub open spec fn slot_count(o: Option<TargetModel>) -> int {
    match o {
        Some(e) => e.count,
        None => 0,
    }
}

/// One for an occupied slot, zero for an empty one.
pub open spec fn slot_one(o: Option<TargetModel>) -> int {
    if o is Some {
        1
    } else {
        0
    }
}

/// The sum of the counts of all slots: every recorded pair, with
/// multiplicity.
pub open spec fn sum_counts(t: Seq<Option<TargetModel>>) -> int
    decreases t.len(),
{
    if t.len() == 0 {
        0
    } else {
        sum_counts(t.drop_last()) + slot_count(t.last())
    }
}

/// The number of occupied slots: the distinct reachable states.
pub open spec fn count_some(t: Seq<Option<TargetModel>>) -> int
    decreases t.len(),
{
    if t.len() == 0 {
        0
    } else {
        count_some(t.drop_last()) + slot_one(t.last())
    }
}

/// A well-formed table: one slot per state, well-formed entries, and a
/// total count that fits the machine.
pub open spec fn table_wf(t: Seq<Option<TargetModel>>) -> bool {
    &&& t.len() == STATE_SPACE as int
    &&& forall|k: int|
        0 <= k < t.len() ==> ((#[trigger] t[k]) matches Some(e) ==> entry_wf(e))
    &&& sum_counts(t) <= u64::MAX as int
}

/// A table of empty slots sums to zero.
proof fn lemma_sums_all_none(t: Seq<Option<TargetModel>>)
    requires
        forall|k: int| 0 <= k < t.len() ==> (#[trigger] t[k]) is None,
    ensures
        sum_counts(t) == 0,
        count_some(t) == 0,
    decreases t.len(),
{
    if t.len() > 0 {
        lemma_sums_all_none(t.drop_last());
    }
}

/// Updating one slot moves both sums by the difference at that slot.
proof fn lemma_sums_update(t: Seq<Option<TargetModel>>, k: int, v: Option<TargetModel>)
    requires
        0 <= k < t.len(),
    ensures
        sum_counts(t.update(k, v)) == sum_counts(t) - slot_count(t[k]) + slot_count(v),
        count_some(t.update(k, v)) == count_some(t) - slot_one(t[k]) + slot_one(v),
    decreases t.len(),
{
    let u = t.update(k, v);
    if k == t.len() - 1 {
        assert(u.drop_last() =~= t.drop_last());
    } else {
        assert(u.drop_last() =~= t.drop_last().update(k, v));
        lemma_sums_update(t.drop_last(), k, v);
    }
}

/// Both sums of a prefix are bounded by the sums of the whole table,
/// when every slot count is nonnegative.
proof fn lemma_sums_take(t: Seq<Option<TargetModel>>, i: int)
    requires
        0 <= i <= t.len(),
        forall|k: int| 0 <= k < t.len() ==> slot_count(#[trigger] t[k]) >= 0,
    ensures
        0 <= sum_counts(t.take(i)) <= sum_counts(t),
        0 <= count_some(t.take(i)) <= count_some(t),
        count_some(t) <= t.len(),
    decreases t.len(),
{
    if t.len() == 0 {
        assert(t.take(i) =~= t);
    } else if i == t.len() {
        assert(t.take(i) =~= t);
        assert(t.drop_last().take(t.len() - 1) =~= t.drop_last());
        lemma_sums_take(t.drop_last(), t.len() - 1);
    } else {
        assert(t.take(i) =~= t.drop_last().take(i));
        lemma_sums_take(t.drop_last(), i);
        assert(slot_count(t.last()) >= 0);
    }
}

/// One slot's count never exceeds the sum of all counts.
proof fn lemma_entry_le_sum(t: Seq<Option<TargetModel>>, k: int)
    requires
        0 <= k < t.len(),
        forall|j: int| 0 <= j < t.len() ==> slot_count(#[trigger] t[j]) >= 0,
    ensures
        slot_count(t[k]) <= sum_counts(t),
    decreases t.len(),
{
    if k == t.len() - 1 {
        lemma_sums_take(t.drop_last(), t.len() - 1);
        assert(t.drop_last().take(t.len() - 1) =~= t.drop_last());
    } else {
        lemma_entry_le_sum(t.drop_last(), k);
        assert(slot_count(t.last()) >= 0);
    }
}

/// What one filing step does to the table: the landing slot gains the
/// sequence, the sums move by one pair and at most one state, and
/// well-formedness is kept.
proof fn lemma_record_spec_props(t: Seq<Option<TargetModel>>, s: Seq<u8>)
    requires
        t.len() == STATE_SPACE as int,
        forall|k: int| 0 <= k < t.len() ==> ((#[trigger] t[k]) matches Some(e) ==> entry_wf(e)),
        valid_dirs(s),
    ensures
        record_spec(t, s).len() == STATE_SPACE as int,
        forall|k: int|
            0 <= k < t.len() ==> ((#[trigger] record_spec(t, s)[k]) matches Some(e) ==> entry_wf(
                e,
            )),
        sum_counts(record_spec(t, s)) == sum_counts(t) + 1,
        count_some(t) <= count_some(record_spec(t, s)) <= count_some(t) + 1,
{
    let k = lock_index(replay(s));
    lemma_replay_wf(s);
    lemma_index_range(replay(s));
    let u = record_spec(t, s);
    match t[k] {
        None => {
            lemma_sums_update(t, k, u[k]);
        },
        Some(e) => {
            assert(entry_wf(e));
            let e2 = TargetModel { count: e.count + 1, first: e.first, all: e.all.push(s) };
            assert(e2.all[0] == e.all[0]);
            assert(forall|i: int|
                0 <= i < e2.all.len() ==> valid_dirs(#[trigger] e2.all[i]));
            lemma_sums_update(t, k, u[k]);
        },
    }
}

/// The table built from a list of valid sequences is well formed but for
/// the machine bound, and its sums follow the list: one pair per
/// sequence, and no more distinct states than pairs.
pub proof fn lemma_run_props(l: Seq<Seq<u8>>)
    requires
        valid_seq_list(l),
    ensures
        run(l).len() == STATE_SPACE as int,
        forall|k: int|
            0 <= k < STATE_SPACE as int ==> ((#[trigger] run(l)[k]) matches Some(e) ==> entry_wf(
                e,
            )),
        sum_counts(run(l)) == l.len(),
        0 <= count_some(run(l)) <= l.len(),
    decreases l.len(),
{
    if l.len() == 0 {
        lemma_sums_all_none(empty_table());
    } else {
        assert(valid_seq_list(l.drop_last()));
        lemma_run_props(l.drop_last());
        assert(valid_dirs(l.last()));
        lemma_record_spec_props(run(l.drop_last()), l.last());
    }
}

/// The aggregation table: one slot per possible lock state, keyed by the
/// state's base-15 index.
pub struct AggTable {
    slots: Vec<Option<Target>>,
}

impl View for AggTable {
    type V = Seq<Option<TargetModel>>;

    closed spec fn view(&self) -> Seq<Option<TargetModel>> {
        Seq::new(
            self.slots@.len(),
            |i: int|
                match self.slots@[i] {
                    Some(t) => Some(t@),
                    None => None,
                },
        )
    }
}

impl AggTable {
    /// A table is always kept well formed.
    pub open spec fn wf(&self) -> bool {
        table_wf(self@)
    }

    /// An empty table, one vacant slot per lock state.
    pub fn new() -> (t: AggTable)
        ensures
            t@ == empty_table(),
            t.wf(),
    {
        let mut slots: Vec<Option<Target>> = Vec::new();
        while slots.len() < STATE_SPACE
            invariant
                slots@.len() <= STATE_SPACE as int,
                forall|i: int| 0 <= i < slots@.len() ==> (#[trigger] slots@[i]) is None,
            decreases STATE_SPACE as int - slots@.len(),
        {
            slots.push(None);
        }
        let t = AggTable { slots };
        proof {
            assert(t@ =~= empty_table());
            lemma_sums_all_none(t@);
        }
        t
    }

    /// File one replayed sequence under the state it reached. The lock
    /// handed in must be the replay of the directions handed in.
    pub fn record(&mut self, lock: &Lock, dirs: Vec<u8>)
        requires
            old(self).wf(),
            lock.wf(),
            valid_dirs(dirs@),
            lock@ == replay(dirs@),
            sum_counts(old(self)@) < u64::MAX as int,
        ensures
            final(self)@ == record_spec(old(self)@, dirs@),
            final(self).wf(),
    {
        proof {
            lemma_replay_wf(dirs@);
            lemma_index_range(lock@);
            assert(forall|j: int|
                0 <= j < old(self)@.len() ==> slot_count(#[trigger] old(self)@[j]) >= 0);
            lemma_entry_le_sum(old(self)@, lock_index(lock@));
            lemma_record_spec_props(old(self)@, dirs@);
        }
        let k = lock.index();
        let slot = &mut self.slots[k];
        match slot {
            Some(t) => {
                t.count = t.count + 1;
                t.all.push(MoveSeq(dirs));
            },
            None => {
                let first = MoveSeq(copy_dirs(&dirs));
                let mut all_v: Vec<MoveSeq> = Vec::new();
                all_v.push(MoveSeq(dirs));
                *slot = Some(Target { count: 1, seq: first, all: all_v });
            },
        }
        proof {
            assert(self@ =~~= record_spec(old(self)@, dirs@));
        }
    }

    /// The number of distinct lock states recorded so far.
    pub fn distinct_states(&self) -> (n: usize)
        requires
            self.wf(),
        ensures
            n as int == count_some(self@),
            n <= STATE_SPACE,
    {
        let mut n: usize = 0;
        let mut i: usize = 0;
        while i < self.slots.len()
            invariant
                self.wf(),
                i <= self@.len(),
                n as int == count_some(self@.take(i as int)),
                n <= i <= STATE_SPACE,
            decreases self@.len() - i,
        {
            proof {
                assert(self@.take(i as int + 1).drop_last() =~= self@.take(i as int));
                assert(self@.take(i as int + 1).last() == self@[i as int]);
            }
            if self.slots[i].is_some() {
                n = n + 1;
            }
            i = i + 1;
        }
        proof {
            assert(self@.take(self@.len() as int) =~= self@);
        }
        n
    }

    /// The total number of (sequence, resulting state) pairs recorded.
    pub fn total_recorded(&self) -> (n: u64)
        requires
            self.wf(),
        ensures
            n as int == sum_counts(self@),
    {
        let mut n: u64 = 0;
        let mut i: usize = 0;
        proof {
            assert(forall|j: int|
                0 <= j < self@.len() ==> slot_count(#[trigger] self@[j]) >= 0);
        }
        while i < self.slots.len()
            invariant
                self.wf(),
                i <= self@.len(),
                n as int == sum_counts(self@.take(i as int)),
            decreases self@.len() - i,
        {
            proof {
                assert(forall|j: int|
                    0 <= j < self@.len() ==> slot_count(#[trigger] self@[j]) >= 0);
                assert(self@.take(i as int + 1).drop_last() =~= self@.take(i as int));
                assert(self@.take(i as int + 1).last() == self@[i as int]);
                lemma_sums_take(self@, i as int + 1);
            }
            match &self.slots[i] {
                Some(t) => {
                    n = n + t.count;
                },
                None => {},
            }
            i = i + 1;
        }
        proof {
            assert(self@.take(self@.len() as int) =~= self@);
        }
        n
    }

    /// The number of duplicate pairs: recorded pairs beyond the first
    /// one for each distinct state.
    pub fn duplicates(&self) -> (n: u64)
        requires
            self.wf(),
        ensures
            n as int == sum_counts(self@) - count_some(self@),
    {
        let total = self.total_recorded();
        let distinct = self.distinct_states();
        proof {
            lemma_sums_take(self@, self@.len() as int);
            assert(self@.take(self@.len() as int) =~= self@);
            lemma_distinct_le_sum(self@);
        }
        total - (distinct as u64)
    }
}

/// No table records fewer pairs than distinct states: each occupied slot
/// counts at least one pair.
proof fn lemma_distinct_le_sum(t: Seq<Option<TargetModel>>)
    requires
        forall|k: int|
            0 <= k < t.len() ==> ((#[trigger] t[k]) matches Some(e) ==> entry_wf(e)),
    ensures
        count_some(t) <= sum_counts(t),
    decreases t.len(),
{
    if t.len() > 0 {
        lemma_distinct_le_sum(t.drop_last());
        assert(slot_one(t.last()) <= slot_count(t.last()));
    }
}

/// Enumerate every move sequence of length 1 to `max` in order, replay
/// each against a fresh lock, and aggregate the resulting states.
pub fn enumerate(max: u64) -> (t: AggTable)
    requires
        max <= 31,
    ensures
        t@ == run(all_seqs(max as nat)),
        t.wf(),
{
    let mut table = AggTable::new();
    proof {
        assert(all_seqs(0) =~= Seq::<Seq<u8>>::empty());
        assert(table@ == run(all_seqs(0)));
    }
    let mut moves: u64 = 1;
    while moves <= max
        invariant
            1 <= moves <= max + 1,
            max <= 31,
            table@ == run(all_seqs((moves - 1) as nat)),
            table.wf(),
        decreases max + 1 - moves,
    {
        let limit = pow4_exec(moves);
        let mut binary: u64 = 0;
        proof {
            let prefix = all_seqs((moves - 1) as nat);
            assert(prefix + codes_of_len(moves as nat).take(0) =~= prefix);
        }
        while binary < limit
            invariant
                1 <= moves <= max <= 31,
                limit as nat == pow4(moves as nat),
                binary <= limit,
                table@ == run(
                    all_seqs((moves - 1) as nat) + codes_of_len(moves as nat).take(binary as int),
                ),
                table.wf(),
            decreases limit - binary,
        {
            let ghost lcur = all_seqs((moves - 1) as nat) + codes_of_len(moves as nat).take(
                binary as int,
            );
            let ghost code_seq = dirs_of_code(binary as int, moves as nat);
            let mut lock = Lock::new();
            let mut tmp = binary;
            let mut seq_v: Vec<u8> = Vec::new();
            let mut j: u64 = 0;
            proof {
                assert(seq_v@ =~= code_seq.take(0));
                assert(pow4(0) == 1);
                vstd::arithmetic::div_mod::lemma_div_basics_2(binary as int);
            }
            while j < moves
                invariant
                    j <= moves,
                    code_seq == dirs_of_code(binary as int, moves as nat),
                    seq_v@ == code_seq.take(j as int),
                    tmp as int == binary as int / (pow4(j as nat) as int),
                    lock@ == replay(seq_v@),
                    lock.wf(),
                decreases moves - j,
            {
                let d = (tmp % 4) as u8;
                proof {
                    assert(code_seq[j as int] == ((binary as int / (pow4(j as nat) as int)) % 4)
                        as u8);
                    assert(d == code_seq[j as int]);
                    assert(code_seq.take(j as int + 1) =~= code_seq.take(j as int).push(d));
                    assert(code_seq.take(j as int + 1).drop_last() =~= seq_v@);
                }
                lock.slide(d);
                seq_v.push(d);
                proof {
                    lemma_pow4_pos(j as nat);
                    vstd::arithmetic::div_mod::lemma_div_denominator(
                        binary as int,
                        pow4(j as nat) as int,
                        4,
                    );
                    assert(pow4((j + 1) as nat) == 4 * pow4(j as nat));
                }
                tmp = tmp / 4;
                j = j + 1;
            }
            proof {
                assert(seq_v@ =~= code_seq);
                lemma_dirs_of_code_valid(binary as int, moves as nat);
                lemma_seq_list_prefix_valid(moves as nat, max as nat, binary as int);
                lemma_run_props(lcur);
                lemma_all_seqs_len((moves - 1) as nat);
                lemma_geom4_mono(moves as nat, 31);
                lemma_geom4_bound(31);
            }
            table.record(&lock, seq_v);
            proof {
                assert(lcur.push(code_seq).drop_last() =~= lcur);
                assert(lcur.push(code_seq).last() == code_seq);
                assert(run(lcur.push(code_seq)) == record_spec(run(lcur), code_seq));
                assert(codes_of_len(moves as nat).take(binary as int + 1) =~= codes_of_len(
                    moves as nat,
                ).take(binary as int).push(code_seq));
                assert(all_seqs((moves - 1) as nat) + codes_of_len(moves as nat).take(
                    binary as int + 1,
                ) =~= lcur.push(code_seq));
            }
            binary = binary + 1;
        }
        proof {
            assert(codes_of_len(moves as nat).take(limit as int) =~= codes_of_len(moves as nat));
            assert(all_seqs((moves - 1) as nat) + codes_of_len(moves as nat) == all_seqs(
                moves as nat,
            ));
        }
        moves = moves + 1;
    }
    table
}

/// Of a list of sequences, those that land on the state with index `k`,
/// in order.
pub open spec fn landing(l: Seq<Seq<u8>>, k: int) -> Seq<Seq<u8>>
    decreases l.len(),
{
    if l.len() == 0 {
        Seq::empty()
    } else {
        landing(l.drop_last(), k) + if lock_index(replay(l.last())) == k {
            seq![l.last()]
        } else {
            Seq::empty()
        }
    }
}

/// Each slot of the built table holds exactly the sequences that land on
/// its state, in enumeration order, with the first of them singled out.
pub proof fn lemma_run_entry(l: Seq<Seq<u8>>, k: int)
    requires
        valid_seq_list(l),
        0 <= k < STATE_SPACE as int,
    ensures
        run(l)[k] is None ==> landing(l, k).len() == 0,
        run(l)[k] matches Some(e) ==> e.all == landing(l, k) && e.count == landing(l, k).len()
            && e.first == landing(l, k)[0],
    decreases l.len(),
{
    if l.len() == 0 {
        assert(run(l)[k] is None);
    } else {
        let prev = l.drop_last();
        let s = l.last();
        assert(valid_seq_list(prev));
        lemma_run_entry(prev, k);
        lemma_run_props(prev);
        lemma_replay_wf(s);
        lemma_index_range(replay(s));
        let key = lock_index(replay(s));
        if key == k {
            match run(prev)[k] {
                None => {
                    assert(landing(l, k) =~= seq![s]);
                },
                Some(e) => {
                    assert(landing(l, k) =~= e.all.push(s));
                },
            }
        } else {
            assert(landing(l, k) =~= landing(prev, k));
            assert(run(l)[k] == run(prev)[k]);
        }
    }
}

/// A sequence that lands on `k` stands in the landing list for `k`.
pub proof fn lemma_landing_contains(l: Seq<Seq<u8>>, k: int, i: int)
    requires
        0 <= i < l.len(),
        lock_index(replay(l[i])) == k,
    ensures
        landing(l, k).contains(l[i]),
        landing(l, k).len() >= 1,
    decreases l.len(),
{
    if i == l.len() - 1 {
        let n = landing(l.drop_last(), k).len() as int;
        assert(landing(l, k)[n] == l[i]);
    } else {
        lemma_landing_contains(l.drop_last(), k, i);
        let j = choose|j: int|
            0 <= j < landing(l.drop_last(), k).len() && landing(l.drop_last(), k)[j] == l[i];
        assert(landing(l, k)[j] == l[i]);
    }
}

/// Two sequences that reach the same final lock state are attributed to
/// the same aggregation entry, whatever their places in the enumeration.
pub proof fn lemma_same_state_same_entry(l: Seq<Seq<u8>>, i: int, j: int)
    requires
        valid_seq_list(l),
        0 <= i < l.len(),
        0 <= j < l.len(),
        replay(l[i]) == replay(l[j]),
    ensures
        run(l)[lock_index(replay(l[i]))] matches Some(e) && e.all.contains(l[i])
            && e.all.contains(l[j]),
{
    lemma_replay_wf(l[i]);
    lemma_index_range(replay(l[i]));
    let k = lock_index(replay(l[i]));
    lemma_run_entry(l, k);
    lemma_landing_contains(l, k, i);
    lemma_landing_contains(l, k, j);
}

/// The occupied slots of a table, in increasing index order, each paired
/// with the lock state its index decodes to.
pub open spec fn entries_list(t: Seq<Option<TargetModel>>) -> Seq<(Seq<int>, TargetModel)>
    decreases t.len(),
{
    if t.len() == 0 {
        Seq::empty()
    } else {
        entries_list(t.drop_last()) + match t.last() {
            Some(e) => seq![(state_of_index(t.len() - 1), e)],
            None => Seq::empty(),
        }
    }
}

/// The model content of a list of lock/entry pairs.
pub open spec fn pairs_view(v: Seq<(Lock, Target)>) -> Seq<(Seq<int>, TargetModel)> {
    Seq::new(v.len(), |i: int| v[i]@)
}

impl AggTable {
    /// Hand the occupied entries over in increasing state order, each
    /// paired with its lock state, emptying the table.
    pub fn into_entries(self) -> (res: Vec<(Lock, Target)>)
        requires
            self.wf(),
        ensures
            pairs_view(res@) == entries_list(self@),
    {
        let ghost t0 = self@;
        let mut this = self;
        let mut res: Vec<(Lock, Target)> = Vec::new();
        let mut i: usize = 0;
        proof {
            assert(pairs_view(res@) =~= entries_list(t0.take(0)));
        }
        while i < STATE_SPACE
            invariant
                i <= STATE_SPACE,
                this@.len() == STATE_SPACE as int,
                t0.len() == STATE_SPACE as int,
                forall|j: int| i as int <= j < STATE_SPACE as int ==> this@[j] == t0[j],
                pairs_view(res@) == entries_list(t0.take(i as int)),
            decreases STATE_SPACE - i,
        {
            proof {
                assert(t0.take(i as int + 1).drop_last() =~= t0.take(i as int));
                assert(t0.take(i as int + 1).last() == t0[i as int]);
            }
            let mut taken: Option<Target> = None;
            let slot = &mut this.slots[i];
            core::mem::swap(slot, &mut taken);
            match taken {
                Some(tg) => {
                    let lk = Lock::from_index(i);
                    res.push((lk, tg));
                    proof {
                        assert(pairs_view(res@) =~= entries_list(t0.take(i as int + 1)));
                    }
                },
                None => {
                    proof {
                        assert(pairs_view(res@) =~= entries_list(t0.take(i as int + 1)));
                    }
                },
            }
            i = i + 1;
        }
        proof {
            assert(t0.take(STATE_SPACE as int) =~= t0);
        }
        res
    }
}

/// `geom4` grows with its argument.
pub proof fn lemma_geom4_mono(m: nat, n: nat)
    requires
        m <= n,
    ensures
        geom4(m) <= geom4(n),
    decreases n,
{
    if m < n {
        lemma_geom4_mono(m, (n - 1) as nat);
    }
}

/// Every list formed of the enumeration's sequences so far is valid.
proof fn lemma_seq_list_prefix_valid(moves: nat, max: nat, binary: int)
    requires
        1 <= moves <= max,
        0 <= binary <= pow4(moves) as int,
    ensures
        valid_seq_list(all_seqs((moves - 1) as nat) + codes_of_len(moves).take(binary)),
{
    lemma_all_seqs_valid((moves - 1) as nat);
    let l = all_seqs((moves - 1) as nat) + codes_of_len(moves).take(binary);
    assert forall|i: int| 0 <= i < l.len() implies valid_dirs(#[trigger] l[i]) by {
        if i < all_seqs((moves - 1) as nat).len() {
            assert(l[i] == all_seqs((moves - 1) as nat)[i]);
        } else {
            let b = i - all_seqs((moves - 1) as nat).len();
            assert(l[i] == dirs_of_code(b, moves));
            lemma_dirs_of_code_valid(b, moves);
        }
    }
}

} // verus!
