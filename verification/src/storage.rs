//! The storage engine behind the consensus core: hard state, configuration
//! state and the log of entries, with compaction on commit and snapshot
//! installation. The log is kept in index order; the data segment is kept as
//! records with unique keys.

use crate::codec::copy_bytes;
use crate::codec::copy_u64s;
use crate::codec::json_of;
use crate::codec::json_text;
use vstd::prelude::*;

verus! {

/// What a log entry carries.
#[derive(Clone, Copy, Debug, PartialEq, Eq, Structural)]
pub enum EntryType {
    Normal,
    ConfChange,
}

/// One entry of the replicated log.
#[derive(Clone, Debug, PartialEq, Eq)]
pub struct Entry {
    pub term: u64,
    pub index: u64,
    pub entry_type: EntryType,
    pub data: Vec<u8>,
}

/// The mathematical value of an [`Entry`].
pub ghost struct EntryModel {
    pub term: u64,
    pub index: u64,
    pub entry_type: EntryType,
    pub data: Seq<u8>,
}

impl View for Entry {
    type V = EntryModel;

    open spec fn view(&self) -> EntryModel {
        EntryModel { term: self.term, index: self.index, entry_type: self.entry_type, data: self.data@ }
    }
}

/// Term, vote and commit index, persisted on every change.
#[derive(Clone, Copy, Debug, PartialEq, Eq, Structural)]
pub struct HardState {
    pub term: u64,
    pub vote: u64,
    pub commit: u64,
}

/// The voters and learners of the current configuration.
#[derive(Clone, Debug, PartialEq, Eq)]
pub struct ConfState {
    pub voters: Vec<u64>,
    pub learners: Vec<u64>,
}

/// The mathematical value of a [`ConfState`].
pub ghost struct ConfModel {
    pub voters: Seq<u64>,
    pub learners: Seq<u64>,
}

impl View for ConfState {
    type V = ConfModel;

    open spec fn view(&self) -> ConfModel {
        ConfModel { voters: self.voters@, learners: self.learners@ }
    }
}

/// Hard state and configuration state as handed to the consensus core at
/// start-up.
#[derive(Clone, Debug, PartialEq, Eq)]
pub struct RaftState {
    pub hard_state: HardState,
    pub conf_state: ConfState,
}

/// Why a storage operation was refused.
#[derive(Clone, Copy, Debug, PartialEq, Eq, Structural)]
pub enum StorageError {
    /// The index lies below the first index still held.
    Compacted,
    /// No entry is held under the index.
    Unavailable,
    /// The snapshot is older than the log.
    SnapshotOutOfDate,
}

/// The hard state of a store that was never written.
pub open spec fn zero_hard_state() -> HardState {
    HardState { term: 0, vote: 0, commit: 0 }
}

/// The configuration of a store that was never written.
pub open spec fn zero_conf() -> ConfModel {
    ConfModel { voters: Seq::empty(), learners: Seq::empty() }
}

/// The values of a run of entries.
pub open spec fn entry_models(s: Seq<Entry>) -> Seq<EntryModel> {
    Seq::new(s.len(), |i: int| s[i]@)
}

/// The indices grow strictly from one entry to the next.
pub open spec fn ascending(log: Seq<EntryModel>) -> bool {
    forall|i: int, j: int| 0 <= i < j < log.len() ==> log[i].index < log[j].index
}

/// How many entries of `log` have an index below `bound`.
pub open spec fn rank(log: Seq<EntryModel>, bound: int) -> int
    decreases log.len(),
{
    if log.len() == 0 {
        0
    } else if log.last().index < bound {
        rank(log.drop_last(), bound) + 1
    } else {
        rank(log.drop_last(), bound)
    }
}

/// The log after one entry was written under its index: an entry with the
/// same index is replaced, any other entry stays.
pub open spec fn log_put(log: Seq<EntryModel>, e: EntryModel) -> Seq<EntryModel> {
    let lo = rank(log, e.index as int);
    let hi = rank(log, e.index + 1);
    log.subrange(0, lo).push(e) + log.subrange(hi, log.len() as int)
}

/// The log after a batch of entries was written, first to last.
pub open spec fn log_put_all(log: Seq<EntryModel>, batch: Seq<EntryModel>) -> Seq<EntryModel>
    decreases batch.len(),
{
    if batch.len() == 0 {
        log
    } else {
        log_put(log_put_all(log, batch.drop_last()), batch.last())
    }
}

/// The entries of `log` with `low <= index < high`, in index order.
pub open spec fn log_range(log: Seq<EntryModel>, low: int, high: int) -> Seq<EntryModel> {
    if rank(log, low) < rank(log, high) {
        log.subrange(rank(log, low), rank(log, high))
    } else {
        Seq::empty()
    }
}

/// The entries of `log` with an index above `commit`.
pub open spec fn log_after(log: Seq<EntryModel>, commit: u64) -> Seq<EntryModel> {
    log.subrange(rank(log, commit + 1), log.len() as int)
}

/// The first index of a store with this log and hard state.
pub open spec fn first_index_of(log: Seq<EntryModel>, hard: HardState) -> int {
    if log.len() == 0 {
        hard.commit + 1
    } else {
        log[0].index as int
    }
}

/// The last index of a store with this log and hard state.
pub open spec fn last_index_of(log: Seq<EntryModel>, hard: HardState) -> int {
    if log.len() == 0 {
        hard.commit as int
    } else {
        log.last().index as int
    }
}

/// The rank never exceeds the length.
pub proof fn lemma_rank_bounds(log: Seq<EntryModel>, bound: int)
    ensures
        0 <= rank(log, bound) <= log.len(),
    decreases log.len(),
{
    if log.len() > 0 {
        lemma_rank_bounds(log.drop_last(), bound);
    }
}

/// In an ascending log the rank of a bound splits the entries below it from
/// the others.
pub proof fn lemma_rank_splits(log: Seq<EntryModel>, bound: int)
    requires
        ascending(log),
    ensures
        0 <= rank(log, bound) <= log.len(),
        forall|i: int| 0 <= i < rank(log, bound) ==> (#[trigger] log[i]).index < bound,
        forall|i: int| rank(log, bound) <= i < log.len() ==> (#[trigger] log[i]).index >= bound,
    decreases log.len(),
{
    if log.len() > 0 {
        let front = log.drop_last();
        assert(ascending(front)) by {
            assert forall|i: int, j: int| 0 <= i < j < front.len() implies front[i].index
                < front[j].index by {
                assert(front[i] == log[i] && front[j] == log[j]);
            }
        }
        lemma_rank_splits(front, bound);
        if log.last().index < bound {
            assert forall|i: int| 0 <= i < front.len() implies (#[trigger] front[i]).index
                < bound by {
                assert(front[i] == log[i]);
                assert(log[i].index < log[log.len() - 1].index);
            }
            assert(rank(front, bound) == front.len()) by {
                if rank(front, bound) < front.len() {
                    assert(front[rank(front, bound)].index >= bound);
                }
            }
        }
        assert forall|i: int| 0 <= i < rank(log, bound) implies (#[trigger] log[i]).index
            < bound by {
            if i < front.len() {
                assert(log[i] == front[i]);
            }
        }
        assert forall|i: int| rank(log, bound) <= i < log.len() implies (#[trigger] log[i]).index
            >= bound by {
            if i < front.len() {
                assert(log[i] == front[i]);
            }
        }
    }
}

/// A position that splits an ascending log at a bound is the rank of the
/// bound.
pub proof fn lemma_rank_is(log: Seq<EntryModel>, bound: int, p: int)
    requires
        ascending(log),
        0 <= p <= log.len(),
        forall|i: int| 0 <= i < p ==> (#[trigger] log[i]).index < bound,
        forall|i: int| p <= i < log.len() ==> (#[trigger] log[i]).index >= bound,
    ensures
        rank(log, bound) == p,
{
    lemma_rank_splits(log, bound);
    let r = rank(log, bound);
    if r < p {
        assert(log[r].index >= bound);
        assert(log[r].index < bound);
    }
    if p < r {
        assert(log[p].index >= bound);
        assert(log[p].index < bound);
    }
}

/// The rank of the successor of an index is one more than the rank of the
/// index where an entry with that index is held, and the same where none is.
pub proof fn lemma_rank_step(log: Seq<EntryModel>, idx: u64)
    requires
        ascending(log),
    ensures
        0 <= rank(log, idx as int) <= log.len(),
        rank(log, idx as int) < log.len() && log[rank(log, idx as int)].index == idx ==> rank(
            log,
            idx + 1,
        ) == rank(log, idx as int) + 1,
        !(rank(log, idx as int) < log.len() && log[rank(log, idx as int)].index == idx) ==> rank(
            log,
            idx + 1,
        ) == rank(log, idx as int),
{
    lemma_rank_splits(log, idx as int);
    let p = rank(log, idx as int);
    if p < log.len() && log[p].index == idx {
        assert forall|i: int| p + 1 <= i < log.len() implies (#[trigger] log[i]).index >= idx
            + 1 by {
            assert(log[p].index < log[i].index);
        }
        lemma_rank_is(log, idx + 1, p + 1);
    } else {
        lemma_rank_is(log, idx + 1, p);
    }
}

/// The values of a run with one more entry are the values of the run with
/// one more value.
pub proof fn lemma_models_push(s: Seq<Entry>, e: Entry)
    ensures
        entry_models(s.push(e)) == entry_models(s).push(e@),
{
    assert(entry_models(s.push(e)) =~= entry_models(s).push(e@));
}

impl Entry {
    /// A copy of the entry.
    pub fn duplicate(&self) -> (r: Entry)
        ensures
            r@ == self@,
    {
        Entry {
            term: self.term,
            index: self.index,
            entry_type: self.entry_type,
            data: copy_bytes(self.data.as_slice()),
        }
    }
}

impl ConfState {
    /// The configuration without voters or learners.
    pub fn empty() -> (r: ConfState)
        ensures
            r@ == zero_conf(),
    {
        ConfState { voters: Vec::new(), learners: Vec::new() }
    }

    /// A copy of the configuration.
    pub fn duplicate(&self) -> (r: ConfState)
        ensures
            r@ == self@,
    {
        ConfState {
            voters: copy_u64s(self.voters.as_slice()),
            learners: copy_u64s(self.learners.as_slice()),
        }
    }
}

/// The storage engine: hard state, configuration state, the log in index
/// order and the records of the data segment.
pub struct URRocksStorage {
    id: u64,
    hard: HardState,
    conf: ConfState,
    log: Vec<Entry>,
    data: Vec<KV>,
}

impl URRocksStorage {
    /// The log is ascending, no data key occurs twice, and the commit index
    /// has a successor.
    pub closed spec fn wf(&self) -> bool {
        &&& ascending(entry_models(self.log@))
        &&& unique_keys(record_models(self.data@))
        &&& self.hard.commit < u64::MAX
    }

    /// The entries held, in index order.
    pub closed spec fn log_model(&self) -> Seq<EntryModel> {
        entry_models(self.log@)
    }

    /// The hard state held.
    pub closed spec fn hard(&self) -> HardState {
        self.hard
    }

    /// The configuration state held.
    pub closed spec fn conf(&self) -> ConfModel {
        self.conf@
    }

    /// The records of the data segment.
    pub closed spec fn data_model(&self) -> Seq<(Seq<char>, Seq<char>)> {
        record_models(self.data@)
    }

    /// The identifier that the store was opened with.
    pub closed spec fn id(&self) -> u64 {
        self.id
    }

    /// An empty store.
    pub fn new(id: u64) -> (s: Self)
        ensures
            s.wf(),
            s.id() == id,
            s.log_model() == Seq::<EntryModel>::empty(),
            s.hard() == zero_hard_state(),
            s.conf() == zero_conf(),
            s.data_model() == Seq::<(Seq<char>, Seq<char>)>::empty(),
    {
        let s = URRocksStorage {
            id,
            hard: HardState { term: 0, vote: 0, commit: 0 },
            conf: ConfState::empty(),
            log: Vec::new(),
            data: Vec::new(),
        };
        assert(s.log_model() =~= Seq::<EntryModel>::empty());
        assert(s.data_model() =~= Seq::<(Seq<char>, Seq<char>)>::empty());
        s
    }

    /// An empty store that starts from a given configuration, with term and
    /// commit index 1.
    pub fn new_with_conf_state(id: u64, state: ConfState) -> (s: Self)
        ensures
            s.wf(),
            s.id() == id,
            s.log_model() == Seq::<EntryModel>::empty(),
            s.hard() == (HardState { term: 1, vote: 0, commit: 1 }),
            s.conf() == state@,
            s.data_model() == Seq::<(Seq<char>, Seq<char>)>::empty(),
    {
        let mut db = Self::new(id);
        db.set_conf_state(state);
        db.set_hard_state(1, 1);
        assert(db.log_model() =~= Seq::<EntryModel>::empty());
        db
    }

    /// The hard state as persisted.
    pub fn get_hard_state(&self) -> (hs: HardState)
        ensures
            hs == self.hard(),
    {
        self.hard
    }

    /// The configuration state as persisted.
    pub fn get_conf_state(&self) -> (cs: ConfState)
        ensures
            cs@ == self.conf(),
    {
        self.conf.duplicate()
    }

    /// The position of the first entry whose index is at least `bound`.
    fn lower_bound(&self, bound: u64) -> (p: usize)
        requires
            self.wf(),
        ensures
            p == rank(self.log_model(), bound as int),
            p <= self.log@.len(),
    {
        let mut p: usize = 0;
        while p < self.log.len() && self.log[p].index < bound
            invariant
                p <= self.log@.len(),
                forall|i: int| 0 <= i < p ==> (#[trigger] entry_models(self.log@)[i]).index < bound,
            decreases self.log@.len() - p,
        {
            p += 1;
        }
        proof {
            let log = entry_models(self.log@);
            assert forall|i: int| p <= i < log.len() implies (#[trigger] log[i]).index
                >= bound by {
                if i > p {
                    assert(log[p as int].index < log[i].index);
                }
            }
            lemma_rank_is(log, bound as int, p as int);
        }
        p
    }

    /// Drops every entry of the log.
    pub fn clear_log(&mut self)
        requires
            old(self).wf(),
        ensures
            final(self).wf(),
            final(self).log_model() == Seq::<EntryModel>::empty(),
            final(self).hard() == old(self).hard(),
            final(self).conf() == old(self).conf(),
            final(self).data_model() == old(self).data_model(),
            final(self).id() == old(self).id(),
    {
        self.log = Vec::new();
        assert(self.log_model() =~= Seq::<EntryModel>::empty());
    }

    /// Drops the entries whose index is at most `before`.
    pub fn clear_log_to(&mut self, before: u64)
        requires
            old(self).wf(),
            before < u64::MAX,
        ensures
            final(self).wf(),
            final(self).log_model() == log_after(old(self).log_model(), before),
            final(self).hard() == old(self).hard(),
            final(self).conf() == old(self).conf(),
            final(self).data_model() == old(self).data_model(),
            final(self).id() == old(self).id(),
    {
        let cut = self.lower_bound(before + 1);
        let mut kept: Vec<Entry> = Vec::new();
        let mut i: usize = cut;
        while i < self.log.len()
            invariant
                cut <= i <= self.log@.len(),
                entry_models(kept@) == entry_models(self.log@).subrange(cut as int, i as int),
            decreases self.log@.len() - i,
        {
            let e = self.log[i].duplicate();
            proof {
                lemma_models_push(kept@, e);
            }
            kept.push(e);
            i += 1;
            assert(entry_models(kept@) =~= entry_models(self.log@).subrange(cut as int, i as int));
        }
        self.log = kept;
    }

    /// The smallest index held in the log, or the successor of the commit
    /// index where the log is empty.
    pub fn first_index(&self) -> (r: Result<u64, StorageError>)
        requires
            self.wf(),
        ensures
            r == Ok::<u64, StorageError>(first_index_of(self.log_model(), self.hard()) as u64),
            first_index_of(self.log_model(), self.hard()) <= u64::MAX,
    {
        if self.log.len() == 0 {
            Ok(self.hard.commit + 1)
        } else {
            Ok(self.log[0].index)
        }
    }

    /// The largest index held in the log, or the commit index where the log
    /// is empty.
    pub fn last_index(&self) -> (r: Result<u64, StorageError>)
        requires
            self.wf(),
        ensures
            r == Ok::<u64, StorageError>(last_index_of(self.log_model(), self.hard()) as u64),
    {
        if self.log.len() == 0 {
            Ok(self.hard.commit)
        } else {
            Ok(self.log[self.log.len() - 1].index)
        }
    }

    /// The term of the entry with index `idx`. The commit index answers with
    /// the term of the hard state, whether or not its entry is still held.
    pub fn term(&self, idx: u64) -> (r: Result<u64, StorageError>)
        requires
            self.wf(),
        ensures
            r == term_of(self.log_model(), self.hard(), idx),
    {
        if idx == self.hard.commit {
            return Ok(self.hard.term);
        }
        let first: u64 = if self.log.len() == 0 {
            self.hard.commit + 1
        } else {
            self.log[0].index
        };
        if idx < first {
            return Err(StorageError::Compacted);
        }
        let p = self.lower_bound(idx);
        proof {
            lemma_rank_step(self.log_model(), idx);
        }
        if p < self.log.len() && self.log[p].index == idx {
            Ok(self.log[p].term)
        } else {
            Err(StorageError::Unavailable)
        }
    }

    /// The entries with `low <= index < high` in index order, at most
    /// `max_size` of them where a limit is given; a limit of 0 counts as 1.
    pub fn entries(&self, low: u64, high: u64, max_size: Option<u64>) -> (r: Result<
        Vec<Entry>,
        StorageError,
    >)
        requires
            self.wf(),
            high <= last_index_of(self.log_model(), self.hard()) + 1,
        ensures
            low < first_index_of(self.log_model(), self.hard()) ==> r == Err::<
                Vec<Entry>,
                StorageError,
            >(StorageError::Compacted),
            low >= first_index_of(self.log_model(), self.hard()) ==> r.is_ok() && entry_models(
                r.unwrap()@,
            ) == capped(log_range(self.log_model(), low as int, high as int), max_size),
    {
        let first: u64 = if self.log.len() == 0 {
            self.hard.commit + 1
        } else {
            self.log[0].index
        };
        if low < first {
            return Err(StorageError::Compacted);
        }
        let from = self.lower_bound(low);
        let to = self.lower_bound(high);
        let mut out: Vec<Entry> = Vec::new();
        if from >= to {
            assert(entry_models(out@) =~= Seq::<EntryModel>::empty());
            return Ok(out);
        }
        let mut i: usize = from;
        let mut room: u64 = match max_size {
            Some(m) => if m == 0 { 1 } else { m },
            None => u64::MAX,
        };
        proof {
            lemma_rank_bounds(self.log_model(), low as int);
            lemma_rank_bounds(self.log_model(), high as int);
        }
        let ghost full = log_range(self.log_model(), low as int, high as int);
        let ghost limit = room as int;
        while i < to && room > 0
            invariant
                from <= i <= to,
                from < to,
                to <= self.log@.len(),
                from == rank(self.log_model(), low as int),
                to == rank(self.log_model(), high as int),
                full == log_range(self.log_model(), low as int, high as int),
                room + (i - from) == limit,
                entry_models(out@) == self.log_model().subrange(from as int, i as int),
            decreases to - i,
        {
            let e = self.log[i].duplicate();
            proof {
                lemma_models_push(out@, e);
            }
            out.push(e);
            i += 1;
            room -= 1;
            assert(entry_models(out@) =~= self.log_model().subrange(from as int, i as int));
        }
        proof {
            assert(entry_models(out@) =~= capped(full, max_size));
        }
        Ok(out)
    }

    /// Hard state and configuration state for start-up. A store whose hard
    /// state was never written answers with the empty configuration.
    pub fn initial_state(&self) -> (r: Result<RaftState, StorageError>)
        ensures
            r.is_ok(),
            (r.unwrap().hard_state, r.unwrap().conf_state@) == initial_state_of(
                self.hard(),
                self.conf(),
            ),
    {
        let hard_state = self.get_hard_state();
        if hard_state.term == 0 && hard_state.vote == 0 && hard_state.commit == 0 {
            return Ok(RaftState { hard_state, conf_state: ConfState::empty() });
        }
        let conf_state = self.get_conf_state();
        Ok(RaftState { hard_state, conf_state })
    }

    /// Writes one entry under its index.
    fn put_entry(&mut self, e: Entry)
        requires
            old(self).wf(),
        ensures
            final(self).wf(),
            final(self).log_model() == log_put(old(self).log_model(), e@),
            final(self).hard() == old(self).hard(),
            final(self).conf() == old(self).conf(),
            final(self).data_model() == old(self).data_model(),
            final(self).id() == old(self).id(),
    {
        let p = self.lower_bound(e.index);
        let ghost before = self.log_model();
        proof {
            lemma_rank_splits(before, e.index as int);
            lemma_rank_step(before, e.index);
        }
        if p < self.log.len() && self.log[p].index == e.index {
            self.log.set(p, e);
            assert(self.log_model() =~= log_put(before, e@));
        } else {
            self.log.insert(p, e);
            assert(self.log_model() =~= log_put(before, e@));
        }
    }

    /// Writes a batch of entries, each under its index. An empty batch
    /// changes nothing.
    pub fn append(&mut self, entries: &[Entry]) -> (r: Result<(), StorageError>)
        requires
            old(self).wf(),
        ensures
            r.is_ok(),
            final(self).wf(),
            final(self).log_model() == log_put_all(old(self).log_model(), entry_models(entries@)),
            final(self).hard() == old(self).hard(),
            final(self).conf() == old(self).conf(),
            final(self).data_model() == old(self).data_model(),
            final(self).id() == old(self).id(),
    {
        let mut i: usize = 0;
        let ghost batch = entry_models(entries@);
        assert(batch.take(0) =~= Seq::<EntryModel>::empty());
        while i < entries.len()
            invariant
                i <= entries@.len(),
                batch == entry_models(entries@),
                self.wf(),
                self.log_model() == log_put_all(old(self).log_model(), batch.take(i as int)),
                self.hard() == old(self).hard(),
                self.conf() == old(self).conf(),
                self.data_model() == old(self).data_model(),
                self.id() == old(self).id(),
            decreases entries@.len() - i,
        {
            self.put_entry(entries[i].duplicate());
            proof {
                assert(batch.take(i + 1).drop_last() =~= batch.take(i as int));
                assert(batch.take(i + 1).last() == entries@[i as int]@);
            }
            i += 1;
        }
        assert(batch.take(i as int) =~= batch);
        Ok(())
    }

    /// Keeps and persists the configuration state.
    pub fn set_conf_state(&mut self, cs: ConfState) -> (r: Result<(), StorageError>)
        ensures
            r.is_ok(),
            old(self).wf() ==> final(self).wf(),
            final(self).conf() == cs@,
            final(self).log_model() == old(self).log_model(),
            final(self).hard() == old(self).hard(),
            final(self).data_model() == old(self).data_model(),
            final(self).id() == old(self).id(),
    {
        self.conf = cs;
        Ok(())
    }

    /// Persists commit index and term, with the vote cleared, and drops the
    /// entries whose index is at most `commit`.
    pub fn set_hard_state(&mut self, commit: u64, term: u64) -> (r: Result<(), StorageError>)
        requires
            old(self).wf(),
            commit < u64::MAX,
        ensures
            r.is_ok(),
            final(self).wf(),
            final(self).hard() == (HardState { term, vote: 0, commit }),
            final(self).log_model() == log_after(old(self).log_model(), commit),
            first_index_of(final(self).log_model(), final(self).hard()) > commit,
            final(self).conf() == old(self).conf(),
            final(self).data_model() == old(self).data_model(),
            final(self).id() == old(self).id(),
    {
        proof {
            lemma_compacted_starts_after(self.log_model(), commit);
        }
        self.hard = HardState { term, vote: 0, commit };
        self.clear_log_to(commit);
        Ok(())
    }
}

/// The answer to a question for the term of index `idx`.
pub open spec fn term_of(log: Seq<EntryModel>, hard: HardState, idx: u64) -> Result<
    u64,
    StorageError,
> {
    if idx == hard.commit {
        Ok(hard.term)
    } else if idx < first_index_of(log, hard) {
        Err(StorageError::Compacted)
    } else if rank(log, idx as int) < rank(log, idx + 1) {
        Ok(log[rank(log, idx as int)].term)
    } else {
        Err(StorageError::Unavailable)
    }
}

/// A run of entries cut to a limit, where one is given; a limit of 0 counts
/// as 1.
pub open spec fn capped(run: Seq<EntryModel>, max_size: Option<u64>) -> Seq<EntryModel> {
    match max_size {
        Some(m) => {
            let limit: int = if m == 0 { 1 } else { m as int };
            if run.len() <= limit {
                run
            } else {
                run.take(limit)
            }
        },
        None => run,
    }
}

/// One record of the data segment.
#[derive(Clone, Debug, PartialEq, Eq)]
pub struct KV {
    pub key: String,
    pub value: String,
}

/// The values of a run of records.
pub open spec fn record_models(s: Seq<KV>) -> Seq<(Seq<char>, Seq<char>)> {
    Seq::new(s.len(), |i: int| (s[i].key@, s[i].value@))
}

/// No key occurs twice.
pub open spec fn unique_keys(data: Seq<(Seq<char>, Seq<char>)>) -> bool {
    forall|i: int, j: int| 0 <= i < j < data.len() ==> data[i].0 != data[j].0
}

/// Some record has the key `k`.
pub open spec fn has_key(data: Seq<(Seq<char>, Seq<char>)>, k: Seq<char>) -> bool {
    exists|i: int| 0 <= i < data.len() && (#[trigger] data[i]).0 == k
}

/// The place of a record with the key `k`, where there is one.
pub open spec fn key_index(data: Seq<(Seq<char>, Seq<char>)>, k: Seq<char>) -> int {
    choose|i: int| 0 <= i < data.len() && (#[trigger] data[i]).0 == k
}

/// The value kept under `k`.
pub open spec fn data_get(data: Seq<(Seq<char>, Seq<char>)>, k: Seq<char>) -> Option<Seq<char>> {
    if has_key(data, k) {
        Some(data[key_index(data, k)].1)
    } else {
        None
    }
}

/// The records after `v` was written under `k`: the record with that key
/// gets the new value in its place, a new key goes to the end.
pub open spec fn data_put(data: Seq<(Seq<char>, Seq<char>)>, k: Seq<char>, v: Seq<char>) -> Seq<
    (Seq<char>, Seq<char>),
> {
    if has_key(data, k) {
        data.update(key_index(data, k), (k, v))
    } else {
        data.push((k, v))
    }
}

/// The byte that ends a line.
pub const NEWLINE: u8 = 10;

/// Lines put together with a newline between each two.
pub open spec fn joined(lines: Seq<Seq<u8>>) -> Seq<u8>
    decreases lines.len(),
{
    if lines.len() == 0 {
        Seq::empty()
    } else if lines.len() == 1 {
        lines[0]
    } else {
        joined(lines.drop_last()).push(NEWLINE) + lines.last()
    }
}

/// Bytes cut at every newline. There is one line more than there are
/// newlines, so no bytes make one empty line.
pub open spec fn split_lines(bytes: Seq<u8>) -> Seq<Seq<u8>>
    decreases bytes.len(),
{
    if bytes.len() == 0 {
        seq![Seq::<u8>::empty()]
    } else {
        let front = split_lines(bytes.drop_last());
        if bytes.last() == NEWLINE {
            front.push(Seq::<u8>::empty())
        } else {
            front.update(front.len() - 1, front.last().push(bytes.last()))
        }
    }
}

/// The line of a record: the JSON object with the key as a string under
/// `key` and the value as a string under `value`, without spaces.
pub open spec fn record_json(key: Seq<char>, value: Seq<char>) -> Seq<u8> {
    seq![123u8, 34u8, 107u8, 101u8, 121u8, 34u8, 58u8] + json_text(key) + seq![
        44u8,
        34u8,
        118u8,
        97u8,
        108u8,
        117u8,
        101u8,
        34u8,
        58u8,
    ] + json_text(value) + seq![125u8]
}

/// The record that `serde_json` reads from a line, where the line is an
/// object with a text under `key` and a text under `value`.
pub uninterp spec fn json_record(line: Seq<u8>) -> Option<(Seq<char>, Seq<char>)>;

/// The line of each record.
pub open spec fn record_lines(data: Seq<(Seq<char>, Seq<char>)>) -> Seq<Seq<u8>> {
    Seq::new(data.len(), |i: int| record_json(data[i].0, data[i].1))
}

/// The records that come of writing, line by line, each line that reads as a
/// record; the other lines are passed over.
pub open spec fn replay(lines: Seq<Seq<u8>>) -> Seq<(Seq<char>, Seq<char>)>
    decreases lines.len(),
{
    if lines.len() == 0 {
        Seq::empty()
    } else {
        let before = replay(lines.drop_last());
        match json_record(lines.last()) {
            Some(kv) => data_put(before, kv.0, kv.1),
            None => before,
        }
    }
}

/// The views of a run of lines.
pub open spec fn line_models(lines: Seq<Vec<u8>>) -> Seq<Seq<u8>> {
    Seq::new(lines.len(), |i: int| lines[i]@)
}

/// Writes a record as one JSON object.
pub fn encode_record(key: &String, value: &String) -> (line: Vec<u8>)
    ensures
        line@ == record_json(key@, value@),
{
    let mut line: Vec<u8> = Vec::new();
    line.push(123u8);
    line.push(34u8);
    line.push(107u8);
    line.push(101u8);
    line.push(121u8);
    line.push(34u8);
    line.push(58u8);
    assert(line@ =~= seq![123u8, 34u8, 107u8, 101u8, 121u8, 34u8, 58u8]);
    let k = json_of(key);
    line.extend_from_slice(k.as_slice());
    let ghost head = line@;
    line.push(44u8);
    line.push(34u8);
    line.push(118u8);
    line.push(97u8);
    line.push(108u8);
    line.push(117u8);
    line.push(101u8);
    line.push(34u8);
    line.push(58u8);
    assert(line@ =~= head + seq![44u8, 34u8, 118u8, 97u8, 108u8, 117u8, 101u8, 34u8, 58u8]);
    let v = json_of(value);
    line.extend_from_slice(v.as_slice());
    line.push(125u8);
    assert(line@ =~= record_json(key@, value@));
    line
}

/// Reads a line with `serde_json::from_slice` and hands out the texts under
/// `key` and `value`. A line that is no JSON, or lacks one of the two, gives
/// `None`.
#[verifier::external_body]
fn decode_record(line: &[u8]) -> (record: Option<KV>)
    ensures
        match record {
            Some(kv) => json_record(line@) == Some((kv.key@, kv.value@)),
            None => json_record(line@).is_none(),
        },
{
    match serde_json::from_slice::<serde_json::Value>(line) {
        Ok(serde_json::Value::Object(mut object)) => match (object.remove("key"), object.remove("value")) {
            (Some(serde_json::Value::String(key)), Some(serde_json::Value::String(value))) => Some(KV { key, value }),
            _ => None,
        },
        _ => None,
    }
}

/// Puts lines together with a newline between each two.
pub fn join_records(lines: &Vec<Vec<u8>>) -> (blob: Vec<u8>)
    ensures
        blob@ == joined(line_models(lines@)),
{
    let mut blob: Vec<u8> = Vec::new();
    let mut i: usize = 0;
    let ghost all = line_models(lines@);
    assert(all.take(0) =~= Seq::<Seq<u8>>::empty());
    while i < lines.len()
        invariant
            i <= lines@.len(),
            all == line_models(lines@),
            blob@ == joined(all.take(i as int)),
        decreases lines@.len() - i,
    {
        if i > 0 {
            blob.push(NEWLINE);
        }
        let ghost head = blob@;
        let line = &lines[i];
        let mut j: usize = 0;
        while j < line.len()
            invariant
                j <= line@.len(),
                blob@ == head + line@.subrange(0, j as int),
            decreases line@.len() - j,
        {
            blob.push(line[j]);
            j += 1;
            assert(blob@ =~= head + line@.subrange(0, j as int));
        }
        proof {
            assert(line@.subrange(0, j as int) =~= line@);
            assert(all.take(i + 1).drop_last() =~= all.take(i as int));
            assert(all.take(i + 1).last() == line@);
            if i == 0 {
                assert(all.take(1)[0] == line@);
                assert(blob@ =~= line@);
            }
        }
        i += 1;
    }
    assert(all.take(i as int) =~= all);
    blob
}

/// Cuts bytes at every newline.
pub fn split_records(data: &[u8]) -> (lines: Vec<Vec<u8>>)
    ensures
        line_models(lines@) == split_lines(data@),
{
    let mut lines: Vec<Vec<u8>> = Vec::new();
    let mut cur: Vec<u8> = Vec::new();
    let mut i: usize = 0;
    assert(data@.take(0) =~= Seq::<u8>::empty());
    assert(line_models(lines@).push(cur@) =~= seq![Seq::<u8>::empty()]);
    while i < data.len()
        invariant
            i <= data@.len(),
            line_models(lines@).push(cur@) == split_lines(data@.take(i as int)),
        decreases data@.len() - i,
    {
        let ghost before = line_models(lines@).push(cur@);
        let b = data[i];
        proof {
            assert(data@.take(i + 1).drop_last() =~= data@.take(i as int));
            assert(data@.take(i + 1).last() == b);
        }
        if b == NEWLINE {
            lines.push(cur);
            cur = Vec::new();
            assert(line_models(lines@).push(cur@) =~= before.push(Seq::<u8>::empty()));
        } else {
            cur.push(b);
            assert(line_models(lines@).push(cur@) =~= before.update(
                before.len() - 1,
                before.last().push(b),
            ));
        }
        i += 1;
    }
    assert(data@.take(i as int) =~= data@);
    let ghost before = line_models(lines@).push(cur@);
    lines.push(cur);
    assert(line_models(lines@) =~= before);
    lines
}

/// The state of a store at one index, with the records of its data segment.
#[derive(Clone, Debug, PartialEq, Eq)]
pub struct Snapshot {
    pub index: u64,
    pub term: u64,
    pub conf_state: ConfState,
    pub data: Vec<u8>,
}

impl URRocksStorage {
    /// The place of the record with the key `key`.
    fn find_key(&self, key: &String) -> (r: Option<usize>)
        requires
            self.wf(),
        ensures
            match r {
                Some(i) => has_key(self.data_model(), key@) && i == key_index(
                    self.data_model(),
                    key@,
                ) && i < self.data@.len(),
                None => !has_key(self.data_model(), key@),
            },
    {
        let mut i: usize = 0;
        while i < self.data.len()
            invariant
                self.wf(),
                i <= self.data@.len(),
                forall|j: int| 0 <= j < i ==> (#[trigger] record_models(self.data@)[j]).0 != key@,
            decreases self.data@.len() - i,
        {
            if self.data[i].key == *key {
                proof {
                    let data = record_models(self.data@);
                    assert(data[i as int].0 == key@);
                    assert(has_key(data, key@));
                    let c = key_index(data, key@);
                    assert(0 <= c < data.len() && data[c].0 == key@);
                    if c < i {
                        assert(data[c].0 != data[i as int].0);
                    }
                    if i < c {
                        assert(data[i as int].0 != data[c].0);
                    }
                }
                return Some(i);
            }
            i += 1;
        }
        None
    }

    /// Drops every record of the data segment.
    pub fn clear_data(&mut self)
        requires
            old(self).wf(),
        ensures
            final(self).wf(),
            final(self).data_model() == Seq::<(Seq<char>, Seq<char>)>::empty(),
            final(self).log_model() == old(self).log_model(),
            final(self).hard() == old(self).hard(),
            final(self).conf() == old(self).conf(),
            final(self).id() == old(self).id(),
    {
        self.data = Vec::new();
        assert(self.data_model() =~= Seq::<(Seq<char>, Seq<char>)>::empty());
    }

    /// The value kept under `key`.
    pub fn get(&self, key: &str) -> (r: Option<String>)
        requires
            self.wf(),
        ensures
            match r {
                Some(v) => data_get(self.data_model(), key@) == Some(v@),
                None => data_get(self.data_model(), key@).is_none(),
            },
    {
        let key = key.to_owned();
        match self.find_key(&key) {
            Some(i) => Some(self.data[i].value.clone()),
            None => None,
        }
    }

    /// Writes `value` under `key`.
    pub fn put(&mut self, key: &str, value: String)
        requires
            old(self).wf(),
        ensures
            final(self).wf(),
            final(self).data_model() == data_put(old(self).data_model(), key@, value@),
            final(self).log_model() == old(self).log_model(),
            final(self).hard() == old(self).hard(),
            final(self).conf() == old(self).conf(),
            final(self).id() == old(self).id(),
    {
        let key = key.to_owned();
        let ghost before = self.data_model();
        match self.find_key(&key) {
            Some(i) => {
                self.data.set(i, KV { key, value });
                assert(self.data_model() =~= before.update(i as int, (key@, value@)));
            },
            None => {
                self.data.push(KV { key, value });
                assert(self.data_model() =~= before.push((key@, value@)));
            },
        }
    }

    /// The records of the data segment, one JSON object per line.
    pub fn data_snapshot(&self) -> (blob: Vec<u8>)
        ensures
            blob@ == joined(record_lines(self.data_model())),
    {
        let mut lines: Vec<Vec<u8>> = Vec::new();
        let mut i: usize = 0;
        while i < self.data.len()
            invariant
                i <= self.data@.len(),
                line_models(lines@) == record_lines(self.data_model()).take(i as int),
            decreases self.data@.len() - i,
        {
            let line = encode_record(&self.data[i].key, &self.data[i].value);
            let ghost before = line_models(lines@);
            lines.push(line);
            assert(line_models(lines@) =~= before.push(line@));
            assert(record_lines(self.data_model())[i as int] == line@);
            i += 1;
            assert(line_models(lines@) =~= record_lines(self.data_model()).take(i as int));
        }
        assert(record_lines(self.data_model()).take(i as int) =~= record_lines(self.data_model()));
        join_records(&lines)
    }

    /// Replaces the data segment by the records of a snapshot: the segment
    /// is cleared, then each line that reads as a record is written.
    pub fn apply_data_snapshot(&mut self, data: Vec<u8>)
        requires
            old(self).wf(),
        ensures
            final(self).wf(),
            final(self).data_model() == replay(split_lines(data@)),
            final(self).log_model() == old(self).log_model(),
            final(self).hard() == old(self).hard(),
            final(self).conf() == old(self).conf(),
            final(self).id() == old(self).id(),
    {
        self.clear_data();
        let lines = split_records(data.as_slice());
        let ghost all = line_models(lines@);
        let mut i: usize = 0;
        assert(all.take(0) =~= Seq::<Seq<u8>>::empty());
        while i < lines.len()
            invariant
                i <= lines@.len(),
                all == line_models(lines@),
                self.wf(),
                self.data_model() == replay(all.take(i as int)),
                self.log_model() == old(self).log_model(),
                self.hard() == old(self).hard(),
                self.conf() == old(self).conf(),
                self.id() == old(self).id(),
            decreases lines@.len() - i,
        {
            proof {
                assert(all.take(i + 1).drop_last() =~= all.take(i as int));
                assert(all.take(i + 1).last() == lines@[i as int]@);
            }
            match decode_record(lines[i].as_slice()) {
                Some(kv) => {
                    let KV { key, value } = kv;
                    self.put(key.as_str(), value);
                },
                None => {},
            }
            i += 1;
        }
        assert(all.take(i as int) =~= all);
    }

    /// Installs a snapshot. One that is older than the log is refused and
    /// nothing changes. Otherwise the data segment is replaced first, then
    /// hard state and configuration state are set, and the log is dropped.
    pub fn apply_snapshot(&mut self, snapshot: Snapshot) -> (r: Result<(), StorageError>)
        requires
            old(self).wf(),
            snapshot.index < u64::MAX,
        ensures
            final(self).wf(),
            final(self).id() == old(self).id(),
            snapshot.index < first_index_of(old(self).log_model(), old(self).hard()) ==> {
                &&& r == Err::<(), StorageError>(StorageError::SnapshotOutOfDate)
                &&& final(self).log_model() == old(self).log_model()
                &&& final(self).hard() == old(self).hard()
                &&& final(self).conf() == old(self).conf()
                &&& final(self).data_model() == old(self).data_model()
            },
            snapshot.index >= first_index_of(old(self).log_model(), old(self).hard()) ==> {
                &&& r == Ok::<(), StorageError>(())
                &&& final(self).log_model() == Seq::<EntryModel>::empty()
                &&& final(self).hard() == (HardState {
                    term: snapshot.term,
                    vote: 0,
                    commit: snapshot.index,
                })
                &&& final(self).conf() == snapshot.conf_state@
                &&& final(self).data_model() == replay(split_lines(snapshot.data@))
            },
    {
        let first: u64 = if self.log.len() == 0 {
            self.hard.commit + 1
        } else {
            self.log[0].index
        };
        if first > snapshot.index {
            return Err(StorageError::SnapshotOutOfDate);
        }
        let Snapshot { index, term, conf_state, data } = snapshot;
        self.apply_data_snapshot(data);
        self.set_hard_state(index, term);
        self.set_conf_state(conf_state);
        self.clear_log();
        Ok(())
    }

    /// A snapshot of the store at its commit index. Where `request_index`
    /// lies above the commit index, the snapshot carries `request_index`;
    /// the records are the same.
    pub fn snapshot(&self, request_index: u64) -> (r: Result<Snapshot, StorageError>)
        ensures
            r.is_ok(),
            r.unwrap().index == if self.hard().commit < request_index {
                request_index
            } else {
                self.hard().commit
            },
            r.unwrap().term == self.hard().term,
            r.unwrap().conf_state@ == self.conf(),
            r.unwrap().data@ == joined(record_lines(self.data_model())),
    {
        let hs = self.get_hard_state();
        let mut index = hs.commit;
        if index < request_index {
            index = request_index;
        }
        Ok(Snapshot {
            index,
            term: hs.term,
            conf_state: self.get_conf_state(),
            data: self.data_snapshot(),
        })
    }
}

/// What a store with this hard state and configuration hands out at
/// start-up: a hard state that was never written goes with the empty
/// configuration.
pub open spec fn initial_state_of(hard: HardState, conf: ConfModel) -> (HardState, ConfModel) {
    if hard == zero_hard_state() {
        (hard, zero_conf())
    } else {
        (hard, conf)
    }
}

/// An ascending log holds an entry with an index in `[low, high)` exactly at
/// the places from the rank of `low` up to the rank of `high`: reading a
/// range gives the entries of the log restricted to it, in order.
pub proof fn lemma_range_restricts(log: Seq<EntryModel>, low: int, high: int)
    requires
        ascending(log),
        low <= high,
    ensures
        0 <= rank(log, low) <= rank(log, high) <= log.len(),
        forall|i: int|
            0 <= i < log.len() ==> (low <= (#[trigger] log[i]).index < high <==> rank(log, low) <= i
                < rank(log, high)),
        log_range(log, low, high) =~= log.subrange(rank(log, low), rank(log, high)),
{
    lemma_rank_splits(log, low);
    lemma_rank_splits(log, high);
    if rank(log, high) < rank(log, low) {
        assert(log[rank(log, high)].index >= high);
        assert(log[rank(log, high)].index < low);
    }
}

/// Entries written behind the end of an ascending log are added to it as
/// they are.
pub proof fn lemma_append_extends(log: Seq<EntryModel>, batch: Seq<EntryModel>)
    requires
        ascending(log + batch),
    ensures
        log_put_all(log, batch) == log + batch,
    decreases batch.len(),
{
    let whole = log + batch;
    if batch.len() == 0 {
        assert(log + batch =~= log);
    } else {
        let front = batch.drop_last();
        let e = batch.last();
        let base = log + front;
        assert(base =~= whole.drop_last());
        assert(ascending(base)) by {
            assert forall|i: int, j: int| 0 <= i < j < base.len() implies base[i].index
                < base[j].index by {
                assert(base[i] == whole[i] && base[j] == whole[j]);
            }
        }
        lemma_append_extends(log, front);
        assert(whole.last() == e);
        assert forall|i: int| 0 <= i < base.len() implies (#[trigger] base[i]).index
            < e.index by {
            assert(base[i] == whole[i]);
            assert(whole[i].index < whole[whole.len() - 1].index);
        }
        lemma_rank_is(base, e.index as int, base.len() as int);
        lemma_rank_is(base, e.index + 1, base.len() as int);
        assert(log_put(base, e) =~= whole);
    }
}

/// Appending to an ascending log and reading a range gives the appended
/// entries restricted to the range: the entry at each place of the grown log
/// is returned exactly where its index lies in `[low, high)`.
pub proof fn lemma_append_then_entries(
    log: Seq<EntryModel>,
    batch: Seq<EntryModel>,
    low: int,
    high: int,
)
    requires
        ascending(log + batch),
        low <= high,
    ensures
        log_range(log_put_all(log, batch), low, high) =~= (log + batch).subrange(
            rank(log + batch, low),
            rank(log + batch, high),
        ),
        forall|i: int|
            0 <= i < (log + batch).len() ==> (low <= (#[trigger] (log + batch)[i]).index < high
                <==> rank(log + batch, low) <= i < rank(log + batch, high)),
{
    lemma_append_extends(log, batch);
    lemma_range_restricts(log + batch, low, high);
}

/// What is left of an ascending log after compaction through `commit`
/// starts above `commit`.
pub proof fn lemma_compacted_starts_after(log: Seq<EntryModel>, commit: u64)
    requires
        ascending(log),
        commit < u64::MAX,
    ensures
        forall|hard: HardState|
            hard.commit == commit ==> #[trigger] first_index_of(log_after(log, commit), hard)
                > commit,
        forall|i: int|
            0 <= i < log_after(log, commit).len() ==> (#[trigger] log_after(log, commit)[i]).index
                > commit,
{
    lemma_rank_splits(log, commit + 1);
    let rest = log_after(log, commit);
    assert forall|i: int| 0 <= i < rest.len() implies (#[trigger] rest[i]).index > commit by {
        assert(rest[i] == log[rank(log, commit + 1) + i]);
    }
    assert forall|hard: HardState| hard.commit == commit implies #[trigger] first_index_of(
        rest,
        hard,
    ) > commit by {
        if rest.len() > 0 {
            assert(rest[0].index > commit);
        }
    }
}

/// After a snapshot with index and term not both zero was installed, the
/// store starts up with the snapshot's commit index, term and configuration.
pub proof fn lemma_initial_state_after_snapshot(index: u64, term: u64, conf: ConfModel)
    requires
        index != 0 || term != 0,
    ensures
        initial_state_of(HardState { term, vote: 0, commit: index }, conf) == (
            HardState { term, vote: 0, commit: index },
            conf,
        ),
{
}

/// Cutting always gives at least one line.
pub proof fn lemma_split_nonempty(bytes: Seq<u8>)
    ensures
        split_lines(bytes).len() >= 1,
    decreases bytes.len(),
{
    if bytes.len() > 0 {
        lemma_split_nonempty(bytes.drop_last());
    }
}

/// Bytes without a newline, put behind others, lengthen the last line.
pub proof fn lemma_split_append(a: Seq<u8>, b: Seq<u8>)
    requires
        !b.contains(NEWLINE),
    ensures
        split_lines(a).len() >= 1,
        split_lines(a + b) == split_lines(a).update(
            split_lines(a).len() - 1,
            split_lines(a).last() + b,
        ),
    decreases b.len(),
{
    lemma_split_nonempty(a);
    let s = split_lines(a);
    if b.len() == 0 {
        assert(a + b =~= a);
        assert(s.last() + b =~= s.last());
        assert(s.update(s.len() - 1, s.last()) =~= s);
    } else {
        let front = b.drop_last();
        assert(!front.contains(NEWLINE)) by {
            if front.contains(NEWLINE) {
                let i = choose|i: int| 0 <= i < front.len() && front[i] == NEWLINE;
                assert(b[i] == NEWLINE);
            }
        }
        lemma_split_append(a, front);
        assert((a + b).drop_last() =~= a + front);
        assert((a + b).last() == b.last());
        assert(b[b.len() - 1] != NEWLINE);
        assert((s.last() + front).push(b.last()) =~= s.last() + b);
        assert(split_lines(a + b) =~= s.update(s.len() - 1, s.last() + b));
    }
}

/// Lines without a newline come back as they were when they are put
/// together and cut again.
pub proof fn lemma_split_joined(lines: Seq<Seq<u8>>)
    requires
        lines.len() >= 1,
        forall|i: int| 0 <= i < lines.len() ==> !(#[trigger] lines[i]).contains(NEWLINE),
    ensures
        split_lines(joined(lines)) == lines,
    decreases lines.len(),
{
    let empty = Seq::<u8>::empty();
    if lines.len() == 1 {
        lemma_split_append(empty, lines[0]);
        assert(empty + lines[0] =~= lines[0]);
        assert(split_lines(empty) =~= seq![empty]);
        assert(split_lines(joined(lines)) =~= lines);
    } else {
        let front = lines.drop_last();
        assert forall|i: int| 0 <= i < front.len() implies !(#[trigger] front[i]).contains(
            NEWLINE,
        ) by {
            assert(front[i] == lines[i]);
        }
        lemma_split_joined(front);
        let head = joined(front).push(NEWLINE);
        assert(head.drop_last() =~= joined(front));
        assert(split_lines(head) == front.push(empty));
        lemma_split_append(head, lines.last());
        assert(empty + lines.last() =~= lines.last());
        assert(split_lines(joined(lines)) =~= lines);
    }
}

/// Writing the lines of records with distinct keys, each of which reads
/// back as its record, gives those records in their order.
pub proof fn lemma_replay_rebuilds(data: Seq<(Seq<char>, Seq<char>)>)
    requires
        unique_keys(data),
        forall|i: int|
            0 <= i < data.len() ==> json_record(#[trigger] record_lines(data)[i]) == Some(data[i]),
    ensures
        replay(record_lines(data)) == data,
    decreases data.len(),
{
    let lines = record_lines(data);
    if data.len() == 0 {
        assert(replay(lines) =~= data);
    } else {
        let front = data.drop_last();
        assert(lines.drop_last() =~= record_lines(front));
        assert forall|i: int| 0 <= i < front.len() implies json_record(
            #[trigger] record_lines(front)[i],
        ) == Some(front[i]) by {
            assert(record_lines(front)[i] == record_lines(data)[i]);
        }
        assert(unique_keys(front)) by {
            assert forall|i: int, j: int| 0 <= i < j < front.len() implies front[i].0
                != front[j].0 by {
                assert(front[i] == data[i] && front[j] == data[j]);
            }
        }
        lemma_replay_rebuilds(front);
        assert(json_record(lines.last()) == Some(data.last())) by {
            assert(lines.last() == record_lines(data)[data.len() - 1]);
        }
        assert(!has_key(front, data.last().0)) by {
            if has_key(front, data.last().0) {
                let i = key_index(front, data.last().0);
                assert(front[i] == data[i]);
                assert(data[i].0 != data[data.len() - 1].0);
            }
        }
        assert(front.push(data.last()) =~= data);
    }
}

/// A snapshot of records with distinct keys installs the same records on
/// another store, provided that the line of each record holds no newline and
/// reads back as the record.
pub proof fn lemma_snapshot_round_trip(data: Seq<(Seq<char>, Seq<char>)>)
    requires
        data.len() >= 1,
        unique_keys(data),
        forall|i: int|
            0 <= i < data.len() ==> json_record(#[trigger] record_lines(data)[i]) == Some(data[i]),
        forall|i: int| 0 <= i < data.len() ==> !(#[trigger] record_lines(data)[i]).contains(NEWLINE),
    ensures
        replay(split_lines(joined(record_lines(data)))) == data,
{
    lemma_split_joined(record_lines(data));
    lemma_replay_rebuilds(data);
}

/// What the consensus core asks of a store beyond reading it: to take
/// entries, to install a snapshot, and to keep configuration state and hard
/// state.
pub trait WriteStorage {
    /// The store is in order.
    spec fn valid(&self) -> bool;

    /// The entries held, in index order.
    spec fn entries_held(&self) -> Seq<EntryModel>;

    /// The hard state held.
    spec fn hard_state_held(&self) -> HardState;

    /// The configuration state held.
    spec fn conf_state_held(&self) -> ConfModel;

    /// Writes a batch of entries, each under its index.
    fn append(&mut self, entries: &[Entry]) -> (r: Result<(), StorageError>)
        requires
            old(self).valid(),
        ensures
            r.is_ok(),
            final(self).valid(),
            final(self).entries_held() == log_put_all(
                old(self).entries_held(),
                entry_models(entries@),
            ),
            final(self).hard_state_held() == old(self).hard_state_held(),
            final(self).conf_state_held() == old(self).conf_state_held(),
    ;

    /// Installs a snapshot, unless it is older than the log.
    fn apply_snapshot(&mut self, snapshot: Snapshot) -> (r: Result<(), StorageError>)
        requires
            old(self).valid(),
            snapshot.index < u64::MAX,
        ensures
            final(self).valid(),
            snapshot.index < first_index_of(old(self).entries_held(), old(self).hard_state_held())
                ==> {
                &&& r == Err::<(), StorageError>(StorageError::SnapshotOutOfDate)
                &&& final(self).entries_held() == old(self).entries_held()
                &&& final(self).hard_state_held() == old(self).hard_state_held()
                &&& final(self).conf_state_held() == old(self).conf_state_held()
            },
            snapshot.index >= first_index_of(old(self).entries_held(), old(self).hard_state_held())
                ==> {
                &&& r == Ok::<(), StorageError>(())
                &&& final(self).entries_held() == Seq::<EntryModel>::empty()
                &&& final(self).hard_state_held() == (HardState {
                    term: snapshot.term,
                    vote: 0,
                    commit: snapshot.index,
                })
                &&& final(self).conf_state_held() == snapshot.conf_state@
            },
    ;

    /// Keeps the configuration state.
    fn set_conf_state(&mut self, cs: ConfState) -> (r: Result<(), StorageError>)
        requires
            old(self).valid(),
        ensures
            r.is_ok(),
            final(self).valid(),
            final(self).conf_state_held() == cs@,
            final(self).entries_held() == old(self).entries_held(),
            final(self).hard_state_held() == old(self).hard_state_held(),
    ;

    /// Keeps commit index and term, and drops the entries through the
    /// commit index.
    fn set_hard_state(&mut self, commit: u64, term: u64) -> (r: Result<(), StorageError>)
        requires
            old(self).valid(),
            commit < u64::MAX,
        ensures
            r.is_ok(),
            final(self).valid(),
            final(self).hard_state_held() == (HardState { term, vote: 0, commit }),
            final(self).entries_held() == log_after(old(self).entries_held(), commit),
            final(self).conf_state_held() == old(self).conf_state_held(),
    ;
}

impl WriteStorage for URRocksStorage {
    open spec fn valid(&self) -> bool {
        self.wf()
    }

    open spec fn entries_held(&self) -> Seq<EntryModel> {
        self.log_model()
    }

    open spec fn hard_state_held(&self) -> HardState {
        self.hard()
    }

    open spec fn conf_state_held(&self) -> ConfModel {
        self.conf()
    }

    fn append(&mut self, entries: &[Entry]) -> (r: Result<(), StorageError>) {
        URRocksStorage::append(self, entries)
    }

    fn apply_snapshot(&mut self, snapshot: Snapshot) -> (r: Result<(), StorageError>) {
        URRocksStorage::apply_snapshot(self, snapshot)
    }

    fn set_conf_state(&mut self, cs: ConfState) -> (r: Result<(), StorageError>) {
        URRocksStorage::set_conf_state(self, cs)
    }

    fn set_hard_state(&mut self, commit: u64, term: u64) -> (r: Result<(), StorageError>) {
        URRocksStorage::set_hard_state(self, commit, term)
    }
}

/// The entry held under an index.
pub open spec fn entry_at(log: Seq<EntryModel>, idx: u64) -> Option<EntryModel> {
    if rank(log, idx as int) < rank(log, idx + 1) {
        Some(log[rank(log, idx as int)])
    } else {
        None
    }
}

/// The rank of a bound in a log into which an entry was written.
#[verifier::rlimit(40)]
proof fn lemma_rank_after_put(log: Seq<EntryModel>, e: EntryModel, bound: int)
    requires
        ascending(log),
    ensures
        ascending(log_put(log, e)),
        bound <= e.index ==> rank(log_put(log, e), bound) == rank(log, bound),
        bound > e.index ==> rank(log_put(log, e), bound) == rank(log, bound) + 1 - (rank(
            log,
            e.index + 1,
        ) - rank(log, e.index as int)),
{
    let lo = rank(log, e.index as int);
    let hi = rank(log, e.index + 1);
    let after = log_put(log, e);
    lemma_rank_splits(log, e.index as int);
    lemma_rank_step(log, e.index);
    lemma_rank_splits(log, bound);
    let r = rank(log, bound);
    assert(after.len() == lo + 1 + (log.len() - hi));
    assert forall|i: int| 0 <= i < after.len() implies #[trigger] after[i] == (if i < lo {
        log[i]
    } else if i == lo {
        e
    } else {
        log[hi + (i - lo - 1)]
    }) by {}
    assert(ascending(after)) by {
        assert forall|i: int, j: int| 0 <= i < j < after.len() implies after[i].index
            < after[j].index by {
            if j < lo {
                assert(log[i].index < log[j].index);
            } else if j == lo {
                assert(log[i].index < e.index);
            } else {
                let j0 = hi + (j - lo - 1);
                assert(log[j0].index >= e.index + 1);
                if i < lo {
                    assert(log[i].index < e.index);
                } else if i > lo {
                    assert(log[hi + (i - lo - 1)].index < log[j0].index);
                }
            }
        }
    }
    if bound <= e.index {
        if r > lo {
            assert(log[lo].index < bound);
            assert(log[lo].index >= e.index);
        }
        assert forall|i: int| 0 <= i < r implies (#[trigger] after[i]).index < bound by {
            assert(log[i].index < bound);
        }
        assert forall|i: int| r <= i < after.len() implies (#[trigger] after[i]).index
            >= bound by {
            if i < lo {
                assert(log[i].index >= bound);
            } else if i > lo {
                assert(log[hi + (i - lo - 1)].index >= e.index + 1);
            }
        }
        lemma_rank_is(after, bound, r);
    } else {
        if r < hi {
            assert(log[r].index >= bound);
            assert(log[r].index < e.index + 1);
        }
        let p = r + 1 - (hi - lo);
        assert forall|i: int| 0 <= i < p implies (#[trigger] after[i]).index < bound by {
            if i < lo {
                assert(log[i].index < e.index);
            } else if i > lo {
                assert(log[hi + (i - lo - 1)].index < bound);
            }
        }
        assert forall|i: int| p <= i < after.len() implies (#[trigger] after[i]).index
            >= bound by {
            assert(log[hi + (i - lo - 1)].index >= bound);
        }
        lemma_rank_is(after, bound, p);
    }
}

/// Writing an entry under its index keeps the log ascending and changes
/// what is held under that index and under no other.
#[verifier::rlimit(40)]
pub proof fn lemma_put_writes_one_index(log: Seq<EntryModel>, e: EntryModel, idx: u64)
    requires
        ascending(log),
    ensures
        ascending(log_put(log, e)),
        entry_at(log_put(log, e), idx) == if idx == e.index {
            Some(e)
        } else {
            entry_at(log, idx)
        },
{
    let lo = rank(log, e.index as int);
    let hi = rank(log, e.index + 1);
    let after = log_put(log, e);
    lemma_rank_after_put(log, e, idx as int);
    lemma_rank_after_put(log, e, idx + 1);
    lemma_rank_splits(log, e.index as int);
    lemma_rank_step(log, e.index);
    lemma_rank_splits(log, idx as int);
    lemma_rank_step(log, idx);
    if idx == e.index {
        assert(after[lo] == e);
    } else if idx < e.index {
        let r = rank(log, idx as int);
        if r < rank(log, idx + 1) {
            assert(log[r].index == idx);
            if r >= lo {
                assert(log[r].index >= e.index);
            }
            assert(after[r] == log[r]);
        }
    } else {
        let r = rank(log, idx as int);
        if r < hi {
            assert(log[r].index >= idx);
            assert(log[r].index < e.index + 1);
        }
        if r < rank(log, idx + 1) {
            assert(after[r + 1 - (hi - lo)] == log[r]);
        }
    }
}

} // verus!
