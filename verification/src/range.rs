//! Downloading a strided range of sequence numbers with a bounded number of
//! fetches at once, handing the archives on in the order of the range.

use crate::block_maps::BlockMaps;
use vstd::prelude::*;
use vstd::set_lib::*;

verus! {

/// The stride at which a node scans for archives before any gap is found.
pub const ARCHIVE_SLICE: u32 = 100;

/// The sequence numbers `from`, `from + step`, `from + 2 * step`, ... that lie
/// below `to`, in ascending order.
pub open spec fn strided(from: int, to: int, step: int) -> Seq<u32>
    decreases to - from + step,
{
    if from >= to || step <= 0 {
        Seq::empty()
    } else {
        seq![from as u32] + strided(from + step, to, step)
    }
}

/// The range holds a sequence number exactly if `from < to`. Its `i`-th
/// member is `from + i * step`, every member lies below `to`, and the range
/// stops only where the next member would reach `to`.
pub proof fn lemma_strided(from: int, to: int, step: int)
    requires
        0 <= from,
        to <= u32::MAX + 1,
        step > 0,
    ensures
        strided(from, to, step).len() == 0 <==> from >= to,
        forall|i: int|
            0 <= i < strided(from, to, step).len() ==> #[trigger] strided(from, to, step)[i]
                == from + i * step && from + i * step < to,
        from + strided(from, to, step).len() * step >= to,
    decreases to - from + step,
{
    if from < to {
        let rest = strided(from + step, to, step);
        let all = strided(from, to, step);
        lemma_strided(from + step, to, step);
        assert(all.len() == rest.len() + 1);
        assert((from + step) + rest.len() * step == from + all.len() * step) by (nonlinear_arith)
            requires
                all.len() == rest.len() + 1,
        ;
        assert forall|i: int| 0 <= i < all.len() implies #[trigger] all[i] == from + i * step
            && from + i * step < to by {
            if i > 0 {
                assert(all[i] == rest[i - 1]);
                assert((from + step) + (i - 1) * step == from + i * step) by (nonlinear_arith);
            }
        }
    }
}

/// Lists the sequence numbers of the range `from..to` at stride `step`.
pub fn range_indices(from: u32, to: u32, step: u32) -> (plan: Vec<u32>)
    requires
        step > 0,
    ensures
        plan@ == strided(from as int, to as int, step as int),
{
    let mut plan: Vec<u32> = Vec::new();
    let mut next: u64 = from as u64;
    while next < to as u64
        invariant
            step > 0,
            from <= next,
            next < to ==> next <= u32::MAX,
            plan@ + strided(next as int, to as int, step as int) == strided(
                from as int,
                to as int,
                step as int,
            ),
        decreases to + step - next,
    {
        proof {
            let rest = strided(next + step, to as int, step as int);
            assert(plan@.push(next as u32) + rest =~= plan@ + (seq![next as u32] + rest));
        }
        plan.push(next as u32);
        next = next + step as u64;
    }
    assert(plan@ + Seq::<u32>::empty() =~= plan@);
    plan
}

/// A fetch that is due: the sequence number to fetch, and the slot under which
/// its archive is handed back.
#[derive(Clone, Copy, Debug, PartialEq, Eq, Structural)]
pub struct FetchRequest {
    pub slot: usize,
    pub mc_seq_no: u32,
}

/// One download of a strided range.
///
/// The downloader names the fetches to start, takes their archives back in
/// whatever order they arrive, and hands them on in the order of the range.
/// A fetch is started only while fewer than `parallel_tasks` archives are
/// started and not yet handed on, so never more than `parallel_tasks` fetches
/// are in flight.
pub struct RangeDownloader {
    plan: Vec<u32>,
    parallel_tasks: usize,
    slots: Vec<Option<BlockMaps>>,
    started: usize,
    handed_on: usize,
    pending: usize,
}

impl RangeDownloader {
    /// The sequence numbers of the range, in the order in which their archives
    /// are handed on.
    pub closed spec fn plan(&self) -> Seq<u32> {
        self.plan@
    }

    /// The bound on the fetches that may be in flight at once.
    pub closed spec fn limit(&self) -> nat {
        self.parallel_tasks as nat
    }

    /// How many fetches have been started: those of the slots below this.
    pub closed spec fn started(&self) -> nat {
        self.started as nat
    }

    /// How many archives have been handed on: those of the slots below this.
    pub closed spec fn handed_on(&self) -> nat {
        self.handed_on as nat
    }

    /// The archives that have arrived, by slot.
    pub closed spec fn arrived(&self) -> Map<int, BlockMaps> {
        Map::new(
            |k: int| 0 <= k < self.slots@.len() && self.slots@[k] is Some,
            |k: int| self.slots@[k]->0,
        )
    }

    /// The number of fetches in flight.
    pub closed spec fn in_flight(&self) -> nat {
        self.pending as nat
    }

    /// The slots whose fetch has been started and whose archive has not
    /// arrived.
    pub open spec fn waiting(&self) -> Set<int> {
        Set::new(
            |k: int| self.handed_on() <= k < self.started() && !self.arrived().contains_key(k),
        )
    }

    /// The archives handed on so far, in the order in which they were handed
    /// on.
    pub open spec fn output(&self) -> Seq<BlockMaps> {
        Seq::new(self.handed_on(), |k: int| self.arrived()[k])
    }

    /// Whether a further fetch may be started.
    pub open spec fn may_start(&self) -> bool {
        self.started() < self.plan().len() && self.started() - self.handed_on() < self.limit()
    }

    /// Whether `archive` is taken as the result of the fetch of `slot`: that
    /// fetch is under way, and the archive covers its sequence number.
    pub open spec fn takes(&self, slot: usize, archive: BlockMaps) -> bool {
        &&& self.handed_on() <= slot < self.started()
        &&& !self.arrived().contains_key(slot as int)
        &&& archive.covers(self.plan()[slot as int] as int)
    }

    /// What holds of a downloader between any two calls.
    pub closed spec fn wf(&self) -> bool {
        &&& self.parallel_tasks > 0
        &&& self.slots@.len() == self.plan@.len()
        &&& self.handed_on <= self.started <= self.plan@.len()
        &&& self.started - self.handed_on <= self.parallel_tasks
        &&& forall|k: int| 0 <= k < self.handed_on ==> self.slots@[k] is Some
        &&& forall|k: int| self.started <= k < self.slots@.len() ==> self.slots@[k] is None
        &&& forall|k: int|
            0 <= k < self.slots@.len() && self.slots@[k] is Some ==> (#[trigger] self.slots@[k]->0).covers(
                self.plan@[k] as int,
            )
        &&& self.waiting().finite()
        &&& self.pending == self.waiting().len()
    }

    /// Never more fetches are in flight than the bound allows: the fetches in
    /// flight are the slots in `waiting`, all of them started and not handed
    /// on, and of those there are at most `limit`.
    pub proof fn lemma_concurrency_bound(&self)
        requires
            self.wf(),
        ensures
            self.in_flight() <= self.limit(),
            self.limit() > 0,
            self.in_flight() == self.waiting().len(),
            self.in_flight() <= self.started() - self.handed_on(),
            self.started() - self.handed_on() <= self.limit(),
            self.handed_on() <= self.started() <= self.plan().len(),
    {
        let window = set_int_range(self.handed_on() as int, self.started() as int);
        lemma_int_range(self.handed_on() as int, self.started() as int);
        lemma_len_subset(self.waiting(), window);
    }

    /// Archives leave in the order of the range, whatever the order in which
    /// they arrived: the `k`-th archive handed on is the one that arrived for
    /// slot `k`, and it covers the `k`-th sequence number of the range.
    pub proof fn lemma_order_preserved(&self)
        requires
            self.wf(),
        ensures
            self.output().len() == self.handed_on(),
            forall|k: int|
                0 <= k < self.handed_on() ==> self.arrived().contains_key(k) && self.output()[k]
                    == self.arrived()[k] && (#[trigger] self.output()[k]).covers(
                    self.plan()[k] as int,
                ),
            forall|k: int| #[trigger]
                self.arrived().contains_key(k) ==> 0 <= k < self.started() && self.arrived()[k].covers(
                    self.plan()[k] as int,
                ),
    {
        assert forall|k: int| 0 <= k < self.handed_on() implies self.arrived().contains_key(k)
            && self.output()[k] == self.arrived()[k] && (#[trigger] self.output()[k]).covers(
            self.plan()[k] as int,
        ) by {
            assert(self.slots@[k] is Some);
            assert((self.slots@[k]->0).covers(self.plan@[k] as int));
        }
        assert forall|k: int| #[trigger] self.arrived().contains_key(k) implies 0 <= k
            < self.started() && self.arrived()[k].covers(self.plan()[k] as int) by {
            assert((self.slots@[k]->0).covers(self.plan@[k] as int));
        }
    }

    /// Sets up the download of the range `from..to` at stride `step`, with at
    /// most `parallel_tasks` fetches at once. An empty range has no download.
    pub fn new(parallel_tasks: usize, step: u32, from: u32, to: u32) -> (downloader: Option<
        RangeDownloader,
    >)
        requires
            parallel_tasks > 0,
            step > 0,
        ensures
            downloader is None <==> from >= to,
            downloader matches Some(d) ==> {
                &&& d.wf()
                &&& d.plan() == strided(from as int, to as int, step as int)
                &&& d.limit() == parallel_tasks
                &&& d.started() == 0
                &&& d.handed_on() == 0
                &&& d.arrived() == Map::<int, BlockMaps>::empty()
            },
    {
        if from >= to {
            return None;
        }
        let plan: Vec<u32> = range_indices(from, to, step);
        let mut slots: Vec<Option<BlockMaps>> = Vec::new();
        while slots.len() < plan.len()
            invariant
                slots@.len() <= plan@.len(),
                forall|k: int| 0 <= k < slots@.len() ==> slots@[k] is None,
            decreases plan@.len() - slots@.len(),
        {
            slots.push(None);
        }
        let downloader = RangeDownloader {
            plan,
            parallel_tasks,
            slots,
            started: 0,
            handed_on: 0,
            pending: 0,
        };
        proof {
            assert(downloader.waiting() =~= Set::<int>::empty());
            assert(downloader.arrived() =~= Map::<int, BlockMaps>::empty());
        }
        Some(downloader)
    }

    /// The bound on the fetches that may be in flight at once.
    pub fn parallel_tasks(&self) -> (limit: usize)
        ensures
            limit == self.limit(),
    {
        self.parallel_tasks
    }

    /// The number of fetches in flight.
    pub fn fetches_in_flight(&self) -> (count: usize)
        ensures
            count == self.in_flight(),
    {
        self.pending
    }

    /// Whether every archive of the range has been handed on.
    pub fn is_finished(&self) -> (finished: bool)
        ensures
            finished == (self.handed_on() == self.plan().len()),
    {
        self.handed_on == self.plan.len()
    }

    /// Names the next fetch to start, if one may be started now: the range has
    /// a sequence number left, and fewer than `parallel_tasks` archives are
    /// started and not yet handed on.
    pub fn next_request(&mut self) -> (request: Option<FetchRequest>)
        requires
            old(self).wf(),
        ensures
            final(self).wf(),
            final(self).plan() == old(self).plan(),
            final(self).limit() == old(self).limit(),
            final(self).handed_on() == old(self).handed_on(),
            final(self).arrived() == old(self).arrived(),
            old(self).may_start() ==> (request matches Some(due) && due.slot == old(self).started()
                && due.mc_seq_no == old(self).plan()[due.slot as int]),
            old(self).may_start() ==> final(self).started() == old(self).started() + 1
                && final(self).in_flight() == old(self).in_flight() + 1,
            !old(self).may_start() ==> request is None && final(self).started() == old(
                self,
            ).started() && final(self).in_flight() == old(self).in_flight(),
            final(self).in_flight() <= final(self).limit(),
    {
        proof {
            self.lemma_concurrency_bound();
        }
        if self.started >= self.plan.len() || self.started - self.handed_on
            >= self.parallel_tasks {
            return None;
        }
        let slot: usize = self.started;
        let mc_seq_no: u32 = self.plan[slot];
        proof {
            assert(self.slots@[slot as int] is None);
        }
        let ghost before = self.waiting();
        self.started = slot + 1;
        self.pending = self.pending + 1;
        proof {
            assert(self.waiting() =~= before.insert(slot as int));
            self.lemma_concurrency_bound();
        }
        Some(FetchRequest { slot, mc_seq_no })
    }

    /// Takes the archive that the fetch of `slot` ended with. It is refused,
    /// and nothing changes, unless that fetch is under way and the archive
    /// covers the sequence number that was asked for.
    pub fn complete(&mut self, slot: usize, archive: BlockMaps) -> (taken: bool)
        requires
            old(self).wf(),
        ensures
            final(self).wf(),
            final(self).plan() == old(self).plan(),
            final(self).limit() == old(self).limit(),
            final(self).started() == old(self).started(),
            final(self).handed_on() == old(self).handed_on(),
            taken == old(self).takes(slot, archive),
            taken ==> final(self).arrived() == old(self).arrived().insert(slot as int, archive)
                && final(self).in_flight() == old(self).in_flight() - 1,
            !taken ==> final(self).arrived() == old(self).arrived() && final(self).in_flight()
                == old(self).in_flight(),
    {
        if slot < self.handed_on || slot >= self.started {
            return false;
        }
        if self.slots[slot].is_some() || !archive.is_valid(self.plan[slot]) {
            return false;
        }
        let ghost before = self.waiting();
        let ghost arrived = self.arrived();
        proof {
            assert(before.contains(slot as int));
        }
        self.slots.set(slot, Some(archive));
        self.pending = self.pending - 1;
        proof {
            assert(self.waiting() =~= before.remove(slot as int));
            assert(self.arrived() =~= arrived.insert(slot as int, archive));
        }
        true
    }

    /// Hands on the next archive of the range, if it has arrived.
    pub fn next_ready(&mut self) -> (archive: Option<BlockMaps>)
        requires
            old(self).wf(),
        ensures
            final(self).wf(),
            final(self).plan() == old(self).plan(),
            final(self).limit() == old(self).limit(),
            final(self).started() == old(self).started(),
            final(self).arrived() == old(self).arrived(),
            final(self).in_flight() == old(self).in_flight(),
            old(self).arrived().contains_key(old(self).handed_on() as int) ==> archive == Some(
                old(self).arrived()[old(self).handed_on() as int],
            ) && final(self).handed_on() == old(self).handed_on() + 1 && final(self).output()
                == old(self).output().push(archive->0),
            !old(self).arrived().contains_key(old(self).handed_on() as int) ==> archive is None
                && final(self).handed_on() == old(self).handed_on(),
    {
        if self.handed_on >= self.started {
            return None;
        }
        let ready: Option<BlockMaps> = self.slots[self.handed_on];
        if ready.is_some() {
            let ghost before = self.waiting();
            let ghost output = self.output();
            self.handed_on = self.handed_on + 1;
            proof {
                assert(self.waiting() =~= before);
                assert(self.output() =~= output.push(ready->0));
            }
        }
        ready
    }
}

} // verus!
