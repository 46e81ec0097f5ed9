//! What a download delivers, worked out against a record of what the peers
//! answer.
//!
//! The record is a list of outcomes. Every fetch runs through it from the
//! start, one attempt per entry, until it meets an archive that covers the
//! sequence number it asked for. A fetch that meets none never ends: the
//! download has stalled.
//!
//! Fetches are started in batches, as many at once as the bound on concurrent
//! fetches allows, and the archives of a batch arrive in the reverse of the
//! order in which they were asked for.

use crate::block_maps::BlockMaps;
use crate::fetcher::{delivers_at, fetched, lemma_fetched, succeeds_at, FetchOutcome};
use crate::gaps::{
    dedup, deduped, lemma_deduped, lemma_deduped_subset, no_repeats, plan_rescan, rescan_for,
};
use crate::pipeline::{ContiguityPipeline, PipelineStep};
use crate::range::{lemma_strided, strided, FetchRequest, RangeDownloader};
use vstd::prelude::*;

verus! {

/// No attempt brings an archive for `mc_seq_no`, so the fetch of it never ends
/// and nothing further is delivered.
#[derive(Clone, Copy, Debug, PartialEq, Eq, Structural)]
pub struct Stalled {
    pub mc_seq_no: u32,
}

/// The archives fetched for the sequence numbers of `plan`, in the order of
/// `plan`, or the first sequence number of `plan` whose fetch never ends.
pub open spec fn fetched_all(outcomes: Seq<FetchOutcome>, plan: Seq<u32>) -> Result<
    Seq<BlockMaps>,
    Stalled,
>
    decreases plan.len(),
{
    if plan.len() == 0 {
        Ok(Seq::empty())
    } else {
        match fetched_all(outcomes, plan.drop_last()) {
            Err(stalled) => Err(stalled),
            Ok(front) => match fetched(outcomes, plan.last()) {
                Some(archive) => Ok(front.push(archive)),
                None => Err(Stalled { mc_seq_no: plan.last() }),
            },
        }
    }
}

/// What the contiguity pipeline hands on for the stream `stream`, when it runs
/// at `stride`.
///
/// For every archive but the last, in order: if its successor does not follow
/// it directly, the archives that fill the gap between the two, and then the
/// archive itself. The last archive of the stream is not handed on.
pub open spec fn healed(outcomes: Seq<FetchOutcome>, stride: u32, stream: Seq<BlockMaps>) -> Result<
    Seq<BlockMaps>,
    Stalled,
>
    decreases stride, 1nat, stream.len(),
{
    if stream.len() < 2 {
        Ok(Seq::empty())
    } else {
        match healed(outcomes, stride, stream.drop_last()) {
            Err(stalled) => Err(stalled),
            Ok(front) => match ContiguityPipeline::step(
                stream[stream.len() - 2],
                stream.last(),
            ) {
                PipelineStep::Forward { archive } => Ok(front.push(archive)),
                PipelineStep::Heal { gap_start, gap_end, archive } => match filled(
                    outcomes,
                    stride,
                    gap_start,
                    gap_end,
                ) {
                    Err(stalled) => Err(stalled),
                    Ok(found) => Ok(front + found + seq![archive]),
                },
            },
        }
    }
}

/// The archives that fill the gap `gap_start..=gap_end`, found by a pipeline
/// that runs at `stride`: what a download of `gap_start..gap_end` at the next
/// finer stride delivers, without repeats. Nothing for a malformed gap,
/// where no finer stride exists, and where that range is empty.
pub open spec fn filled(
    outcomes: Seq<FetchOutcome>,
    stride: u32,
    gap_start: u32,
    gap_end: u32,
) -> Result<Seq<BlockMaps>, Stalled>
    decreases stride, 0nat, 0nat,
{
    match rescan_for(gap_start, gap_end, stride) {
        None => Ok(Seq::empty()),
        Some(scan) => match delivered(outcomes, scan.step, scan.from, scan.to) {
            Err(stalled) => Err(stalled),
            Ok(None) => Ok(Seq::empty()),
            Ok(Some(found)) => Ok(deduped(found)),
        },
    }
}

/// What the contiguity pipeline makes of `stream`: no result for an empty
/// stream, and else the stream that `healed` describes.
pub open spec fn processed(outcomes: Seq<FetchOutcome>, stride: u32, stream: Seq<BlockMaps>) -> Result<
    Option<Seq<BlockMaps>>,
    Stalled,
>
    decreases stride, 1nat, stream.len() + 1,
{
    if stream.len() == 0 {
        Ok(None)
    } else {
        match healed(outcomes, stride, stream) {
            Err(stalled) => Err(stalled),
            Ok(archives) => Ok(Some(archives)),
        }
    }
}

/// What a download of the range `from..to` at stride `step` delivers: no
/// result for an empty range, and else the archives fetched for the sequence
/// numbers of the range, handed through the contiguity pipeline.
pub open spec fn delivered(outcomes: Seq<FetchOutcome>, step: u32, from: u32, to: u32) -> Result<
    Option<Seq<BlockMaps>>,
    Stalled,
>
    decreases step, 2nat, 0nat,
{
    match fetched_all(outcomes, strided(from as int, to as int, step as int)) {
        Err(stalled) => Err(stalled),
        Ok(stream) => processed(outcomes, step, stream),
    }
}

/// The list that a vector of archives stands for.
pub open spec fn archives_of(result: Result<Vec<BlockMaps>, Stalled>) -> Result<
    Seq<BlockMaps>,
    Stalled,
> {
    match result {
        Ok(archives) => Ok(archives@),
        Err(stalled) => Err(stalled),
    }
}

/// The stream that the result of a download stands for.
pub open spec fn stream_of(result: Result<Option<Vec<BlockMaps>>, Stalled>) -> Result<
    Option<Seq<BlockMaps>>,
    Stalled,
> {
    match result {
        Ok(Some(archives)) => Ok(Some(archives@)),
        Ok(None) => Ok(None),
        Err(stalled) => Err(stalled),
    }
}

/// Every archive of the list covers something.
pub open spec fn all_populated(archives: Seq<BlockMaps>) -> bool {
    forall|i: int| 0 <= i < archives.len() ==> (#[trigger] archives[i])@ is Some
}

/// No two neighbours of the list are apart: each archive starts one past the
/// end of the one before it.
pub open spec fn gap_free(archives: Seq<BlockMaps>) -> bool {
    forall|i: int|
        0 < i < archives.len() ==> BlockMaps::contiguous(archives[i - 1], #[trigger] archives[i])
}

/// Every archive of the list covers a sequence number of `from..to`.
pub open spec fn all_overlap(archives: Seq<BlockMaps>, from: int, to: int) -> bool {
    forall|i: int| 0 <= i < archives.len() ==> (#[trigger] archives[i]).overlaps(from, to)
}

/// The archives of a range come in the order of the range: where no fetch
/// stalls, the `i`-th archive is the one fetched for the `i`-th sequence
/// number, and covers it.
pub proof fn lemma_fetch_order(outcomes: Seq<FetchOutcome>, plan: Seq<u32>)
    ensures
        fetched_all(outcomes, plan) matches Ok(stream) ==> {
            &&& stream.len() == plan.len()
            &&& forall|i: int|
                0 <= i < plan.len() ==> fetched(outcomes, plan[i]) == Some(#[trigger] stream[i])
                    && stream[i].covers(plan[i] as int)
        },
        fetched_all(outcomes, plan) matches Err(stalled) ==> exists|i: int|
            0 <= i < plan.len() && #[trigger] plan[i] == stalled.mc_seq_no && fetched(
                outcomes,
                plan[i],
            ) is None,
    decreases plan.len(),
{
    if plan.len() > 0 {
        let front = plan.drop_last();
        lemma_fetch_order(outcomes, front);
        match fetched_all(outcomes, front) {
            Err(stalled) => {
                let i = choose|i: int|
                    0 <= i < front.len() && #[trigger] front[i] == stalled.mc_seq_no && fetched(
                        outcomes,
                        front[i],
                    ) is None;
                assert(plan[i] == stalled.mc_seq_no);
            },
            Ok(stream) => {
                match fetched(outcomes, plan.last()) {
                    Some(archive) => {
                        let at = choose|at: int| succeeds_at(outcomes, plan.last(), at);
                        lemma_fetched(outcomes, plan.last(), at);
                        let all = stream.push(archive);
                        assert forall|i: int| 0 <= i < plan.len() implies fetched(
                            outcomes,
                            plan[i],
                        ) == Some(#[trigger] all[i]) && all[i].covers(plan[i] as int) by {
                            if i < front.len() {
                                assert(front[i] == plan[i]);
                                assert(all[i] == stream[i]);
                            }
                        }
                    },
                    None => {
                        assert(plan[plan.len() - 1] == plan.last());
                    },
                }
            },
        }
    }
}

/// A stream without gaps passes the pipeline as it is, short of its last
/// archive: no gap is filled, and what is handed on has no gap either.
pub proof fn lemma_gap_free_stream(outcomes: Seq<FetchOutcome>, stride: u32, stream: Seq<BlockMaps>)
    requires
        gap_free(stream),
    ensures
        stream.len() > 0 ==> healed(outcomes, stride, stream) == Ok::<Seq<BlockMaps>, Stalled>(
            stream.drop_last(),
        ),
        stream.len() == 0 ==> healed(outcomes, stride, stream) == Ok::<Seq<BlockMaps>, Stalled>(
            stream,
        ),
        healed(outcomes, stride, stream) matches Ok(archives) && gap_free(archives),
    decreases stream.len(),
{
    if stream.len() >= 2 {
        let front = stream.drop_last();
        assert forall|i: int| 0 < i < front.len() implies BlockMaps::contiguous(
            front[i - 1],
            #[trigger] front[i],
        ) by {
            assert(BlockMaps::contiguous(stream[i - 1], stream[i]));
        }
        lemma_gap_free_stream(outcomes, stride, front);
        assert(BlockMaps::contiguous(stream[stream.len() - 2], stream[stream.len() - 1]));
        assert(front.drop_last().push(stream[stream.len() - 2]) =~= front);
    } else if stream.len() == 1 {
        assert(stream.drop_last() =~= Seq::<BlockMaps>::empty());
    } else {
        assert(stream =~= Seq::<BlockMaps>::empty());
    }
}

/// A download whose archives follow one another without a gap delivers them
/// as they were fetched, in the order of the range, short of the last one.
pub proof fn lemma_gap_free_download(outcomes: Seq<FetchOutcome>, step: u32, from: u32, to: u32)
    requires
        fetched_all(outcomes, strided(from as int, to as int, step as int)) matches Ok(stream)
            && stream.len() > 0 && gap_free(stream),
    ensures
        delivered(outcomes, step, from, to) == Ok::<Option<Seq<BlockMaps>>, Stalled>(
            Some(fetched_all(outcomes, strided(from as int, to as int, step as int))->Ok_0.drop_last()),
        ),
{
    let stream = fetched_all(outcomes, strided(from as int, to as int, step as int))->Ok_0;
    lemma_gap_free_stream(outcomes, step, stream);
}

/// A malformed gap, one that starts behind its end, is filled with nothing,
/// whatever the peers answer.
pub proof fn lemma_malformed_gap(
    outcomes: Seq<FetchOutcome>,
    stride: u32,
    gap_start: u32,
    gap_end: u32,
)
    requires
        gap_start > gap_end,
    ensures
        filled(outcomes, stride, gap_start, gap_end) == Ok::<Seq<BlockMaps>, Stalled>(
            Seq::empty(),
        ),
{
}

/// What fills a gap never holds the same archive twice in a row.
pub proof fn lemma_filled_no_repeats(
    outcomes: Seq<FetchOutcome>,
    stride: u32,
    gap_start: u32,
    gap_end: u32,
)
    ensures
        filled(outcomes, stride, gap_start, gap_end) matches Ok(found) ==> no_repeats(found),
{
    match rescan_for(gap_start, gap_end, stride) {
        None => {},
        Some(scan) => match delivered(outcomes, scan.step, scan.from, scan.to) {
            Ok(Some(found)) => {
                lemma_deduped(found);
            },
            _ => {},
        },
    }
}

/// A download delivers only archives that cover a sequence number of its
/// range, those that fill its gaps included.
pub proof fn lemma_delivered_within(outcomes: Seq<FetchOutcome>, step: u32, from: u32, to: u32)
    requires
        step > 0,
    ensures
        delivered(outcomes, step, from, to) matches Ok(Some(archives)) ==> all_overlap(
            archives,
            from as int,
            to as int,
        ),
    decreases step, 2nat, 0nat,
{
    let plan = strided(from as int, to as int, step as int);
    lemma_strided(from as int, to as int, step as int);
    lemma_fetch_order(outcomes, plan);
    match fetched_all(outcomes, plan) {
        Err(_) => {},
        Ok(stream) => {
            assert forall|i: int| 0 <= i < stream.len() implies (#[trigger] stream[i]).overlaps(
                from as int,
                to as int,
            ) by {
                assert(stream[i].covers(plan[i] as int));
                assert(plan[i] == from + i * step && from + i * step < to);
                assert(from + i * step >= from) by (nonlinear_arith)
                    requires
                        i >= 0,
                        step > 0,
                ;
            }
            lemma_healed_within(outcomes, step, stream, from as int, to as int);
        },
    }
}

/// Whatever is put in for the gap between two archives covers a sequence
/// number that lies behind the end of the first and before the start of the
/// second.
pub proof fn lemma_filling_lies_in_gap(
    outcomes: Seq<FetchOutcome>,
    stride: u32,
    left: BlockMaps,
    right: BlockMaps,
)
    requires
        left@ is Some,
        right@ is Some,
    ensures
        ({
            let gap = BlockMaps::gap_between(left, right)->0;
            filled(outcomes, stride, gap.0, gap.1) matches Ok(found) ==> all_overlap(
                found,
                left.last() + 1,
                right.first(),
            )
        }),
{
    let gap = BlockMaps::gap_between(left, right)->0;
    lemma_filled_within(outcomes, stride, gap.0, gap.1);
    BlockMaps::lemma_gap_exact(left, right);
    match filled(outcomes, stride, gap.0, gap.1) {
        Err(_) => {},
        Ok(found) => {
            assert forall|i: int| 0 <= i < found.len() implies (#[trigger] found[i]).overlaps(
                left.last() + 1,
                right.first(),
            ) by {
                assert(found[i].overlaps(gap.0 as int, gap.1 as int));
                found[i].lemma_ordered();
            }
        },
    }
}

/// The plan's archives up to position `upto` are those of the plan up to
/// `upto - 1`, followed by the archive fetched for the sequence number at
/// `upto - 1`.
proof fn lemma_fetched_all_step(outcomes: Seq<FetchOutcome>, plan: Seq<u32>, upto: int)
    requires
        0 < upto <= plan.len(),
    ensures
        fetched_all(outcomes, plan.take(upto)) == match fetched_all(
            outcomes,
            plan.take(upto - 1),
        ) {
            Err(stalled) => Err(stalled),
            Ok(front) => match fetched(outcomes, plan[upto - 1]) {
                Some(archive) => Ok(front.push(archive)),
                None => Err(Stalled { mc_seq_no: plan[upto - 1] }),
            },
        },
{
    assert(plan.take(upto).drop_last() =~= plan.take(upto - 1));
    assert(plan.take(upto).last() == plan[upto - 1]);
}

/// A fetch that stalls within the first `upto` sequence numbers of a plan
/// stalls the whole plan.
proof fn lemma_fetched_all_stalls(outcomes: Seq<FetchOutcome>, plan: Seq<u32>, upto: int)
    requires
        0 <= upto <= plan.len(),
        fetched_all(outcomes, plan.take(upto)) is Err,
    ensures
        fetched_all(outcomes, plan) == fetched_all(outcomes, plan.take(upto)),
    decreases plan.len() - upto,
{
    if upto < plan.len() {
        assert(plan.take(upto + 1).drop_last() =~= plan.take(upto));
        lemma_fetched_all_stalls(outcomes, plan, upto + 1);
    } else {
        assert(plan.take(upto) =~= plan);
    }
}

/// A gap whose filling stalls within the first `upto` archives of a stream
/// stalls the whole stream.
proof fn lemma_healed_stalls(
    outcomes: Seq<FetchOutcome>,
    stride: u32,
    stream: Seq<BlockMaps>,
    upto: int,
)
    requires
        0 <= upto <= stream.len(),
        healed(outcomes, stride, stream.take(upto)) is Err,
    ensures
        healed(outcomes, stride, stream) == healed(outcomes, stride, stream.take(upto)),
    decreases stream.len() - upto,
{
    if upto < stream.len() {
        assert(stream.take(upto + 1).drop_last() =~= stream.take(upto));
        lemma_healed_stalls(outcomes, stride, stream, upto + 1);
    } else {
        assert(stream.take(upto) =~= stream);
    }
}

/// The pipeline puts nothing from outside a range between archives of that
/// range.
proof fn lemma_healed_within(
    outcomes: Seq<FetchOutcome>,
    stride: u32,
    stream: Seq<BlockMaps>,
    from: int,
    to: int,
)
    requires
        all_overlap(stream, from, to),
    ensures
        healed(outcomes, stride, stream) matches Ok(archives) ==> all_overlap(archives, from, to),
    decreases stride, 1nat, stream.len(),
{
    if stream.len() >= 2 {
        let left = stream[stream.len() - 2];
        let right = stream.last();
        assert(all_overlap(stream.drop_last(), from, to)) by {
            assert forall|i: int| 0 <= i < stream.drop_last().len() implies (
            #[trigger] stream.drop_last()[i]).overlaps(from, to) by {
                assert(stream[i].overlaps(from, to));
            }
        }
        lemma_healed_within(outcomes, stride, stream.drop_last(), from, to);
        assert(left.overlaps(from, to));
        assert(right.overlaps(from, to));
        match healed(outcomes, stride, stream.drop_last()) {
            Err(_) => {},
            Ok(front) => match ContiguityPipeline::step(left, right) {
                PipelineStep::Forward { archive } => {
                    assert forall|i: int| 0 <= i < front.push(archive).len() implies (
                    #[trigger] front.push(archive)[i]).overlaps(from, to) by {
                        if i < front.len() {
                            assert(front[i].overlaps(from, to));
                        }
                    }
                },
                PipelineStep::Heal { gap_start, gap_end, archive } => {
                    lemma_filled_within(outcomes, stride, gap_start, gap_end);
                    BlockMaps::lemma_gap_exact(left, right);
                    match filled(outcomes, stride, gap_start, gap_end) {
                        Err(_) => {},
                        Ok(found) => {
                            let all = front + found + seq![archive];
                            assert forall|i: int| 0 <= i < all.len() implies (#[trigger] all[i]).overlaps(
                                from,
                                to,
                            ) by {
                                if i < front.len() {
                                    assert(front[i].overlaps(from, to));
                                } else if i < front.len() + found.len() {
                                    let filling = found[i - front.len()];
                                    assert(filling.overlaps(gap_start as int, gap_end as int));
                                    filling.lemma_ordered();
                                }
                            }
                        },
                    }
                },
            },
        }
    }
}

/// What fills a gap covers sequence numbers of the scan of that gap.
proof fn lemma_filled_within(
    outcomes: Seq<FetchOutcome>,
    stride: u32,
    gap_start: u32,
    gap_end: u32,
)
    ensures
        filled(outcomes, stride, gap_start, gap_end) matches Ok(found) ==> all_overlap(
            found,
            gap_start as int,
            gap_end as int,
        ),
    decreases stride, 0nat, 0nat,
{
    match rescan_for(gap_start, gap_end, stride) {
        None => {},
        Some(scan) => {
            lemma_delivered_within(outcomes, scan.step, scan.from, scan.to);
            match delivered(outcomes, scan.step, scan.from, scan.to) {
                Ok(Some(found)) => {
                    lemma_deduped_subset(found);
                    assert forall|i: int| 0 <= i < deduped(found).len() implies (
                    #[trigger] deduped(found)[i]).overlaps(gap_start as int, gap_end as int) by {
                        let k = choose|k: int|
                            0 <= k < found.len() && found[k] == deduped(found)[i];
                        assert(found[k].overlaps(gap_start as int, gap_end as int));
                    }
                },
                _ => {},
            }
        },
    }
}

/// Finds the first attempt at or after `start` that brings bytes: the request
/// is made again for as long as it fails or finds no archive. `None` if no
/// attempt is left that brings any.
pub fn download_archive_or_die(outcomes: &Vec<FetchOutcome>, start: usize) -> (at: Option<usize>)
    ensures
        at matches Some(n) ==> delivers_at(outcomes@, start as int, n as int),
        at is None ==> forall|j: int|
            start <= j < outcomes@.len() ==> !(#[trigger] outcomes@[j]).has_bytes(),
{
    let mut attempt: usize = start;
    while attempt < outcomes.len()
        invariant
            start <= attempt,
            forall|j: int| start <= j < attempt ==> !(#[trigger] outcomes@[j]).has_bytes(),
        decreases outcomes.len() - attempt,
    {
        if outcomes[attempt].delivers_bytes() {
            return Some(attempt);
        }
        attempt += 1;
    }
    None
}

/// Fetches the archive of `mc_seq_no`: goes through the attempts until one
/// brings an archive that covers `mc_seq_no`, and returns that archive with
/// the number of attempts that failed before it. No earlier attempt ends the
/// fetch. `None` if no attempt is accepted.
pub fn download_archive_maps(mc_seq_no: u32, outcomes: &Vec<FetchOutcome>) -> (found: Option<
    (usize, BlockMaps),
>)
    ensures
        found matches Some((failures, archive)) ==> succeeds_at(
            outcomes@,
            mc_seq_no,
            failures as int,
        ) && outcomes@[failures as int] == FetchOutcome::Archive(archive) && archive.covers(
            mc_seq_no as int,
        ),
        found is None ==> forall|j: int|
            0 <= j < outcomes@.len() ==> (#[trigger] outcomes@[j]).verdict(mc_seq_no) is None,
        fetched(outcomes@, mc_seq_no) == match found {
            Some((_, archive)) => Some(archive),
            None => None,
        },
{
    let mut attempt: usize = 0;
    loop
        invariant
            attempt <= outcomes.len(),
            forall|j: int|
                0 <= j < attempt ==> (#[trigger] outcomes@[j]).verdict(mc_seq_no) is None,
        decreases outcomes.len() - attempt,
    {
        match download_archive_or_die(outcomes, attempt) {
            None => {
                proof {
                    assert forall|j: int| 0 <= j < outcomes@.len() implies (
                    #[trigger] outcomes@[j]).verdict(mc_seq_no) is None by {
                        if j >= attempt {
                            assert(!outcomes@[j].has_bytes());
                        }
                    }
                    assert(forall|at: int| !succeeds_at(outcomes@, mc_seq_no, at));
                }
                return None;
            },
            Some(at) => {
                proof {
                    assert forall|j: int| 0 <= j < at implies (#[trigger] outcomes@[j]).verdict(
                        mc_seq_no,
                    ) is None by {
                        if j >= attempt {
                            assert(!outcomes@[j].has_bytes());
                        }
                    }
                }
                match outcomes[at].accepted_for(mc_seq_no) {
                    Some(archive) => {
                        proof {
                            lemma_fetched(outcomes@, mc_seq_no, at as int);
                        }
                        return Some((at, archive));
                    },
                    None => {
                        attempt = at + 1;
                    },
                }
            },
        }
    }
}

/// Runs a download that has not begun to its end and collects what it hands
/// on.
fn fetch_range(downloader: RangeDownloader, outcomes: &Vec<FetchOutcome>) -> (result: Result<
    Vec<BlockMaps>,
    Stalled,
>)
    requires
        downloader.wf(),
        downloader.started() == 0,
        downloader.handed_on() == 0,
        downloader.arrived() == Map::<int, BlockMaps>::empty(),
    ensures
        archives_of(result) == fetched_all(outcomes@, downloader.plan()),
        result matches Ok(stream) ==> all_populated(stream@),
{
    let mut active = downloader;
    let ghost plan = downloader.plan();
    let mut stream: Vec<BlockMaps> = Vec::new();
    proof {
        assert(plan.take(0) =~= Seq::<u32>::empty());
    }
    loop
        invariant
            active.wf(),
            active.plan() == plan,
            downloader.plan() == plan,
            active.started() == stream@.len(),
            active.handed_on() == stream@.len(),
            stream@.len() <= plan.len(),
            fetched_all(outcomes@, plan.take(stream@.len() as int)) == Ok::<
                Seq<BlockMaps>,
                Stalled,
            >(stream@),
            all_populated(stream@),
            forall|k: int| #[trigger]
                active.arrived().contains_key(k) <==> 0 <= k < stream@.len(),
        ensures
            stream@.len() == plan.len(),
            fetched_all(outcomes@, plan) == Ok::<Seq<BlockMaps>, Stalled>(stream@),
            all_populated(stream@),
        decreases plan.len() - stream@.len(),
    {
        let ghost base = stream@;
        let ghost mut got = stream@;
        let mut batch: Vec<(FetchRequest, BlockMaps)> = Vec::new();
        // the fetches of this batch are started
        loop
            invariant
                active.wf(),
                active.plan() == plan,
                downloader.plan() == plan,
                active.handed_on() == base.len(),
                active.started() == got.len(),
                got.len() == base.len() + batch@.len(),
                got.len() <= plan.len(),
                got.take(base.len() as int) == base,
                fetched_all(outcomes@, plan.take(got.len() as int)) == Ok::<
                    Seq<BlockMaps>,
                    Stalled,
                >(got),
                all_populated(got),
                forall|k: int| #[trigger]
                    active.arrived().contains_key(k) <==> 0 <= k < base.len(),
                forall|i: int|
                    0 <= i < batch@.len() ==> {
                        let entry = #[trigger] batch@[i];
                        &&& entry.0.slot == base.len() + i
                        &&& entry.1 == got[base.len() + i]
                        &&& entry.1.covers(plan[base.len() + i] as int)
                    },
            ensures
                !active.may_start(),
            decreases plan.len() - got.len(),
        {
            let request: FetchRequest = match active.next_request() {
                Some(request) => request,
                None => break,
            };
            proof {
                lemma_fetched_all_step(outcomes@, plan, got.len() as int + 1);
            }
            match download_archive_maps(request.mc_seq_no, outcomes) {
                Some((_, archive)) => {
                    proof {
                        let before = got;
                        got = got.push(archive);
                        assert(got.take(base.len() as int) =~= before.take(base.len() as int));
                    }
                    batch.push((request, archive));
                },
                None => {
                    proof {
                        lemma_fetched_all_stalls(outcomes@, plan, got.len() as int + 1);
                    }
                    return Err(Stalled { mc_seq_no: request.mc_seq_no });
                },
            }
        }
        if batch.len() == 0 {
            proof {
                active.lemma_concurrency_bound();
                assert(got =~= base);
                assert(plan.take(plan.len() as int) =~= plan);
            }
            break;
        }
        // their archives arrive, the last one first
        let mut left: usize = batch.len();
        while left > 0
            invariant
                active.wf(),
                active.plan() == plan,
                active.handed_on() == base.len(),
                active.started() == got.len(),
                got.len() == base.len() + batch@.len(),
                got.len() <= plan.len(),
                left <= batch@.len(),
                forall|k: int| #[trigger]
                    active.arrived().contains_key(k) <==> (0 <= k < base.len() || base.len()
                        + left <= k < got.len()),
                forall|k: int|
                    base.len() + left <= k < got.len() ==> #[trigger] active.arrived()[k]
                        == got[k],
                forall|i: int|
                    0 <= i < batch@.len() ==> {
                        let entry = #[trigger] batch@[i];
                        &&& entry.0.slot == base.len() + i
                        &&& entry.1 == got[base.len() + i]
                        &&& entry.1.covers(plan[base.len() + i] as int)
                    },
            decreases left,
        {
            left -= 1;
            let entry: (FetchRequest, BlockMaps) = batch[left];
            let taken: bool = active.complete(entry.0.slot, entry.1);
            assert(taken);
        }
        // and are handed on in the order of the range
        loop
            invariant
                active.wf(),
                active.plan() == plan,
                base.len() <= active.handed_on() <= got.len(),
                active.started() == got.len(),
                forall|k: int| #[trigger]
                    active.arrived().contains_key(k) <==> 0 <= k < got.len(),
                forall|k: int|
                    base.len() <= k < got.len() ==> #[trigger] active.arrived()[k] == got[k],
                stream@ == got.take(active.handed_on() as int),
            ensures
                active.handed_on() == got.len(),
            decreases got.len() - active.handed_on(),
        {
            let ghost at = active.handed_on() as int;
            match active.next_ready() {
                Some(archive) => {
                    stream.push(archive);
                    proof {
                        assert(got.take(at + 1) =~= got.take(at).push(got[at]));
                    }
                },
                None => break,
            }
        }
        proof {
            assert(got.take(got.len() as int) =~= got);
        }
    }
    Ok(stream)
}

/// Downloads the range `from..to` at stride `step`, with at most
/// `parallel_tasks` fetches at once: fetches the archive of every sequence
/// number of the range and hands them, in the order of the range, through the
/// contiguity pipeline. `Ok(None)` says that the range is empty.
///
/// What is delivered does not depend on `parallel_tasks`, nor on the order in
/// which the archives arrive.
pub fn start_download(
    outcomes: &Vec<FetchOutcome>,
    parallel_tasks: usize,
    step: u32,
    from: u32,
    to: u32,
) -> (result: Result<Option<Vec<BlockMaps>>, Stalled>)
    requires
        parallel_tasks > 0,
        step > 0,
    ensures
        stream_of(result) == delivered(outcomes@, step, from, to),
        from >= to ==> result matches Ok(None),
    decreases step, 2nat, 0nat,
{
    match RangeDownloader::new(parallel_tasks, step, from, to) {
        None => Ok(None),
        Some(downloader) => match fetch_range(downloader, outcomes) {
            Err(stalled) => Err(stalled),
            Ok(stream) => process_maps(stream, outcomes, parallel_tasks, step),
        },
    }
}

/// Runs the contiguity pipeline over `stream`, at `stride`.
///
/// The first archive is held. Each further archive is compared with the one
/// held: if it follows directly, the held archive is handed on; if not, the
/// archives that fill the gap between the two are handed on, and then the
/// held archive. The newcomer is held in its place. `Ok(None)` says that the
/// stream is empty.
pub fn process_maps(
    stream: Vec<BlockMaps>,
    outcomes: &Vec<FetchOutcome>,
    parallel_tasks: usize,
    stride: u32,
) -> (result: Result<Option<Vec<BlockMaps>>, Stalled>)
    requires
        parallel_tasks > 0,
        all_populated(stream@),
    ensures
        stream_of(result) == processed(outcomes@, stride, stream@),
    decreases stride, 1nat, stream@.len() + 1,
{
    if stream.len() == 0 {
        return Ok(None);
    }
    let mut pipeline = ContiguityPipeline::new(stream[0]);
    let mut archives: Vec<BlockMaps> = Vec::new();
    let mut i: usize = 1;
    while i < stream.len()
        invariant
            parallel_tasks > 0,
            1 <= i <= stream.len(),
            all_populated(stream@),
            pipeline.held() == stream@[i - 1],
            healed(outcomes@, stride, stream@.take(i as int)) == Ok::<Seq<BlockMaps>, Stalled>(
                archives@,
            ),
        decreases stream.len() - i,
    {
        let ghost front = archives@;
        proof {
            let upto = stream@.take(i + 1);
            assert(upto.drop_last() =~= stream@.take(i as int));
            assert(upto[upto.len() - 2] == stream@[i - 1]);
            assert(upto.last() == stream@[i as int]);
        }
        match pipeline.advance(stream[i]) {
            PipelineStep::Forward { archive } => {
                archives.push(archive);
            },
            PipelineStep::Heal { gap_start, gap_end, archive } => {
                match gaps_handler(gap_start, gap_end, outcomes, parallel_tasks, stride) {
                    Ok(mut found) => {
                        let ghost filling = found@;
                        archives.append(&mut found);
                        archives.push(archive);
                        proof {
                            assert(archives@ =~= front + filling + seq![archive]);
                        }
                    },
                    Err(stalled) => {
                        proof {
                            lemma_healed_stalls(outcomes@, stride, stream@, i + 1);
                        }
                        return Err(stalled);
                    },
                }
            },
        }
        i += 1;
    }
    proof {
        assert(stream@.take(stream.len() as int) =~= stream@);
    }
    Ok(Some(archives))
}

/// Fills the gap `gap_start..=gap_end` that a pipeline running at `stride`
/// has found: downloads `gap_start..gap_end` at the next finer stride and
/// drops every archive that repeats the one before it. A malformed gap, with
/// `gap_start > gap_end`, is filled with nothing and is no error.
pub fn gaps_handler(
    gap_start: u32,
    gap_end: u32,
    outcomes: &Vec<FetchOutcome>,
    parallel_tasks: usize,
    stride: u32,
) -> (result: Result<Vec<BlockMaps>, Stalled>)
    requires
        parallel_tasks > 0,
    ensures
        archives_of(result) == filled(outcomes@, stride, gap_start, gap_end),
        gap_start > gap_end ==> (result matches Ok(found) && found@.len() == 0),
        result matches Ok(found) ==> no_repeats(found@),
    decreases stride, 0nat, 0nat,
{
    match plan_rescan(gap_start, gap_end, stride) {
        None => Ok(Vec::new()),
        Some(scan) => match start_download(outcomes, parallel_tasks, scan.step, scan.from, scan.to) {
            Err(stalled) => Err(stalled),
            Ok(None) => Ok(Vec::new()),
            Ok(Some(found)) => Ok(dedup(found)),
        },
    }
}

} // verus!
