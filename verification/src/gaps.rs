//! Filling a gap between two archives by scanning it again at a finer stride.

use crate::block_maps::BlockMaps;
use vstd::prelude::*;

verus! {

/// The range download that fills a gap: the sequence numbers `from`,
/// `from + step`, ... below `to`.
#[derive(Clone, Copy, Debug, PartialEq, Eq, Structural)]
pub struct Rescan {
    pub step: u32,
    pub from: u32,
    pub to: u32,
}

/// The stride one level down: half of `stride`, less one. There is none below
/// a stride of four, where this would not be positive.
pub open spec fn finer(stride: u32) -> Option<u32> {
    if stride >= 4 {
        Some((stride / 2 - 1) as u32)
    } else {
        None
    }
}

/// The scan that fills the gap `gap_start..=gap_end`, found by a pipeline that
/// runs at `stride`. There is none for a malformed gap, one whose start lies
/// behind its end, and none where no finer stride exists.
pub open spec fn rescan_for(gap_start: u32, gap_end: u32, stride: u32) -> Option<Rescan> {
    if gap_start > gap_end {
        None
    } else {
        match finer(stride) {
            Some(step) => Some(Rescan { step, from: gap_start, to: gap_end }),
            None => None,
        }
    }
}

/// `archives` with every run of equal neighbours reduced to its first archive.
pub open spec fn deduped(archives: Seq<BlockMaps>) -> Seq<BlockMaps>
    decreases archives.len(),
{
    if archives.len() == 0 {
        archives
    } else {
        let kept = deduped(archives.drop_last());
        if kept.len() > 0 && kept.last() == archives.last() {
            kept
        } else {
            kept.push(archives.last())
        }
    }
}

/// No archive of `archives` equals the one before it.
pub open spec fn no_repeats(archives: Seq<BlockMaps>) -> bool {
    forall|i: int| 0 < i < archives.len() ==> archives[i - 1] != #[trigger] archives[i]
}

/// Deduplication keeps the last archive, never grows the list, and leaves no
/// archive equal to its predecessor.
pub proof fn lemma_deduped(archives: Seq<BlockMaps>)
    ensures
        deduped(archives).len() <= archives.len(),
        archives.len() > 0 ==> deduped(archives).len() > 0 && deduped(archives).last()
            == archives.last() && deduped(archives).first() == archives.first(),
        no_repeats(deduped(archives)),
    decreases archives.len(),
{
    if archives.len() > 0 {
        lemma_deduped(archives.drop_last());
        let kept = deduped(archives.drop_last());
        if !(kept.len() > 0 && kept.last() == archives.last()) {
            let out = kept.push(archives.last());
            assert forall|i: int| 0 < i < out.len() implies out[i - 1] != #[trigger] out[i] by {
                if i < kept.len() {
                    assert(kept[i - 1] != kept[i]);
                }
            }
        }
    }
}

/// Deduplication brings in no archive that was not there.
pub proof fn lemma_deduped_subset(archives: Seq<BlockMaps>)
    ensures
        forall|i: int|
            0 <= i < deduped(archives).len() ==> archives.contains(#[trigger] deduped(archives)[i]),
    decreases archives.len(),
{
    if archives.len() > 0 {
        let front = archives.drop_last();
        lemma_deduped_subset(front);
        assert forall|i: int| 0 <= i < deduped(archives).len() implies archives.contains(
            #[trigger] deduped(archives)[i],
        ) by {
            if i < deduped(front).len() {
                let k = choose|k: int| 0 <= k < front.len() && front[k] == deduped(front)[i];
                assert(archives[k] == deduped(archives)[i]);
            } else {
                assert(archives[archives.len() - 1] == deduped(archives)[i]);
            }
        }
    }
}

/// A list in which no archive equals the one before it is left as it is.
pub proof fn lemma_deduped_fixpoint(archives: Seq<BlockMaps>)
    requires
        no_repeats(archives),
    ensures
        deduped(archives) == archives,
    decreases archives.len(),
{
    if archives.len() > 0 {
        let front = archives.drop_last();
        assert forall|i: int| 0 < i < front.len() implies front[i - 1] != #[trigger] front[i] by {
            assert(archives[i - 1] != archives[i]);
        }
        lemma_deduped_fixpoint(front);
        if front.len() > 0 {
            assert(archives[archives.len() - 2] != archives[archives.len() - 1]);
        }
        assert(front.push(archives.last()) =~= archives);
    }
}

/// The stride one level down from `stride`, if there is one.
pub fn finer_stride(stride: u32) -> (step: Option<u32>)
    ensures
        step == finer(stride),
{
    if stride >= 4 {
        Some(stride / 2 - 1)
    } else {
        None
    }
}

/// Decides how the gap `gap_start..=gap_end` is filled. A malformed gap, with
/// `gap_start > gap_end`, is not an error: it gets no scan, and so no
/// archives.
pub fn plan_rescan(gap_start: u32, gap_end: u32, stride: u32) -> (plan: Option<Rescan>)
    ensures
        plan == rescan_for(gap_start, gap_end, stride),
        gap_start > gap_end ==> plan is None,
{
    if gap_start > gap_end {
        return None;
    }
    match finer_stride(stride) {
        Some(step) => Some(Rescan { step, from: gap_start, to: gap_end }),
        None => None,
    }
}

/// Removes every archive that equals the one before it, so that an archive
/// which a scan met twice in a row is handed on once.
pub fn dedup(archives: Vec<BlockMaps>) -> (kept: Vec<BlockMaps>)
    ensures
        kept@ == deduped(archives@),
        no_repeats(kept@),
{
    let mut kept: Vec<BlockMaps> = Vec::new();
    let mut i: usize = 0;
    while i < archives.len()
        invariant
            i <= archives.len(),
            kept@ == deduped(archives@.take(i as int)),
        decreases archives.len() - i,
    {
        let archive: BlockMaps = archives[i];
        proof {
            assert(archives@.take(i + 1).drop_last() =~= archives@.take(i as int));
            assert(archives@.take(i + 1).last() == archive);
        }
        if kept.len() == 0 || kept[kept.len() - 1] != archive {
            kept.push(archive);
        }
        i += 1;
    }
    proof {
        assert(archives@.take(archives.len() as int) =~= archives@);
        lemma_deduped(archives@);
    }
    kept
}

} // verus!
