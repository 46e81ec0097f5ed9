//! Pairwise contiguity checking of an ordered stream of archives.

use crate::block_maps::BlockMaps;
use vstd::prelude::*;

verus! {

/// What the pipeline hands on when the next archive of the stream arrives.
#[derive(Clone, Copy, Debug, PartialEq, Eq, Structural)]
pub enum PipelineStep {
    /// The held archive is directly followed by the new one: hand it on.
    Forward { archive: BlockMaps },
    /// Sequence numbers are missing between the held archive and the new one.
    /// The archives found for `gap_start..=gap_end` are handed on first, in
    /// the order in which they were found, and the held archive after them.
    Heal { gap_start: u32, gap_end: u32, archive: BlockMaps },
}

/// The cursor of the contiguity check: the archive that arrived last and has
/// not been handed on yet.
///
/// An archive is handed on only once its successor has arrived, so the archive
/// held when the stream ends is never handed on.
pub struct ContiguityPipeline {
    left: BlockMaps,
}

impl ContiguityPipeline {
    /// The archive that is waiting for its successor.
    pub closed spec fn held(&self) -> BlockMaps {
        self.left
    }

    /// The step taken when `right` arrives while `left` is held.
    pub open spec fn step(left: BlockMaps, right: BlockMaps) -> PipelineStep {
        if BlockMaps::contiguous(left, right) {
            PipelineStep::Forward { archive: left }
        } else {
            let gap = BlockMaps::gap_between(left, right)->0;
            PipelineStep::Heal { gap_start: gap.0, gap_end: gap.1, archive: left }
        }
    }

    /// Starts the check with the first archive of the stream.
    pub fn new(first: BlockMaps) -> (pipeline: ContiguityPipeline)
        requires
            first@ is Some,
        ensures
            pipeline.held() == first,
    {
        ContiguityPipeline { left: first }
    }

    /// The archive that is waiting for its successor.
    pub fn pending(&self) -> (archive: BlockMaps)
        ensures
            archive == self.held(),
    {
        self.left
    }

    /// Takes the next archive of the stream. The archive held so far is handed
    /// on, behind a request to fill the gap after it if there is one, and
    /// `right` is held in its place.
    pub fn advance(&mut self, right: BlockMaps) -> (step: PipelineStep)
        requires
            old(self).held()@ is Some,
            right@ is Some,
        ensures
            step == ContiguityPipeline::step(old(self).held(), right),
            final(self).held() == right,
    {
        let left: BlockMaps = self.left;
        self.left = right;
        match BlockMaps::get_distance(&left, &right) {
            Some((gap_start, gap_end)) if !BlockMaps::is_contiguous(&left, &right) => {
                PipelineStep::Heal { gap_start, gap_end, archive: left }
            },
            _ => PipelineStep::Forward { archive: left },
        }
    }
}

} // verus!
