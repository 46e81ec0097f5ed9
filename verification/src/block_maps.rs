//! The pipeline's picture of one downloaded archive.

use vstd::prelude::*;

verus! {

/// One parsed archive, reduced to what the download pipeline reads from it:
/// the run of masterchain sequence numbers that it covers.
///
/// An archive is either empty or covers every sequence number from its lowest
/// to its highest, both included. The view is `None` for an empty archive and
/// `Some((lowest, highest))` otherwise.
#[derive(Clone, Copy, Debug, PartialEq, Eq, Structural)]
pub struct BlockMaps {
    lowest: u32,
    highest: u32,
}

impl View for BlockMaps {
    type V = Option<(u32, u32)>;

    closed spec fn view(&self) -> Option<(u32, u32)> {
        if self.lowest <= self.highest {
            Some((self.lowest, self.highest))
        } else {
            None
        }
    }
}

impl BlockMaps {
    /// The lowest covered sequence number; meaningful for a non-empty archive.
    pub open spec fn first(self) -> int {
        match self@ {
            Some((lowest, _)) => lowest as int,
            None => 0,
        }
    }

    /// The highest covered sequence number; meaningful for a non-empty archive.
    pub open spec fn last(self) -> int {
        match self@ {
            Some((_, highest)) => highest as int,
            None => 0,
        }
    }

    /// The archive is not empty and `n` lies in the range that it covers.
    pub open spec fn covers(self, n: int) -> bool {
        self@ is Some && self.first() <= n <= self.last()
    }

    /// The archive covers at least one sequence number of the range
    /// `from..to`, where that range holds any.
    pub open spec fn overlaps(self, from: int, to: int) -> bool {
        self@ is Some && self.first() < to && from <= self.last()
    }

    /// Both archives are non-empty and `right` starts exactly one past the end
    /// of `left`.
    pub open spec fn contiguous(left: BlockMaps, right: BlockMaps) -> bool {
        left@ is Some && right@ is Some && right.first() == left.last() + 1
    }

    /// The interval strictly between two non-empty archives, from one past the
    /// end of `left` to one before the start of `right`, each end held within
    /// `u32`. `None` when either archive is empty.
    ///
    /// An end is only ever clamped when the interval holds nothing, see
    /// [`BlockMaps::lemma_gap_exact`].
    pub open spec fn gap_between(left: BlockMaps, right: BlockMaps) -> Option<(u32, u32)> {
        if left@ is Some && right@ is Some {
            Some(
                (
                    if left.last() < u32::MAX {
                        (left.last() + 1) as u32
                    } else {
                        u32::MAX
                    },
                    if right.first() > 0 {
                        (right.first() - 1) as u32
                    } else {
                        0u32
                    },
                ),
            )
        } else {
            None
        }
    }

    /// A non-empty archive's lowest sequence number is at most its highest.
    pub proof fn lemma_ordered(self)
        requires
            self@ is Some,
        ensures
            0 <= self.first() <= self.last() <= u32::MAX,
            self.covers(self.first()),
            self.covers(self.last()),
    {
    }

    /// An archive overlaps a range exactly if it covers one of the range's
    /// sequence numbers.
    pub proof fn lemma_overlaps(self, from: int, to: int)
        ensures
            self.overlaps(from, to) && from < to <==> exists|n: int|
                from <= n < to && #[trigger] self.covers(n),
    {
        if self.overlaps(from, to) && from < to {
            let n = if from <= self.first() {
                self.first()
            } else {
                from
            };
            assert(from <= n < to && self.covers(n));
        }
    }

    /// The interval between two archives holds a sequence number exactly when
    /// `left` ends at least two before `right` starts, and then its ends are
    /// the exact neighbours of the two archives.
    pub proof fn lemma_gap_exact(left: BlockMaps, right: BlockMaps)
        requires
            left@ is Some,
            right@ is Some,
        ensures
            ({
                let gap = BlockMaps::gap_between(left, right)->0;
                &&& gap.0 <= gap.1 <==> left.last() + 1 <= right.first() - 1
                &&& gap.0 <= gap.1 ==> gap.0 == left.last() + 1 && gap.1 == right.first() - 1
            }),
    {
    }

    /// The archive that covers nothing.
    pub fn empty() -> (archive: BlockMaps)
        ensures
            archive@ is None,
    {
        BlockMaps { lowest: 1, highest: 0 }
    }

    /// The archive that covers `lowest..=highest`, or `None` if that range
    /// holds no sequence number.
    pub fn new(lowest: u32, highest: u32) -> (archive: Option<BlockMaps>)
        ensures
            lowest <= highest ==> archive is Some && archive->0@ == Some((lowest, highest)),
            lowest > highest ==> archive is None,
    {
        if lowest <= highest {
            Some(BlockMaps { lowest, highest })
        } else {
            None
        }
    }

    /// Whether the archive covers nothing.
    pub fn is_empty(&self) -> (empty: bool)
        ensures
            empty == (self@ is None),
    {
        self.lowest > self.highest
    }

    /// The lowest covered sequence number, if there is one.
    pub fn lowest_id(&self) -> (id: Option<u32>)
        ensures
            id is Some == self@ is Some,
            id is Some ==> id->0 == self.first(),
    {
        if self.lowest <= self.highest {
            Some(self.lowest)
        } else {
            None
        }
    }

    /// The highest covered sequence number, if there is one.
    pub fn highest_id(&self) -> (id: Option<u32>)
        ensures
            id is Some == self@ is Some,
            id is Some ==> id->0 == self.last(),
    {
        if self.lowest <= self.highest {
            Some(self.highest)
        } else {
            None
        }
    }

    /// Whether this archive answers a request for `mc_seq_no`: it is not empty
    /// and its range includes that sequence number.
    pub fn is_valid(&self, mc_seq_no: u32) -> (valid: bool)
        ensures
            valid == self.covers(mc_seq_no as int),
    {
        self.lowest <= mc_seq_no && mc_seq_no <= self.highest
    }

    /// Whether `right` starts exactly one past the end of `left`. False when
    /// either archive is empty.
    pub fn is_contiguous(left: &BlockMaps, right: &BlockMaps) -> (yes: bool)
        ensures
            yes == BlockMaps::contiguous(*left, *right),
    {
        !left.is_empty() && !right.is_empty() && left.highest < u32::MAX && right.lowest
            == left.highest + 1
    }

    /// The interval strictly between `left` and `right`, as
    /// `(gap_start, gap_end)` with both ends included. Fails with `None` when
    /// either archive is empty. Where the archives touch or overlap the
    /// result has `gap_start > gap_end`.
    pub fn get_distance(left: &BlockMaps, right: &BlockMaps) -> (gap: Option<(u32, u32)>)
        ensures
            gap == BlockMaps::gap_between(*left, *right),
    {
        if left.is_empty() || right.is_empty() {
            return None;
        }
        let gap_start: u32 = if left.highest < u32::MAX {
            left.highest + 1
        } else {
            u32::MAX
        };
        let gap_end: u32 = if right.lowest > 0 {
            right.lowest - 1
        } else {
            0
        };
        Some((gap_start, gap_end))
    }
}

} // verus!
