//! Judging the attempts to fetch the archive of one sequence number.

use crate::block_maps::BlockMaps;
use vstd::prelude::*;

verus! {

/// How one attempt to fetch an archive ended.
#[derive(Clone, Copy, Debug, PartialEq, Eq, Structural)]
pub enum FetchOutcome {
    /// The request failed on the way.
    TransportError,
    /// The peers had no archive for the sequence number.
    NoArchive,
    /// Bytes arrived, and they are no archive.
    ParseError,
    /// Bytes arrived and were parsed into this archive.
    Archive(BlockMaps),
}

impl FetchOutcome {
    /// The attempt brought bytes back, readable or not.
    pub open spec fn has_bytes(self) -> bool {
        self is ParseError || self is Archive
    }

    /// The archive that a fetch of `mc_seq_no` ends with on this outcome: the
    /// parsed archive if it covers `mc_seq_no`. On every other outcome the
    /// attempt is thrown away and the fetch goes on.
    pub open spec fn verdict(self, mc_seq_no: u32) -> Option<BlockMaps> {
        match self {
            FetchOutcome::Archive(archive) => if archive.covers(mc_seq_no as int) {
                Some(archive)
            } else {
                None
            },
            _ => None,
        }
    }

    /// Whether the attempt brought bytes back. If not, the request is made
    /// again.
    pub fn delivers_bytes(&self) -> (bytes: bool)
        ensures
            bytes == self.has_bytes(),
    {
        match self {
            FetchOutcome::ParseError => true,
            FetchOutcome::Archive(_) => true,
            _ => false,
        }
    }

    /// Judges the attempt for a fetch of `mc_seq_no`: the archive to return, or
    /// `None` to try again.
    pub fn accepted_for(&self, mc_seq_no: u32) -> (archive: Option<BlockMaps>)
        ensures
            archive == self.verdict(mc_seq_no),
            archive matches Some(a) ==> a.covers(mc_seq_no as int) && a@ is Some,
    {
        match self {
            FetchOutcome::Archive(archive) => if archive.is_valid(mc_seq_no) {
                Some(*archive)
            } else {
                None
            },
            _ => None,
        }
    }
}

/// The attempt at position `at` is the first of `outcomes` that brings bytes,
/// counting from position `start`.
pub open spec fn delivers_at(outcomes: Seq<FetchOutcome>, start: int, at: int) -> bool {
    &&& start <= at < outcomes.len()
    &&& outcomes[at].has_bytes()
    &&& forall|j: int| start <= j < at ==> !(#[trigger] outcomes[j]).has_bytes()
}

/// The attempt at position `at` is the first of `outcomes` that a fetch of
/// `mc_seq_no` accepts.
pub open spec fn succeeds_at(outcomes: Seq<FetchOutcome>, mc_seq_no: u32, at: int) -> bool {
    &&& 0 <= at < outcomes.len()
    &&& outcomes[at].verdict(mc_seq_no) is Some
    &&& forall|j: int| 0 <= j < at ==> (#[trigger] outcomes[j]).verdict(mc_seq_no) is None
}

/// The archive that a fetch of `mc_seq_no` returns when its attempts end as
/// `outcomes` tells, one after the other: that of the first attempt which it
/// accepts. `None` if it accepts none of them, and so is still trying.
pub open spec fn fetched(outcomes: Seq<FetchOutcome>, mc_seq_no: u32) -> Option<BlockMaps> {
    if exists|at: int| succeeds_at(outcomes, mc_seq_no, at) {
        outcomes[choose|at: int| succeeds_at(outcomes, mc_seq_no, at)].verdict(mc_seq_no)
    } else {
        None
    }
}

/// Only one attempt can be the first that is accepted, so `fetched` is the
/// archive of any attempt that is.
pub proof fn lemma_fetched(outcomes: Seq<FetchOutcome>, mc_seq_no: u32, at: int)
    requires
        succeeds_at(outcomes, mc_seq_no, at),
    ensures
        fetched(outcomes, mc_seq_no) == outcomes[at].verdict(mc_seq_no),
        fetched(outcomes, mc_seq_no) matches Some(archive) && archive.covers(mc_seq_no as int),
{
    let chosen = choose|at: int| succeeds_at(outcomes, mc_seq_no, at);
    assert(succeeds_at(outcomes, mc_seq_no, chosen));
    if chosen < at {
        assert(outcomes[chosen].verdict(mc_seq_no) is None);
    }
    if at < chosen {
        assert(outcomes[at].verdict(mc_seq_no) is None);
    }
}

} // verus!
