//! Joining the two reads of a pair: at their overlap, or end to end with a
//! spacer.

use crate::bases::{reverse_complemented, Base, Bases};
use crate::fastq::{Sequence, SequenceView};
use crate::find::{first_occurrence, lemma_first_occurrence_occurs, Find};
use vstd::prelude::*;
use vstd::string::{StrSliceExecFns, StringExecFns};

verus! {

/// What became of a pair of reads: one merged read, or the two reads as they
/// came in, forward first.
#[derive(Debug, PartialEq, Eq)]
pub enum ProcessedSequence {
    Joined(Sequence),
    Unjoined(Sequence, Sequence),
}

impl Clone for ProcessedSequence {
    fn clone(&self) -> (copy: ProcessedSequence)
        ensures
            match (*self, copy) {
                (ProcessedSequence::Joined(a), ProcessedSequence::Joined(b)) => a@ == b@,
                (ProcessedSequence::Unjoined(a, c), ProcessedSequence::Unjoined(b, d)) => a@ == b@
                    && c@ == d@,
                _ => false,
            },
    {
        match self {
            ProcessedSequence::Joined(merged) => ProcessedSequence::Joined(merged.clone()),
            ProcessedSequence::Unjoined(forward, reverse) => ProcessedSequence::Unjoined(
                forward.clone(),
                reverse.clone(),
            ),
        }
    }
}

impl ProcessedSequence {
    /// The merged read of a joined pair.
    pub fn map_joined(self) -> (merged: Option<Sequence>)
        ensures
            merged == match self {
                ProcessedSequence::Joined(sequence) => Some(sequence),
                ProcessedSequence::Unjoined(_, _) => None,
            },
    {
        if let ProcessedSequence::Joined(sequence) = self {
            Some(sequence)
        } else {
            None
        }
    }

    /// The two reads of an unjoined pair, forward first.
    pub fn map_unjoined(self) -> (pair: Option<(Sequence, Sequence)>)
        ensures
            pair == match self {
                ProcessedSequence::Joined(_) => None,
                ProcessedSequence::Unjoined(forward, reverse) => Some((forward, reverse)),
            },
    {
        if let ProcessedSequence::Unjoined(forward, reverse) = self {
            Some((forward, reverse))
        } else {
            None
        }
    }
}

/// The number of `N` bases that the plain concatenation puts between the
/// two reads unless told otherwise.
pub const SPACER_LENGTH: usize = 10;

/// The search key for the overlap: the first `anchor_length` bases of the
/// reverse read (all of it, if it is shorter), reverse-complemented. It is
/// what the end of the forward read looks like where the two reads overlap.
pub open spec fn anchor_of(reverse: Seq<Base>, anchor_length: nat) -> Seq<Base> {
    if anchor_length <= reverse.len() {
        reverse_complemented(reverse.take(anchor_length as int))
    } else {
        reverse_complemented(reverse)
    }
}

/// The forward read cut off behind position `merge_point`.
pub open spec fn merged_at(forward: SequenceView, merge_point: int) -> SequenceView {
    SequenceView {
        header: forward.header,
        bases: forward.bases.take(merge_point),
        qual: forward.qual.take(merge_point),
    }
}

/// Both reads end to end, `spacer` unknown bases between them; the quality
/// string is bridged with as many `N` symbols.
pub open spec fn spaced(forward: SequenceView, reverse: SequenceView, spacer: nat) -> SequenceView {
    SequenceView {
        header: forward.header,
        bases: forward.bases + Seq::new(spacer, |i: int| Base::N) + reverse.bases,
        qual: forward.qual + Seq::new(spacer, |i: int| 'N') + reverse.qual,
    }
}

/// Joins a pair of reads at their overlap. The anchor of the reverse read is
/// searched for in the forward read from the left. Where it is found, the
/// forward read is kept up to the end of that first occurrence and the
/// reverse read is dropped. Where it is not, both reads come back as they
/// are.
pub fn join(forward: Sequence, reverse: Sequence, anchor_length: usize) -> (outcome:
    ProcessedSequence)
    requires
        forward.wf(),
    ensures
        match first_occurrence(forward@.bases, anchor_of(reverse@.bases, anchor_length as nat)) {
            Some(at) => {
                &&& outcome matches ProcessedSequence::Joined(merged)
                &&& merged@ == merged_at(
                    forward@,
                    at + anchor_of(reverse@.bases, anchor_length as nat).len(),
                )
                &&& merged.wf()
            },
            None => outcome == ProcessedSequence::Unjoined(forward, reverse),
        },
{
    let taken: usize = if anchor_length <= reverse.bases.len() {
        anchor_length
    } else {
        reverse.bases.len()
    };
    let mut anchor: Bases = reverse.bases.head(taken);
    anchor.reverse_complement();
    assert(reverse@.bases.take(reverse@.bases.len() as int) =~= reverse@.bases);
    assert(anchor@ == anchor_of(reverse@.bases, anchor_length as nat));
    match forward.bases.find(&anchor) {
        Some(at) => {
            proof {
                lemma_first_occurrence_occurs(forward@.bases, anchor@);
                assert(at + anchor@.len() <= forward.bases.bases.len());
            }
            let merged_len: usize = at + anchor.len();
            let Sequence { header, bases, qual } = forward;
            ProcessedSequence::Joined(
                Sequence {
                    header,
                    bases: bases.head(merged_len),
                    qual: qual.as_str().substring_char(0, merged_len).to_owned(),
                },
            )
        },
        None => ProcessedSequence::Unjoined(forward, reverse),
    }
}

/// Joins a pair of reads without looking for an overlap: forward read,
/// `spacer` bases `N`, reverse read. The header is the forward read's.
pub fn join_with_spacer(forward: Sequence, reverse: &Sequence, spacer: usize) -> (merged:
    Sequence)
    ensures
        merged@ == spaced(forward@, reverse@, spacer as nat),
        forward.wf() && reverse.wf() ==> merged.wf(),
{
    let Sequence { header, bases, qual } = forward;
    let mut gap: Vec<Base> = Vec::new();
    let mut qual: String = qual;
    let mut i: usize = 0;
    while i < spacer
        invariant
            i <= spacer,
            gap@ == Seq::new(i as nat, |k: int| Base::N),
            qual@ == forward@.qual + Seq::new(i as nat, |k: int| 'N'),
        decreases spacer - i,
    {
        gap.push(Base::N);
        qual.push('N');
        assert(gap@ =~= Seq::new((i + 1) as nat, |k: int| Base::N));
        assert(qual@ =~= forward@.qual + Seq::new((i + 1) as nat, |k: int| 'N'));
        i += 1;
    }
    qual.append(reverse.qual.as_str());
    let bases: Bases = bases.concat(&Bases::new(gap)).concat(&reverse.bases);
    Sequence { header, bases, qual }
}

} // verus!
