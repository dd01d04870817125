//! Reads with their quality symbols, and the FASTQ text that holds them.

use crate::bases::{decode_range, decoded, encoded, is_alphabet, Base, Bases};
use crate::debarcode::{debarcodes, trimmed};
use crate::error::{RecordError, SeqError};
use crate::text::{
    chars_of, lemma_line_end_bounds, line_end, spec_line_end, spec_trimmed_end, string_of,
    trimmed_end,
};
use vstd::prelude::*;
use vstd::string::{StrSliceExecFns, StringExecFns};

verus! {

/// One read: an identifier, its bases, and one quality symbol per base. The
/// quality symbols are carried along and sliced with the bases; they are
/// never interpreted.
#[derive(Debug, PartialEq, Eq, Hash)]
pub struct Sequence {
    pub header: String,
    pub bases: Bases,
    pub qual: String,
}

/// What a read holds, as plain sequences.
pub struct SequenceView {
    pub header: Seq<char>,
    pub bases: Seq<Base>,
    pub qual: Seq<char>,
}

impl View for Sequence {
    type V = SequenceView;

    open spec fn view(&self) -> SequenceView {
        SequenceView { header: self.header@, bases: self.bases@, qual: self.qual@ }
    }
}

impl SequenceView {
    /// Whether there is exactly one quality symbol per base.
    pub open spec fn wf(self) -> bool {
        self.qual.len() == self.bases.len()
    }
}

impl Clone for Sequence {
    fn clone(&self) -> (copy: Sequence)
        ensures
            copy@ == self@,
    {
        Sequence { header: self.header.clone(), bases: self.bases.clone(), qual: self.qual.clone() }
    }
}

/// The reads of a list, each as its view.
pub open spec fn views(reads: Seq<Sequence>) -> Seq<SequenceView> {
    Seq::new(reads.len(), |i: int| reads[i]@)
}

impl Sequence {
    /// Whether there is exactly one quality symbol per base.
    pub open spec fn wf(&self) -> bool {
        self@.wf()
    }

    /// Checks that the quality string is as long as the sequence.
    pub fn is_well_formed(&self) -> (well_formed: bool)
        ensures
            well_formed == self.wf(),
    {
        self.qual.as_str().unicode_len() == self.bases.len()
    }

    /// The first `n` bases with their quality symbols.
    pub fn head(&self, n: usize) -> (first: Sequence)
        requires
            self.wf(),
            n <= self@.bases.len(),
        ensures
            first@ == (SequenceView {
                header: self@.header,
                bases: self@.bases.take(n as int),
                qual: self@.qual.take(n as int),
            }),
            first.wf(),
    {
        Sequence {
            header: self.header.clone(),
            bases: self.bases.head(n),
            qual: self.qual.as_str().substring_char(0, n).to_owned(),
        }
    }

    /// The last `n` bases with their quality symbols.
    pub fn tail(&self, n: usize) -> (last: Sequence)
        requires
            self.wf(),
            n <= self@.bases.len(),
        ensures
            last@ == (SequenceView {
                header: self@.header,
                bases: self@.bases.skip(self@.bases.len() - n),
                qual: self@.qual.skip(self@.qual.len() - n),
            }),
            last.wf(),
    {
        let len: usize = self.bases.len();
        Sequence {
            header: self.header.clone(),
            bases: self.bases.tail(n),
            qual: self.qual.as_str().substring_char(len - n, len).to_owned(),
        }
    }

    /// The first `n` bases with their quality symbols, or `LengthMismatch`
    /// when the read is shorter than `n` or its quality string does not match
    /// its bases in length.
    pub fn checked_head(&self, n: usize) -> (first: Result<Sequence, SeqError>)
        ensures
            match first {
                Ok(part) => {
                    &&& self.wf()
                    &&& n <= self@.bases.len()
                    &&& part@ == (SequenceView {
                        header: self@.header,
                        bases: self@.bases.take(n as int),
                        qual: self@.qual.take(n as int),
                    })
                },
                Err(e) => e == SeqError::LengthMismatch && !(self.wf() && n <= self@.bases.len()),
            },
    {
        if self.is_well_formed() && n <= self.bases.len() {
            Ok(self.head(n))
        } else {
            Err(SeqError::LengthMismatch)
        }
    }

    /// The last `n` bases with their quality symbols, or `LengthMismatch`
    /// when the read is shorter than `n` or its quality string does not match
    /// its bases in length.
    pub fn checked_tail(&self, n: usize) -> (last: Result<Sequence, SeqError>)
        ensures
            match last {
                Ok(part) => {
                    &&& self.wf()
                    &&& n <= self@.bases.len()
                    &&& part@ == (SequenceView {
                        header: self@.header,
                        bases: self@.bases.skip(self@.bases.len() - n),
                        qual: self@.qual.skip(self@.qual.len() - n),
                    })
                },
                Err(e) => e == SeqError::LengthMismatch && !(self.wf() && n <= self@.bases.len()),
            },
    {
        if self.is_well_formed() && n <= self.bases.len() {
            Ok(self.tail(n))
        } else {
            Err(SeqError::LengthMismatch)
        }
    }

    /// Cuts both barcodes off the read, bases and quality symbols alike, when
    /// the bases debarcode within `diffs_allowed` mismatches at each end.
    /// Otherwise the read comes back untouched as the error.
    pub fn debarcode(
        self,
        forward_barcode: &Bases,
        reverse_barcode: &Bases,
        diffs_allowed: u16,
    ) -> (outcome: Result<Sequence, Sequence>)
        requires
            self.wf(),
        ensures
            match outcome {
                Ok(inner) => {
                    &&& debarcodes(
                        self@.bases,
                        forward_barcode@,
                        reverse_barcode@,
                        diffs_allowed as nat,
                    )
                    &&& inner@ == (SequenceView {
                        header: self@.header,
                        bases: trimmed(self@.bases, forward_barcode@, reverse_barcode@),
                        qual: self@.qual.subrange(
                            forward_barcode@.len() as int,
                            self@.qual.len() - reverse_barcode@.len(),
                        ),
                    })
                    &&& inner.wf()
                },
                Err(untouched) => {
                    &&& !debarcodes(
                        self@.bases,
                        forward_barcode@,
                        reverse_barcode@,
                        diffs_allowed as nat,
                    )
                    &&& untouched == self
                },
            },
    {
        let Sequence { header, bases, qual } = self;
        let len: usize = bases.len();
        match bases.debarcode(forward_barcode, reverse_barcode, diffs_allowed) {
            Ok(inner) => {
                let start: usize = forward_barcode.len();
                let end: usize = len - reverse_barcode.len();
                let qual = qual.as_str().substring_char(start, end).to_owned();
                Ok(Sequence { header, bases: inner, qual })
            },
            Err(untouched) => Err(Sequence { header, bases: untouched, qual }),
        }
    }
}

/// The three lines of a record that carry data, trailing white space
/// dropped, and where the record behind it starts.
pub struct RawRecord {
    pub header: Seq<char>,
    pub bases: Seq<char>,
    pub qual: Seq<char>,
    pub next: int,
}

/// The record whose header line starts at `at`. Four lines belong to it: the
/// header, whose first character is a marker and is dropped; the bases; a
/// separator line, which is skipped; the quality symbols. Lines that the
/// text no longer holds count as empty.
pub open spec fn record_at(text: Seq<char>, at: int) -> RawRecord {
    let bases_at = spec_line_end(text, at);
    let separator_at = spec_line_end(text, bases_at);
    let qual_at = spec_line_end(text, separator_at);
    let next = spec_line_end(text, qual_at);
    RawRecord {
        header: text.subrange(at + 1, spec_trimmed_end(text, at + 1, bases_at)),
        bases: text.subrange(bases_at, spec_trimmed_end(text, bases_at, separator_at)),
        qual: text.subrange(qual_at, spec_trimmed_end(text, qual_at, next)),
        next,
    }
}

/// The records of `text` from position `at` on, in order.
pub open spec fn records_from(text: Seq<char>, at: int) -> Seq<RawRecord>
    decreases text.len() - at,
    via records_from_decreases
{
    if 0 <= at < text.len() {
        seq![record_at(text, at)] + records_from(text, record_at(text, at).next)
    } else {
        Seq::empty()
    }
}

#[via_fn]
proof fn records_from_decreases(text: Seq<char>, at: int) {
    if 0 <= at < text.len() {
        lemma_record_bounds(text, at);
    }
}

/// A record ends behind its start, and within the text.
pub proof fn lemma_record_bounds(text: Seq<char>, at: int)
    requires
        0 <= at < text.len(),
    ensures
        at < spec_line_end(text, at) <= text.len(),
        at < record_at(text, at).next <= text.len(),
{
    let bases_at = spec_line_end(text, at);
    let separator_at = spec_line_end(text, bases_at);
    let qual_at = spec_line_end(text, separator_at);
    lemma_line_end_bounds(text, at);
    lemma_line_end_bounds(text, bases_at);
    lemma_line_end_bounds(text, separator_at);
    lemma_line_end_bounds(text, qual_at);
}

/// Why no read can be made of a record, if anything stands in the way: a
/// character outside the alphabet among its bases, or else a quality line of
/// another length than its bases.
pub open spec fn record_fault(raw: RawRecord) -> Option<SeqError> {
    if !is_alphabet(raw.bases) {
        Some(SeqError::InvalidSymbol)
    } else if raw.qual.len() != raw.bases.len() {
        Some(SeqError::LengthMismatch)
    } else {
        None
    }
}

/// The read that a faultless record stands for.
pub open spec fn read_of(raw: RawRecord) -> SequenceView {
    SequenceView { header: raw.header, bases: decoded(raw.bases), qual: raw.qual }
}

/// The text of one record: marker and header, bases, a bare separator line,
/// quality symbols, each line closed by a line feed.
pub open spec fn fastq_record(read: SequenceView) -> Seq<char> {
    seq!['@'] + read.header + seq!['\n'] + encoded(read.bases) + seq!['\n', '+', '\n'] + read.qual
        + seq!['\n']
}

/// The text of a list of reads: their records one after the other.
pub open spec fn fastq_text(reads: Seq<SequenceView>) -> Seq<char>
    decreases reads.len(),
{
    if reads.len() == 0 {
        Seq::empty()
    } else {
        fastq_text(reads.drop_last()) + fastq_record(reads.last())
    }
}

/// Reads the records of a FASTQ text. Each record is four lines: a header
/// line whose first character is dropped, the bases, a separator line that
/// is ignored, and the quality symbols; trailing white space of a line does
/// not count. Stops at the first record whose bases leave the alphabet or
/// whose quality line is not as long as its bases, and names that record.
pub fn read_fastq(fastq: &str) -> (outcome: Result<Vec<Sequence>, RecordError>)
    ensures
        match outcome {
            Ok(reads) => {
                &&& reads@.len() == records_from(fastq@, 0).len()
                &&& forall|i: int|
                    #![trigger reads@[i]]
                    0 <= i < reads@.len() ==> {
                        &&& record_fault(records_from(fastq@, 0)[i]) is None
                        &&& reads@[i]@ == read_of(records_from(fastq@, 0)[i])
                        &&& reads@[i].wf()
                    }
            },
            Err(e) => {
                &&& e.record < records_from(fastq@, 0).len()
                &&& record_fault(records_from(fastq@, 0)[e.record as int]) == Some(e.kind)
                &&& forall|i: int|
                    0 <= i < e.record ==> record_fault(#[trigger] records_from(fastq@, 0)[i])
                        is None
            },
        },
{
    let chars: Vec<char> = chars_of(fastq);
    let ghost text = fastq@;
    let ghost mut done: Seq<RawRecord> = Seq::empty();
    let mut reads: Vec<Sequence> = Vec::new();
    let mut at: usize = 0;
    while at < chars.len()
        invariant
            chars@ == text,
            text == fastq@,
            at <= text.len(),
            records_from(text, 0) == done + records_from(text, at as int),
            reads@.len() == done.len(),
            forall|i: int| 0 <= i < done.len() ==> record_fault(#[trigger] done[i]) is None,
            forall|i: int|
                #![trigger reads@[i]]
                0 <= i < reads@.len() ==> reads@[i]@ == read_of(done[i]) && reads@[i].wf(),
        decreases text.len() - at,
    {
        let ghost raw = record_at(text, at as int);
        proof {
            lemma_record_bounds(text, at as int);
            assert(records_from(text, 0) =~= done.push(raw) + records_from(text, raw.next));
        }
        let bases_at: usize = line_end(&chars, at);
        let separator_at: usize = line_end(&chars, bases_at);
        let qual_at: usize = line_end(&chars, separator_at);
        let next: usize = line_end(&chars, qual_at);
        let header_end: usize = trimmed_end(&chars, at + 1, bases_at);
        let bases_end: usize = trimmed_end(&chars, bases_at, separator_at);
        let qual_end: usize = trimmed_end(&chars, qual_at, next);
        assert(raw.header == text.subrange(at + 1, header_end as int));
        assert(raw.bases == text.subrange(bases_at as int, bases_end as int));
        assert(raw.qual == text.subrange(qual_at as int, qual_end as int));
        assert(raw.next == next);
        assert(records_from(text, 0)[done.len() as int] == raw);
        assert forall|i: int| 0 <= i < done.len() implies record_fault(
            #[trigger] records_from(text, 0)[i],
        ) is None by {
            assert(records_from(text, 0)[i] == done[i]);
        }
        let bases = match decode_range(&chars, bases_at, bases_end) {
            Some(bases) => bases,
            None => {
                return Err(RecordError { record: reads.len(), kind: SeqError::InvalidSymbol });
            },
        };
        if qual_end - qual_at != bases.len() {
            return Err(RecordError { record: reads.len(), kind: SeqError::LengthMismatch });
        }
        let read = Sequence {
            header: string_of(&chars, at + 1, header_end),
            bases,
            qual: string_of(&chars, qual_at, qual_end),
        };
        assert(read@ == read_of(raw));
        assert(record_fault(raw) is None);
        reads.push(read);
        proof {
            done = done.push(raw);
        }
        at = next;
    }
    assert(records_from(text, 0) =~= done);
    Ok(reads)
}

/// Appends the text of one record to `fastq`.
fn write_fastq_seq(fastq: &mut String, seq: &Sequence)
    ensures
        final(fastq)@ == old(fastq)@ + fastq_record(seq@),
{
    let bases: String = seq.bases.as_string();
    fastq.push('@');
    fastq.append(seq.header.as_str());
    fastq.push('\n');
    fastq.append(bases.as_str());
    fastq.push('\n');
    fastq.push('+');
    fastq.push('\n');
    fastq.append(seq.qual.as_str());
    fastq.push('\n');
    assert(fastq@ =~= old(fastq)@ + fastq_record(seq@));
}

/// Appends the records of `seqs` to `fastq`, in order.
pub fn write_fastq(fastq: &mut String, seqs: &Vec<Sequence>)
    ensures
        final(fastq)@ == old(fastq)@ + fastq_text(views(seqs@)),
{
    let mut i: usize = 0;
    while i < seqs.len()
        invariant
            i <= seqs@.len(),
            fastq@ == old(fastq)@ + fastq_text(views(seqs@).take(i as int)),
        decreases seqs@.len() - i,
    {
        write_fastq_seq(fastq, &seqs[i]);
        proof {
            let upto = views(seqs@).take(i + 1);
            assert(upto.drop_last() =~= views(seqs@).take(i as int));
            assert(upto.last() == seqs@[i as int]@);
            assert(fastq@ =~= old(fastq)@ + fastq_text(upto));
        }
        i += 1;
    }
    assert(views(seqs@).take(seqs@.len() as int) =~= views(seqs@));
}

/// Appends the records of `seqs` to `fastq`, in order, and uses the reads up.
pub fn write_fastq_owned(fastq: &mut String, seqs: Vec<Sequence>)
    ensures
        final(fastq)@ == old(fastq)@ + fastq_text(views(seqs@)),
{
    write_fastq(fastq, &seqs);
}

} // verus!
