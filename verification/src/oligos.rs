//! The barcode table and the sorting of reads by the oligo whose barcodes
//! they carry.

use crate::bases::{decode_range, decoded, is_alphabet, Base, Bases};
use crate::debarcode::{debarcodes, trimmed};
use crate::error::{RecordError, SeqError};
use crate::fastq::{views, Sequence, SequenceView};
use crate::text::{
    chars_of, field_end, lemma_line_end_bounds, line_end, spec_field_end, spec_line_end,
    spec_trimmed_end, string_of, trimmed_end,
};
use vstd::prelude::*;
use vstd::string::StringExecFns;

verus! {

/// A named pair of barcodes: one row of the barcode table.
#[derive(Debug, PartialEq, Eq, Hash)]
pub struct Oligo {
    pub name: String,
    pub forward: Bases,
    pub reverse: Bases,
}

/// A row of the barcode table as plain values.
pub struct OligoView {
    pub name: Seq<char>,
    pub forward: Seq<Base>,
    pub reverse: Seq<Base>,
}

impl View for Oligo {
    type V = OligoView;

    open spec fn view(&self) -> OligoView {
        OligoView { name: self.name@, forward: self.forward@, reverse: self.reverse@ }
    }
}

/// One line of the table, cut at its tabs: whether it has exactly three
/// columns, what the first three hold once trailing white space is dropped,
/// and where the next line starts.
pub struct RawRow {
    pub three_columns: bool,
    pub forward: Seq<char>,
    pub reverse: Seq<char>,
    pub name: Seq<char>,
    pub next: int,
}

/// The row whose line starts at `at`. Its columns are forward barcode,
/// reverse barcode and name, parted by tabs.
pub open spec fn row_at(text: Seq<char>, at: int) -> RawRow {
    let end = spec_line_end(text, at);
    let first = spec_field_end(text, at, end, '\t');
    let second = spec_field_end(text, first + 1, end, '\t');
    let third = spec_field_end(text, second + 1, end, '\t');
    RawRow {
        three_columns: first < end && second < end && third == end,
        forward: text.subrange(at, spec_trimmed_end(text, at, first)),
        reverse: text.subrange(first + 1, spec_trimmed_end(text, first + 1, second)),
        name: text.subrange(second + 1, spec_trimmed_end(text, second + 1, third)),
        next: end,
    }
}

/// The rows of `text` from position `at` on, one per line.
pub open spec fn rows_from(text: Seq<char>, at: int) -> Seq<RawRow>
    decreases text.len() - at,
    via rows_from_decreases
{
    if 0 <= at < text.len() {
        seq![row_at(text, at)] + rows_from(text, row_at(text, at).next)
    } else {
        Seq::empty()
    }
}

#[via_fn]
proof fn rows_from_decreases(text: Seq<char>, at: int) {
    if 0 <= at < text.len() {
        lemma_line_end_bounds(text, at);
    }
}

/// What is wrong with a row, if anything: another number of columns than
/// three, or else a barcode that leaves the alphabet.
pub open spec fn row_fault(raw: RawRow) -> Option<SeqError> {
    if !raw.three_columns {
        Some(SeqError::MalformedBarcodeTable)
    } else if !is_alphabet(raw.forward) || !is_alphabet(raw.reverse) {
        Some(SeqError::InvalidSymbol)
    } else {
        None
    }
}

/// The oligo that a faultless row stands for.
pub open spec fn oligo_of(raw: RawRow) -> OligoView {
    OligoView { name: raw.name, forward: decoded(raw.forward), reverse: decoded(raw.reverse) }
}

/// Reads a barcode table: one oligo per line, as forward barcode, reverse
/// barcode and name with tabs between them. Trailing white space of a column
/// does not count. Stops at the first line that does not have exactly three
/// columns or whose barcodes leave the alphabet, and names that line.
pub fn parse_oligos(table: &str) -> (outcome: Result<Vec<Oligo>, RecordError>)
    ensures
        match outcome {
            Ok(oligos) => {
                &&& oligos@.len() == rows_from(table@, 0).len()
                &&& forall|i: int|
                    #![trigger oligos@[i]]
                    0 <= i < oligos@.len() ==> {
                        &&& row_fault(rows_from(table@, 0)[i]) is None
                        &&& oligos@[i]@ == oligo_of(rows_from(table@, 0)[i])
                    }
            },
            Err(e) => {
                &&& e.record < rows_from(table@, 0).len()
                &&& row_fault(rows_from(table@, 0)[e.record as int]) == Some(e.kind)
                &&& forall|i: int|
                    0 <= i < e.record ==> row_fault(#[trigger] rows_from(table@, 0)[i]) is None
            },
        },
{
    let chars: Vec<char> = chars_of(table);
    let ghost text = table@;
    let ghost mut done: Seq<RawRow> = Seq::empty();
    let mut oligos: Vec<Oligo> = Vec::new();
    let mut at: usize = 0;
    while at < chars.len()
        invariant
            chars@ == text,
            text == table@,
            at <= text.len(),
            rows_from(text, 0) == done + rows_from(text, at as int),
            oligos@.len() == done.len(),
            forall|i: int| 0 <= i < done.len() ==> row_fault(#[trigger] done[i]) is None,
            forall|i: int|
                #![trigger oligos@[i]]
                0 <= i < oligos@.len() ==> oligos@[i]@ == oligo_of(done[i]),
        decreases text.len() - at,
    {
        let ghost raw = row_at(text, at as int);
        proof {
            lemma_line_end_bounds(text, at as int);
            assert(rows_from(text, 0) =~= done.push(raw) + rows_from(text, raw.next));
            assert(rows_from(text, 0)[done.len() as int] == raw);
            assert forall|i: int| 0 <= i < done.len() implies row_fault(
                #[trigger] rows_from(text, 0)[i],
            ) is None by {
                assert(rows_from(text, 0)[i] == done[i]);
            }
        }
        let end: usize = line_end(&chars, at);
        let first: usize = field_end(&chars, at, end, '\t');
        if first >= end {
            return Err(
                RecordError { record: oligos.len(), kind: SeqError::MalformedBarcodeTable },
            );
        }
        let second: usize = field_end(&chars, first + 1, end, '\t');
        if second >= end {
            return Err(
                RecordError { record: oligos.len(), kind: SeqError::MalformedBarcodeTable },
            );
        }
        let third: usize = field_end(&chars, second + 1, end, '\t');
        if third != end {
            return Err(
                RecordError { record: oligos.len(), kind: SeqError::MalformedBarcodeTable },
            );
        }
        let forward_end: usize = trimmed_end(&chars, at, first);
        let reverse_end: usize = trimmed_end(&chars, first + 1, second);
        let name_end: usize = trimmed_end(&chars, second + 1, third);
        let forward = match decode_range(&chars, at, forward_end) {
            Some(forward) => forward,
            None => {
                return Err(RecordError { record: oligos.len(), kind: SeqError::InvalidSymbol });
            },
        };
        let reverse = match decode_range(&chars, first + 1, reverse_end) {
            Some(reverse) => reverse,
            None => {
                return Err(RecordError { record: oligos.len(), kind: SeqError::InvalidSymbol });
            },
        };
        let oligo = Oligo { name: string_of(&chars, second + 1, name_end), forward, reverse };
        assert(oligo@ == oligo_of(raw));
        assert(row_fault(raw) is None);
        oligos.push(oligo);
        proof {
            done = done.push(raw);
        }
        at = end;
    }
    assert(rows_from(text, 0) =~= done);
    Ok(oligos)
}

/// The place in the table of the first oligo, from `from` on, whose barcodes
/// the read carries within the budget.
pub open spec fn first_match(
    read: Seq<Base>,
    oligos: Seq<OligoView>,
    budget: nat,
    from: int,
) -> Option<int>
    decreases oligos.len() - from,
{
    if from < 0 || from >= oligos.len() {
        None
    } else if debarcodes(read, oligos[from].forward, oligos[from].reverse, budget) {
        Some(from)
    } else {
        first_match(read, oligos, budget, from + 1)
    }
}

/// The read with the barcodes of `oligo` cut away and the oligo's name added
/// to its header behind a blank.
pub open spec fn labelled(read: SequenceView, oligo: OligoView) -> SequenceView {
    SequenceView {
        header: read.header + seq![' '] + oligo.name,
        bases: trimmed(read.bases, oligo.forward, oligo.reverse),
        qual: read.qual.subrange(oligo.forward.len() as int, read.qual.len() - oligo.reverse.len()),
    }
}

/// The oligos of a list, each as its view.
pub open spec fn oligo_views(oligos: Seq<Oligo>) -> Seq<OligoView> {
    Seq::new(oligos.len(), |i: int| oligos[i]@)
}

/// Tries the oligos in table order and debarcodes the read with the first
/// whose barcodes it carries; the read then bears that oligo's name in its
/// header. Where no oligo fits, the read comes back untouched as the error.
pub fn assign(read: Sequence, oligos: &Vec<Oligo>, diffs_allowed: u16) -> (outcome: Result<
    (usize, Sequence),
    Sequence,
>)
    requires
        read.wf(),
    ensures
        match outcome {
            Ok((which, inner)) => {
                &&& first_match(read@.bases, oligo_views(oligos@), diffs_allowed as nat, 0) == Some(
                    which as int,
                )
                &&& which < oligos@.len()
                &&& inner@ == labelled(read@, oligos@[which as int]@)
                &&& inner.wf()
            },
            Err(untouched) => {
                &&& first_match(read@.bases, oligo_views(oligos@), diffs_allowed as nat, 0) is None
                &&& untouched == read
            },
        },
{
    let ghost table = oligo_views(oligos@);
    let ghost budget = diffs_allowed as nat;
    let mut current: Sequence = read;
    let mut which: usize = 0;
    while which < oligos.len()
        invariant
            which <= oligos@.len(),
            current == read,
            read.wf(),
            table == oligo_views(oligos@),
            budget == diffs_allowed as nat,
            first_match(read@.bases, table, budget, 0) == first_match(
                read@.bases,
                table,
                budget,
                which as int,
            ),
        decreases oligos@.len() - which,
    {
        assert(table[which as int] == oligos@[which as int]@);
        match current.debarcode(&oligos[which].forward, &oligos[which].reverse, diffs_allowed) {
            Ok(inner) => {
                let Sequence { header, bases, qual } = inner;
                let mut header: String = header;
                header.push(' ');
                header.append(oligos[which].name.as_str());
                let labelled_read = Sequence { header, bases, qual };
                assert(labelled_read@.header =~= read@.header + seq![' ']
                    + oligos@[which as int]@.name);
                return Ok((which, labelled_read));
            },
            Err(untouched) => {
                current = untouched;
            },
        }
        which += 1;
    }
    Err(current)
}

/// The reads of a run after demultiplexing: those that an oligo claimed,
/// each trimmed and labelled and paired with the place of its oligo in the
/// table, and those that no oligo claimed, untouched. Both keep the order of
/// the input.
#[derive(Debug, PartialEq, Eq)]
pub struct Demultiplexed {
    pub assigned: Vec<(usize, Sequence)>,
    pub failed: Vec<Sequence>,
}

/// The claimed reads among `reads`, in order, each with the place of the
/// first oligo that fits it, trimmed and labelled.
pub open spec fn assigned_of(reads: Seq<SequenceView>, oligos: Seq<OligoView>, budget: nat) -> Seq<
    (int, SequenceView),
>
    decreases reads.len(),
{
    if reads.len() == 0 {
        Seq::empty()
    } else {
        let before = assigned_of(reads.drop_last(), oligos, budget);
        match first_match(reads.last().bases, oligos, budget, 0) {
            Some(which) => before.push((which, labelled(reads.last(), oligos[which]))),
            None => before,
        }
    }
}

/// The reads among `reads` that no oligo fits, in order.
pub open spec fn failed_of(reads: Seq<SequenceView>, oligos: Seq<OligoView>, budget: nat) -> Seq<
    SequenceView,
>
    decreases reads.len(),
{
    if reads.len() == 0 {
        Seq::empty()
    } else {
        let before = failed_of(reads.drop_last(), oligos, budget);
        match first_match(reads.last().bases, oligos, budget, 0) {
            Some(_) => before,
            None => before.push(reads.last()),
        }
    }
}

/// Claimed reads as plain values.
pub open spec fn assigned_views(assigned: Seq<(usize, Sequence)>) -> Seq<(int, SequenceView)> {
    Seq::new(assigned.len(), |i: int| (assigned[i].0 as int, assigned[i].1@))
}

/// Sorts the reads of a run by oligo: every read goes to the first oligo of
/// the table whose barcodes it carries within the budget, or to the failed
/// reads where there is none.
pub fn demultiplex(reads: &Vec<Sequence>, oligos: &Vec<Oligo>, diffs_allowed: u16) -> (sorted:
    Demultiplexed)
    requires
        forall|i: int| 0 <= i < reads@.len() ==> (#[trigger] reads@[i]).wf(),
    ensures
        assigned_views(sorted.assigned@) == assigned_of(
            views(reads@),
            oligo_views(oligos@),
            diffs_allowed as nat,
        ),
        views(sorted.failed@) == failed_of(
            views(reads@),
            oligo_views(oligos@),
            diffs_allowed as nat,
        ),
        forall|i: int| 0 <= i < sorted.assigned@.len() ==> (#[trigger] sorted.assigned@[i]).1.wf(),
        forall|i: int| 0 <= i < sorted.failed@.len() ==> (#[trigger] sorted.failed@[i]).wf(),
{
    let ghost all = views(reads@);
    let ghost table = oligo_views(oligos@);
    let ghost budget = diffs_allowed as nat;
    let mut assigned: Vec<(usize, Sequence)> = Vec::new();
    let mut failed: Vec<Sequence> = Vec::new();
    let mut i: usize = 0;
    assert(all.take(0) =~= Seq::<SequenceView>::empty());
    assert(assigned_views(assigned@) =~= assigned_of(all.take(0), table, budget));
    assert(views(failed@) =~= failed_of(all.take(0), table, budget));
    while i < reads.len()
        invariant
            i <= reads@.len(),
            all == views(reads@),
            table == oligo_views(oligos@),
            budget == diffs_allowed as nat,
            forall|k: int| 0 <= k < reads@.len() ==> (#[trigger] reads@[k]).wf(),
            assigned_views(assigned@) == assigned_of(all.take(i as int), table, budget),
            views(failed@) == failed_of(all.take(i as int), table, budget),
            forall|k: int| 0 <= k < assigned@.len() ==> (#[trigger] assigned@[k]).1.wf(),
            forall|k: int| 0 <= k < failed@.len() ==> (#[trigger] failed@[k]).wf(),
        decreases reads@.len() - i,
    {
        let ghost before_assigned = assigned_views(assigned@);
        let ghost before_failed = views(failed@);
        assert(all.take(i + 1).drop_last() =~= all.take(i as int));
        assert(all.take(i + 1).last() == reads@[i as int]@);
        assert(reads@[i as int].wf());
        let read: Sequence = reads[i].clone();
        match assign(read, oligos, diffs_allowed) {
            Ok((which, inner)) => {
                assert(table[which as int] == oligos@[which as int]@);
                assigned.push((which, inner));
                assert(assigned_views(assigned@) =~= before_assigned.push((which as int, inner@)));
            },
            Err(untouched) => {
                failed.push(untouched);
                assert(views(failed@) =~= before_failed.push(untouched@));
            },
        }
        i += 1;
    }
    assert(all.take(reads@.len() as int) =~= all);
    Demultiplexed { assigned, failed }
}

} // verus!
