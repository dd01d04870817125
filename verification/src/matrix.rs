//! The matrix of pileups, one cell per declared locus and sample.

use crate::consensus::{call_consensus, is_consensus, pile, variant_views, Variant};
use crate::error::SeqError;
use crate::fastq::Sequence;
use crate::text::{chars_of, nth_field, spec_nth_field, spec_trimmed_end, string_of, trimmed_end};
use vstd::prelude::*;

verus! {

/// The pileups of a run: one cell of reads for every declared locus and
/// sample. Loci are the rows, samples the columns, both in the order in
/// which they were declared. A name that was declared twice stands for the
/// place of its first declaration.
#[derive(Debug, PartialEq, Eq)]
pub struct BucketMatrix {
    loci: Vec<String>,
    samples: Vec<String>,
    cells: Vec<Vec<Vec<Sequence>>>,
}

/// The first place at which `names` holds `name`, or `None`.
pub open spec fn index_of_name(names: Seq<String>, name: Seq<char>) -> Option<int>
    decreases names.len(),
{
    if names.len() == 0 {
        None
    } else {
        match index_of_name(names.drop_last(), name) {
            Some(at) => Some(at),
            None => if names.last()@ == name {
                Some(names.len() - 1)
            } else {
                None
            },
        }
    }
}

/// A name that is found stands at the place found, and nowhere before it; a
/// name that is not found stands nowhere.
pub proof fn lemma_index_of_name(names: Seq<String>, name: Seq<char>)
    ensures
        match index_of_name(names, name) {
            Some(at) => {
                &&& 0 <= at < names.len()
                &&& names[at]@ == name
                &&& forall|before: int| 0 <= before < at ==> (#[trigger] names[before])@ != name
            },
            None => forall|at: int| 0 <= at < names.len() ==> (#[trigger] names[at])@ != name,
        },
    decreases names.len(),
{
    if names.len() > 0 {
        lemma_index_of_name(names.drop_last(), name);
        assert forall|at: int| 0 <= at < names.len() - 1 implies names[at]
            == names.drop_last()[at] by {}
    }
}

/// The first place at which `names` holds `name`.
fn find_name(names: &Vec<String>, name: &String) -> (found: Option<usize>)
    ensures
        match found {
            Some(at) => index_of_name(names@, name@) == Some(at as int) && at < names@.len(),
            None => index_of_name(names@, name@) is None,
        },
{
    let mut at: usize = 0;
    assert(names@.take(0) =~= Seq::<String>::empty());
    while at < names.len()
        invariant
            at <= names@.len(),
            index_of_name(names@.take(at as int), name@) is None,
        decreases names@.len() - at,
    {
        assert(names@.take(at + 1).drop_last() =~= names@.take(at as int));
        if names[at] == *name {
            proof {
                lemma_found_stays(names@, name@, at + 1);
            }
            return Some(at);
        }
        at += 1;
    }
    assert(names@.take(names@.len() as int) =~= names@);
    None
}

/// What is found among the first names is found among all of them.
proof fn lemma_found_stays(names: Seq<String>, name: Seq<char>, upto: int)
    requires
        0 <= upto <= names.len(),
        index_of_name(names.take(upto), name) is Some,
    ensures
        index_of_name(names, name) == index_of_name(names.take(upto), name),
    decreases names.len() - upto,
{
    if upto < names.len() {
        assert(names.take(upto + 1).drop_last() =~= names.take(upto));
        lemma_found_stays(names, name, upto + 1);
    } else {
        assert(names.take(upto) =~= names);
    }
}

/// The locus and the sample that a header names, in this order. A header is
/// a run of fields with single blanks between them. The sample is what
/// stands behind the third colon of the second field; the locus is the fourth
/// field, less its trailing white space. `None` where a field is missing.
pub open spec fn key_of(header: Seq<char>) -> Option<(Seq<char>, Seq<char>)> {
    let whole = header.len() as int;
    match spec_nth_field(header, 0, whole, ' ', 1) {
        None => None,
        Some(second) => match spec_nth_field(header, second.0, second.1, ':', 3) {
            None => None,
            Some(sample) => match spec_nth_field(header, 0, whole, ' ', 3) {
                None => None,
                Some(fourth) => Some(
                    (
                        header.subrange(fourth.0, spec_trimmed_end(header, fourth.0, fourth.1)),
                        header.subrange(sample.0, sample.1),
                    ),
                ),
            },
        },
    }
}

/// Reads the locus and the sample off the header of a sorted read. A header
/// that lacks one of the fields names no cell.
pub fn bucket_key(header: &str) -> (key: Result<(String, String), SeqError>)
    ensures
        match key {
            Ok((locus, sample)) => key_of(header@) == Some((locus@, sample@)),
            Err(e) => e == SeqError::UnresolvedBucketKey && key_of(header@) is None,
        },
{
    let chars: Vec<char> = chars_of(header);
    let whole: usize = chars.len();
    let second = match nth_field(&chars, 0, whole, ' ', 1) {
        Some(second) => second,
        None => {
            return Err(SeqError::UnresolvedBucketKey);
        },
    };
    let sample = match nth_field(&chars, second.0, second.1, ':', 3) {
        Some(sample) => sample,
        None => {
            return Err(SeqError::UnresolvedBucketKey);
        },
    };
    let fourth = match nth_field(&chars, 0, whole, ' ', 3) {
        Some(fourth) => fourth,
        None => {
            return Err(SeqError::UnresolvedBucketKey);
        },
    };
    let locus_end: usize = trimmed_end(&chars, fourth.0, fourth.1);
    Ok((string_of(&chars, fourth.0, locus_end), string_of(&chars, sample.0, sample.1)))
}

impl BucketMatrix {
    /// Whether there is one row per locus and, in every row, one cell per
    /// sample. Every matrix that `new` has made is of this shape, and stays
    /// so.
    pub closed spec fn wf(&self) -> bool {
        &&& self.cells@.len() == self.loci@.len()
        &&& forall|l: int|
            0 <= l < self.cells@.len() ==> (#[trigger] self.cells@[l])@.len() == self.samples@.len()
    }

    /// The names of the loci, in the order in which they were declared.
    pub closed spec fn declared_loci(&self) -> Seq<String> {
        self.loci@
    }

    /// The names of the samples, in the order in which they were declared.
    pub closed spec fn declared_samples(&self) -> Seq<String> {
        self.samples@
    }

    /// The reads in the cell of locus `l` and sample `s`.
    pub closed spec fn cell_at(&self, l: int, s: int) -> Seq<Sequence> {
        self.cells@[l]@[s]@
    }

    /// Whether `l` and `s` name a cell of the matrix.
    pub open spec fn has_cell(&self, l: int, s: int) -> bool {
        0 <= l < self.declared_loci().len() && 0 <= s < self.declared_samples().len()
    }

    /// A matrix with an empty cell for every pair of a declared locus and a
    /// declared sample.
    pub fn new(loci: Vec<String>, samples: Vec<String>) -> (matrix: BucketMatrix)
        ensures
            matrix.wf(),
            matrix.declared_loci() == loci@,
            matrix.declared_samples() == samples@,
            forall|l: int, s: int|
                matrix.has_cell(l, s) ==> (#[trigger] matrix.cell_at(l, s)).len() == 0,
    {
        let mut cells: Vec<Vec<Vec<Sequence>>> = Vec::new();
        let mut l: usize = 0;
        while l < loci.len()
            invariant
                l <= loci@.len(),
                cells@.len() == l,
                forall|i: int|
                    0 <= i < l ==> (#[trigger] cells@[i])@.len() == samples@.len(),
                forall|i: int, j: int|
                    0 <= i < l && 0 <= j < samples@.len() ==> (#[trigger] cells@[i]@[j])@.len()
                        == 0,
            decreases loci@.len() - l,
        {
            let mut row: Vec<Vec<Sequence>> = Vec::new();
            let mut s: usize = 0;
            while s < samples.len()
                invariant
                    s <= samples@.len(),
                    row@.len() == s,
                    forall|j: int| 0 <= j < s ==> (#[trigger] row@[j])@.len() == 0,
                decreases samples@.len() - s,
            {
                row.push(Vec::new());
                s += 1;
            }
            cells.push(row);
            l += 1;
        }
        BucketMatrix { loci, samples, cells }
    }

    /// The names of the loci, in the order in which they were declared.
    pub fn loci(&self) -> (names: &Vec<String>)
        ensures
            names@ == self.declared_loci(),
    {
        &self.loci
    }

    /// The names of the samples, in the order in which they were declared.
    pub fn samples(&self) -> (names: &Vec<String>)
        ensures
            names@ == self.declared_samples(),
    {
        &self.samples
    }

    /// The row of a locus.
    pub fn locus_index(&self, locus: &String) -> (found: Option<usize>)
        ensures
            match found {
                Some(l) => index_of_name(self.declared_loci(), locus@) == Some(l as int) && l
                    < self.declared_loci().len(),
                None => index_of_name(self.declared_loci(), locus@) is None,
            },
    {
        find_name(&self.loci, locus)
    }

    /// The column of a sample.
    pub fn sample_index(&self, sample: &String) -> (found: Option<usize>)
        ensures
            match found {
                Some(s) => index_of_name(self.declared_samples(), sample@) == Some(s as int) && s
                    < self.declared_samples().len(),
                None => index_of_name(self.declared_samples(), sample@) is None,
            },
    {
        find_name(&self.samples, sample)
    }

    /// Puts `read` on the pile of its locus and sample. Where either name was
    /// not declared, nothing is stored and the matrix stays as it was.
    pub fn insert(&mut self, locus: &String, sample: &String, read: Sequence) -> (outcome: Result<
        (),
        SeqError,
    >)
        requires
            old(self).wf(),
        ensures
            final(self).wf(),
            final(self).declared_loci() == old(self).declared_loci(),
            final(self).declared_samples() == old(self).declared_samples(),
            match outcome {
                Ok(()) => {
                    &&& index_of_name(old(self).declared_loci(), locus@) matches Some(l)
                    &&& index_of_name(old(self).declared_samples(), sample@) matches Some(s)
                    &&& final(self).cell_at(l, s) == old(self).cell_at(l, s).push(read)
                    &&& forall|i: int, j: int|
                        #![trigger final(self).cell_at(i, j)]
                        old(self).has_cell(i, j) && (i != l || j != s) ==> final(self).cell_at(i, j)
                            == old(self).cell_at(i, j)
                },
                Err(e) => {
                    &&& e == SeqError::UnresolvedBucketKey
                    &&& (index_of_name(old(self).declared_loci(), locus@) is None || index_of_name(
                        old(self).declared_samples(),
                        sample@,
                    ) is None)
                    &&& *final(self) == *old(self)
                },
            },
    {
        let l: usize = match self.locus_index(locus) {
            Some(l) => l,
            None => {
                return Err(SeqError::UnresolvedBucketKey);
            },
        };
        let s: usize = match self.sample_index(sample) {
            Some(s) => s,
            None => {
                return Err(SeqError::UnresolvedBucketKey);
            },
        };
        self.cells[l][s].push(read);
        Ok(())
    }

    /// The pile of locus `l` and sample `s`.
    pub fn cell(&self, l: usize, s: usize) -> (reads: &Vec<Sequence>)
        requires
            self.wf(),
            self.has_cell(l as int, s as int),
        ensures
            reads@ == self.cell_at(l as int, s as int),
    {
        &self.cells[l][s]
    }

    /// The number of reads on the pile of locus `l` and sample `s`.
    pub fn depth(&self, l: usize, s: usize) -> (reads: usize)
        requires
            self.wf(),
            self.has_cell(l as int, s as int),
        ensures
            reads == self.cell_at(l as int, s as int).len(),
    {
        self.cells[l][s].len()
    }

    /// Calls the consensus of every cell. The result has the shape of the
    /// matrix: one row per locus, one ranking per sample.
    pub fn call_all(&self, min_depth: usize) -> (rankings: Vec<Vec<Vec<Variant>>>)
        requires
            self.wf(),
        ensures
            rankings@.len() == self.declared_loci().len(),
            forall|l: int|
                0 <= l < rankings@.len() ==> (#[trigger] rankings@[l])@.len()
                    == self.declared_samples().len(),
            forall|l: int, s: int|
                self.has_cell(l, s) ==> is_consensus(
                    pile(self.cell_at(l, s)),
                    min_depth as nat,
                    variant_views((#[trigger] rankings@[l]@[s])@),
                ),
    {
        let mut rankings: Vec<Vec<Vec<Variant>>> = Vec::new();
        let mut l: usize = 0;
        while l < self.cells.len()
            invariant
                self.wf(),
                l <= self.cells@.len(),
                rankings@.len() == l,
                forall|i: int|
                    0 <= i < l ==> (#[trigger] rankings@[i])@.len() == self.samples@.len(),
                forall|i: int, j: int|
                    0 <= i < l && 0 <= j < self.samples@.len() ==> is_consensus(
                        pile(self.cell_at(i, j)),
                        min_depth as nat,
                        variant_views((#[trigger] rankings@[i]@[j])@),
                    ),
            decreases self.cells@.len() - l,
        {
            let mut row: Vec<Vec<Variant>> = Vec::new();
            let mut s: usize = 0;
            while s < self.cells[l].len()
                invariant
                    self.wf(),
                    l < self.cells@.len(),
                    s <= self.cells@[l as int]@.len(),
                    row@.len() == s,
                    forall|j: int|
                        0 <= j < s ==> is_consensus(
                            pile(self.cell_at(l as int, j)),
                            min_depth as nat,
                            variant_views((#[trigger] row@[j])@),
                        ),
                decreases self.cells@[l as int]@.len() - s,
            {
                row.push(call_consensus(&self.cells[l][s], min_depth));
                s += 1;
            }
            rankings.push(row);
            l += 1;
        }
        rankings
    }
}

} // verus!
