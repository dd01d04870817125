//! Barcode trimming: what it means for a read to carry a pair of barcodes
//! within a mismatch budget, the trimming itself, and its laws.

use crate::bases::{reverse_complemented, Base, Bases};
use vstd::prelude::*;

verus! {

/// The number of positions of `barcode` at which `read` holds a different
/// base. Only the first `barcode.len()` positions of `read` are looked at.
pub open spec fn mismatches(barcode: Seq<Base>, read: Seq<Base>) -> nat
    recommends
        barcode.len() <= read.len(),
    decreases barcode.len(),
{
    if barcode.len() == 0 {
        0
    } else {
        let rest = mismatches(barcode.drop_last(), read);
        if barcode.last() != read[barcode.len() - 1] {
            rest + 1
        } else {
            rest
        }
    }
}

/// Mismatches between the forward barcode and the start of the read.
pub open spec fn forward_mismatches(read: Seq<Base>, forward: Seq<Base>) -> nat {
    mismatches(forward, read)
}

/// Mismatches between the reverse barcode and the end of the read, the read
/// being walked backwards and complemented: position `i` of the barcode faces
/// the complement of the `i`-th base from the end.
pub open spec fn reverse_mismatches(read: Seq<Base>, reverse: Seq<Base>) -> nat {
    mismatches(reverse, reverse_complemented(read))
}

/// Whether `read` carries both barcodes: it is long enough to hold them side
/// by side, and each end, scored on its own, stays within the budget.
pub open spec fn debarcodes(
    read: Seq<Base>,
    forward: Seq<Base>,
    reverse: Seq<Base>,
    budget: nat,
) -> bool {
    &&& forward.len() + reverse.len() <= read.len()
    &&& forward_mismatches(read, forward) <= budget
    &&& reverse_mismatches(read, reverse) <= budget
}

/// What is left of `read` once both barcodes are cut away.
pub open spec fn trimmed(read: Seq<Base>, forward: Seq<Base>, reverse: Seq<Base>) -> Seq<Base> {
    read.subrange(forward.len() as int, read.len() - reverse.len())
}

/// The number of positions in `[lo, hi)` at which `a` and `b` differ.
pub open spec fn differences(a: Seq<Base>, b: Seq<Base>, lo: int, hi: int) -> nat
    recommends
        0 <= lo <= hi <= a.len(),
        a.len() == b.len(),
    decreases hi - lo,
{
    if hi <= lo {
        0
    } else {
        let rest = differences(a, b, lo, hi - 1);
        if a[hi - 1] != b[hi - 1] {
            rest + 1
        } else {
            rest
        }
    }
}

/// A prefix of a barcode has no more mismatches than the whole barcode.
proof fn lemma_prefix_mismatches(barcode: Seq<Base>, read: Seq<Base>, i: int)
    requires
        0 <= i <= barcode.len(),
    ensures
        mismatches(barcode.take(i), read) <= mismatches(barcode, read),
        mismatches(barcode.take(i), read) <= i,
    decreases barcode.len(),
{
    if i == barcode.len() {
        assert(barcode.take(i) =~= barcode);
        if i > 0 {
            lemma_prefix_mismatches(barcode.drop_last(), read, i - 1);
            assert(barcode.drop_last().take(i - 1) =~= barcode.drop_last());
        }
    } else {
        lemma_prefix_mismatches(barcode.drop_last(), read, i);
        assert(barcode.drop_last().take(i) =~= barcode.take(i));
    }
}

/// Counting one position further.
proof fn lemma_mismatches_step(barcode: Seq<Base>, read: Seq<Base>, i: int)
    requires
        0 <= i < barcode.len(),
    ensures
        mismatches(barcode.take(i + 1), read) == mismatches(barcode.take(i), read) + (if barcode[i]
            != read[i] {
            1nat
        } else {
            0nat
        }),
{
    assert(barcode.take(i + 1).drop_last() =~= barcode.take(i));
}

/// A barcode that agrees with the read at every one of its positions has no
/// mismatch.
proof fn lemma_agreement_has_no_mismatch(barcode: Seq<Base>, read: Seq<Base>)
    requires
        forall|i: int| 0 <= i < barcode.len() ==> barcode[i] == read[i],
    ensures
        mismatches(barcode, read) == 0,
    decreases barcode.len(),
{
    if barcode.len() > 0 {
        lemma_agreement_has_no_mismatch(barcode.drop_last(), read);
    }
}

/// Differences can be counted from the low end as well.
proof fn lemma_differences_low_end(a: Seq<Base>, b: Seq<Base>, lo: int, hi: int)
    requires
        lo < hi,
    ensures
        differences(a, b, lo, hi) == differences(a, b, lo + 1, hi) + (if a[lo] != b[lo] {
            1nat
        } else {
            0nat
        }),
    decreases hi - lo,
{
    if lo + 1 < hi {
        lemma_differences_low_end(a, b, lo, hi - 1);
    } else {
        assert(differences(a, b, lo, lo) == 0);
        assert(differences(a, b, lo + 1, hi) == 0);
    }
}

/// Where the start of `built` is the barcode itself, the mismatches of
/// another read against the barcode are its differences from `built`
/// over the barcode's positions.
proof fn lemma_forward_differences(
    barcode: Seq<Base>,
    built: Seq<Base>,
    read: Seq<Base>,
    upto: int,
)
    requires
        0 <= upto <= barcode.len() <= built.len(),
        built.len() == read.len(),
        forall|i: int| 0 <= i < barcode.len() ==> built[i] == barcode[i],
    ensures
        mismatches(barcode.take(upto), read) == differences(built, read, 0, upto),
    decreases upto,
{
    if upto > 0 {
        lemma_forward_differences(barcode, built, read, upto - 1);
        lemma_mismatches_step(barcode, read, upto - 1);
    } else {
        assert(barcode.take(0).len() == 0);
    }
}

/// Where the end of `built` is the reverse complement of the barcode, the
/// mismatches of another read's end against the barcode are its differences
/// from `built` over those last positions.
proof fn lemma_reverse_differences(
    barcode: Seq<Base>,
    built: Seq<Base>,
    read: Seq<Base>,
    upto: int,
)
    requires
        0 <= upto <= barcode.len() <= built.len(),
        built.len() == read.len(),
        forall|i: int|
            0 <= i < barcode.len() ==> built[built.len() - 1 - i]
                == barcode[i].spec_complement(),
    ensures
        mismatches(barcode.take(upto), reverse_complemented(read)) == differences(
            built,
            read,
            built.len() - upto,
            built.len() as int,
        ),
    decreases upto,
{
    let n = built.len() as int;
    if upto > 0 {
        lemma_reverse_differences(barcode, built, read, upto - 1);
        lemma_mismatches_step(barcode, reverse_complemented(read), upto - 1);
        lemma_differences_low_end(built, read, n - upto, n);
        assert(reverse_complemented(read)[upto - 1] == read[n - upto].spec_complement());
        assert(built[n - 1 - (upto - 1)] == barcode[upto - 1].spec_complement());
    } else {
        assert(barcode.take(0).len() == 0);
    }
}

/// A read built as forward barcode, then any middle, then the reverse
/// complement of the reverse barcode debarcodes with a budget of zero, and
/// what is left is exactly the middle.
pub proof fn lemma_built_read_debarcodes(forward: Seq<Base>, middle: Seq<Base>, reverse: Seq<Base>)
    ensures
        debarcodes(forward + middle + reverse_complemented(reverse), forward, reverse, 0),
        trimmed(forward + middle + reverse_complemented(reverse), forward, reverse) == middle,
{
    let read = forward + middle + reverse_complemented(reverse);
    lemma_agreement_has_no_mismatch(forward, read);
    assert forall|i: int| 0 <= i < reverse.len() implies reverse[i] == reverse_complemented(
        read,
    )[i] by {
        assert(read[read.len() - 1 - i] == reverse_complemented(reverse)[reverse.len() - 1 - i]);
    }
    lemma_agreement_has_no_mismatch(reverse, reverse_complemented(read));
    assert(trimmed(read, forward, reverse) =~= middle);
}

/// Substitutions and the budget. Let `read` be as long as the read built
/// from forward barcode, middle and reverse complement of the reverse
/// barcode. Then `read` debarcodes exactly when the budget covers the number
/// of positions at which it departs from the built read inside the forward
/// barcode's region, and also the number inside the reverse barcode's region.
pub proof fn lemma_substitutions_against_budget(
    forward: Seq<Base>,
    middle: Seq<Base>,
    reverse: Seq<Base>,
    read: Seq<Base>,
    budget: nat,
)
    requires
        read.len() == forward.len() + middle.len() + reverse.len(),
    ensures
        forward_mismatches(read, forward) == differences(
            forward + middle + reverse_complemented(reverse),
            read,
            0,
            forward.len() as int,
        ),
        reverse_mismatches(read, reverse) == differences(
            forward + middle + reverse_complemented(reverse),
            read,
            read.len() - reverse.len(),
            read.len() as int,
        ),
        debarcodes(read, forward, reverse, budget) <==> {
            &&& differences(
                forward + middle + reverse_complemented(reverse),
                read,
                0,
                forward.len() as int,
            ) <= budget
            &&& differences(
                forward + middle + reverse_complemented(reverse),
                read,
                read.len() - reverse.len(),
                read.len() as int,
            ) <= budget
        },
{
    let built = forward + middle + reverse_complemented(reverse);
    lemma_forward_differences(forward, built, read, forward.len() as int);
    assert(forward.take(forward.len() as int) =~= forward);
    assert forall|i: int| 0 <= i < reverse.len() implies built[built.len() - 1 - i]
        == reverse[i].spec_complement() by {
        assert(built[built.len() - 1 - i] == reverse_complemented(reverse)[reverse.len() - 1 - i]);
    }
    lemma_reverse_differences(reverse, built, read, reverse.len() as int);
    assert(reverse.take(reverse.len() as int) =~= reverse);
}

/// The budget boundary. A read that departs from the built read at exactly
/// `k` positions of one barcode's region, and nowhere in the other's,
/// debarcodes when the budget is at least `k` and fails when it is less.
pub proof fn lemma_budget_boundary(
    forward: Seq<Base>,
    middle: Seq<Base>,
    reverse: Seq<Base>,
    read: Seq<Base>,
    k: nat,
    budget: nat,
)
    requires
        read.len() == forward.len() + middle.len() + reverse.len(),
        ({
            let built = forward + middle + reverse_complemented(reverse);
            let in_forward = differences(built, read, 0, forward.len() as int);
            let in_reverse = differences(
                built,
                read,
                read.len() - reverse.len(),
                read.len() as int,
            );
            (in_forward == k && in_reverse == 0) || (in_forward == 0 && in_reverse == k)
        }),
    ensures
        debarcodes(read, forward, reverse, budget) <==> budget >= k,
{
    lemma_substitutions_against_budget(forward, middle, reverse, read, budget);
}

/// Whether `barcode` differs from the start of `read` at no more than `budget`
/// positions. Stops counting as soon as the budget is exceeded.
fn forward_fits(read: &Vec<Base>, barcode: &Vec<Base>, budget: u16) -> (fits: bool)
    requires
        barcode@.len() <= read@.len(),
    ensures
        fits == (forward_mismatches(read@, barcode@) <= budget),
{
    let allowed: usize = budget as usize;
    let mut count: usize = 0;
    let mut i: usize = 0;
    while i < barcode.len() && count <= allowed
        invariant
            i <= barcode@.len() <= read@.len(),
            count == mismatches(barcode@.take(i as int), read@),
            count <= i,
            allowed == budget,
        decreases barcode@.len() - i,
    {
        proof {
            lemma_mismatches_step(barcode@, read@, i as int);
        }
        if read[i] != barcode[i] {
            count += 1;
        }
        i += 1;
    }
    proof {
        lemma_prefix_mismatches(barcode@, read@, i as int);
        if i == barcode@.len() {
            assert(barcode@.take(i as int) =~= barcode@);
        }
    }
    count <= allowed
}

/// Whether `barcode` differs from the end of `read`, walked backwards and
/// complemented, at no more than `budget` positions. Stops counting as soon
/// as the budget is exceeded.
fn reverse_fits(read: &Vec<Base>, barcode: &Vec<Base>, budget: u16) -> (fits: bool)
    requires
        barcode@.len() <= read@.len(),
    ensures
        fits == (reverse_mismatches(read@, barcode@) <= budget),
{
    let allowed: usize = budget as usize;
    let n: usize = read.len();
    let ghost facing = reverse_complemented(read@);
    let mut count: usize = 0;
    let mut i: usize = 0;
    while i < barcode.len() && count <= allowed
        invariant
            i <= barcode@.len() <= read@.len(),
            n == read@.len(),
            facing == reverse_complemented(read@),
            count == mismatches(barcode@.take(i as int), facing),
            count <= i,
            allowed == budget,
        decreases barcode@.len() - i,
    {
        proof {
            lemma_mismatches_step(barcode@, facing, i as int);
        }
        if read[n - 1 - i].complement() != barcode[i] {
            count += 1;
        }
        i += 1;
    }
    proof {
        lemma_prefix_mismatches(barcode@, facing, i as int);
        if i == barcode@.len() {
            assert(barcode@.take(i as int) =~= barcode@);
        }
    }
    count <= allowed
}

impl Bases {
    /// Cuts the forward barcode off the start and the reverse barcode off the
    /// end, provided the sequence is long enough for both and each end
    /// matches its barcode with at most `diffs_allowed` mismatches. Otherwise
    /// the sequence comes back untouched as the error.
    pub fn debarcode(
        self,
        forward_barcode: &Bases,
        reverse_barcode: &Bases,
        diffs_allowed: u16,
    ) -> (outcome: Result<Bases, Bases>)
        ensures
            match outcome {
                Ok(inner) => {
                    &&& debarcodes(self@, forward_barcode@, reverse_barcode@, diffs_allowed as nat)
                    &&& inner@ == trimmed(self@, forward_barcode@, reverse_barcode@)
                },
                Err(untouched) => {
                    &&& !debarcodes(self@, forward_barcode@, reverse_barcode@, diffs_allowed as nat)
                    &&& untouched == self
                },
            },
    {
        let len: usize = self.bases.len();
        let start: usize = forward_barcode.bases.len();
        let cut: usize = reverse_barcode.bases.len();
        // The sequence must be long enough to hold both barcodes.
        if start > len || cut > len - start {
            return Err(self);
        }
        if !forward_fits(&self.bases, &forward_barcode.bases, diffs_allowed) {
            return Err(self);
        }
        // The two ends are scored independently.
        if !reverse_fits(&self.bases, &reverse_barcode.bases, diffs_allowed) {
            return Err(self);
        }
        let end: usize = len - cut;
        let mut inner: Vec<Base> = Vec::new();
        let mut i: usize = start;
        while i < end
            invariant
                start <= i <= end <= self@.len(),
                inner@ == self@.subrange(start as int, i as int),
            decreases end - i,
        {
            inner.push(self.bases[i]);
            assert(inner@ =~= self@.subrange(start as int, i + 1));
            i += 1;
        }
        Ok(Bases { bases: inner })
    }
}

} // verus!
