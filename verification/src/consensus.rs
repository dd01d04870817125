//! Pileup consensus calling: tally the reads of one cell by sequence, drop
//! the variants of low abundance, rank the rest.

use crate::bases::{Base, Bases};
use crate::fastq::Sequence;
use vstd::prelude::*;

verus! {

/// The smallest pileup for which a consensus is called unless told otherwise.
pub const MIN_DEPTH: usize = 42;

/// The number of ranks that the summary of a cell reports unless told
/// otherwise.
pub const SLOTS: usize = 4;

/// One distinct sequence of a pileup and the number of reads that carry it.
#[derive(Debug, PartialEq, Eq, Hash)]
pub struct Variant {
    pub bases: Bases,
    pub count: usize,
}

/// A variant as plain values.
pub struct VariantView {
    pub bases: Seq<Base>,
    pub count: nat,
}

impl View for Variant {
    type V = VariantView;

    open spec fn view(&self) -> VariantView {
        VariantView { bases: self.bases@, count: self.count as nat }
    }
}

impl Clone for Variant {
    fn clone(&self) -> (copy: Variant)
        ensures
            copy@ == self@,
    {
        Variant { bases: self.bases.clone(), count: self.count }
    }
}

/// The base sequences of a pileup, read by read.
pub open spec fn pile(reads: Seq<Sequence>) -> Seq<Seq<Base>> {
    Seq::new(reads.len(), |i: int| reads[i]@.bases)
}

/// The variants of a list, each as its view.
pub open spec fn variant_views(variants: Seq<Variant>) -> Seq<VariantView> {
    Seq::new(variants.len(), |i: int| variants[i]@)
}

/// The number of reads of the pile that are exactly `bases`.
pub open spec fn occurrences(pile: Seq<Seq<Base>>, bases: Seq<Base>) -> nat
    decreases pile.len(),
{
    if pile.len() == 0 {
        0
    } else if pile.last() == bases {
        occurrences(pile.drop_last(), bases) + 1
    } else {
        occurrences(pile.drop_last(), bases)
    }
}

/// The distinct sequences of the pile, in the order in which each is first
/// seen.
pub open spec fn distinct(pile: Seq<Seq<Base>>) -> Seq<Seq<Base>>
    decreases pile.len(),
{
    if pile.len() == 0 {
        Seq::empty()
    } else {
        let before = distinct(pile.drop_last());
        if before.contains(pile.last()) {
            before
        } else {
            before.push(pile.last())
        }
    }
}

/// The tally of the pile: each distinct sequence, in first-seen order, with
/// the number of reads that carry it.
pub open spec fn tally_of(pile: Seq<Seq<Base>>) -> Seq<VariantView> {
    Seq::new(
        distinct(pile).len(),
        |i: int|
            VariantView {
                bases: distinct(pile)[i],
                count: occurrences(pile, distinct(pile)[i]),
            },
    )
}

/// The greatest count among the variants; zero where there is none.
pub open spec fn greatest_count(variants: Seq<VariantView>) -> nat
    decreases variants.len(),
{
    if variants.len() == 0 {
        0
    } else {
        let before = greatest_count(variants.drop_last());
        if variants.last().count > before {
            variants.last().count
        } else {
            before
        }
    }
}

/// The number of reads that carry the most abundant sequence of the pile.
pub open spec fn top_count(pile: Seq<Seq<Base>>) -> nat {
    greatest_count(tally_of(pile))
}

/// Whether a count is more than a tenth of the greatest count. A count of
/// exactly one tenth is not.
pub open spec fn abundant(count: nat, greatest: nat) -> bool {
    10 * count > greatest
}

/// Whether `bases` is a variant of the pile that passes the abundance
/// filter.
pub open spec fn survives(pile: Seq<Seq<Base>>, bases: Seq<Base>) -> bool {
    &&& occurrences(pile, bases) > 0
    &&& abundant(occurrences(pile, bases), top_count(pile))
}

/// Where `bases` stands in the first-seen order of the pile.
pub open spec fn first_seen(pile: Seq<Seq<Base>>, bases: Seq<Base>) -> int {
    distinct(pile).index_of(bases)
}

/// The order of the ranking: the higher count first; of two equal counts,
/// the sequence that the pile shows first.
pub open spec fn outranks(pile: Seq<Seq<Base>>, a: VariantView, b: VariantView) -> bool {
    a.count > b.count || (a.count == b.count && first_seen(pile, a.bases) < first_seen(
        pile,
        b.bases,
    ))
}

/// Whether `ranking` is the ranked variant list of the pile: it lists the
/// surviving variants, each with its count, all of them, in ranking order.
pub open spec fn is_ranking(pile: Seq<Seq<Base>>, ranking: Seq<VariantView>) -> bool {
    &&& forall|i: int|
        0 <= i < ranking.len() ==> {
            &&& survives(pile, (#[trigger] ranking[i]).bases)
            &&& ranking[i].count == occurrences(pile, ranking[i].bases)
        }
    &&& forall|bases: Seq<Base>| #[trigger]
        survives(pile, bases) ==> exists|i: int|
            0 <= i < ranking.len() && (#[trigger] ranking[i]).bases == bases
    &&& forall|i: int, j: int|
        0 <= i < j < ranking.len() ==> outranks(pile, #[trigger] ranking[i], #[trigger] ranking[j])
}

/// What consensus calling reports for a pile: nothing below the minimum
/// depth, the ranking otherwise.
pub open spec fn is_consensus(
    pile: Seq<Seq<Base>>,
    min_depth: nat,
    ranking: Seq<VariantView>,
) -> bool {
    if pile.len() < min_depth {
        ranking.len() == 0
    } else {
        is_ranking(pile, ranking)
    }
}

/// Counting one read further.
proof fn lemma_occurrences_step(pile: Seq<Seq<Base>>, upto: int, bases: Seq<Base>)
    requires
        0 <= upto < pile.len(),
    ensures
        occurrences(pile.take(upto + 1), bases) == occurrences(pile.take(upto), bases) + (if
            pile[upto] == bases {
            1nat
        } else {
            0nat
        }),
        distinct(pile.take(upto + 1)) == (if distinct(pile.take(upto)).contains(pile[upto]) {
            distinct(pile.take(upto))
        } else {
            distinct(pile.take(upto)).push(pile[upto])
        }),
{
    assert(pile.take(upto + 1).drop_last() =~= pile.take(upto));
}

/// A sequence cannot occur more often than there are reads.
pub proof fn lemma_occurrences_bounded(pile: Seq<Seq<Base>>, bases: Seq<Base>)
    ensures
        occurrences(pile, bases) <= pile.len(),
    decreases pile.len(),
{
    if pile.len() > 0 {
        lemma_occurrences_bounded(pile.drop_last(), bases);
    }
}

/// The sequences listed are those that occur in the pile.
pub proof fn lemma_listed_iff_occurs(pile: Seq<Seq<Base>>, bases: Seq<Base>)
    ensures
        distinct(pile).contains(bases) <==> occurrences(pile, bases) > 0,
    decreases pile.len(),
{
    if pile.len() > 0 {
        let before = distinct(pile.drop_last());
        lemma_listed_iff_occurs(pile.drop_last(), bases);
        if !before.contains(pile.last()) {
            let after = before.push(pile.last());
            assert(after[before.len() as int] == pile.last());
            if before.contains(bases) {
                let at = choose|at: int| 0 <= at < before.len() && before[at] == bases;
                assert(after[at] == bases);
            }
            if after.contains(bases) && bases != pile.last() {
                let at = choose|at: int| 0 <= at < after.len() && after[at] == bases;
                assert(before[at] == bases);
            }
        }
    }
}

/// No sequence is listed twice.
pub proof fn lemma_distinct_no_duplicates(pile: Seq<Seq<Base>>)
    ensures
        distinct(pile).no_duplicates(),
    decreases pile.len(),
{
    if pile.len() > 0 {
        lemma_distinct_no_duplicates(pile.drop_last());
        let before = distinct(pile.drop_last());
        if !before.contains(pile.last()) {
            let after = before.push(pile.last());
            assert forall|i: int, j: int|
                0 <= i < after.len() && 0 <= j < after.len() && i != j implies after[i]
                != after[j] by {
                if i < before.len() {
                    assert(before.contains(before[i]));
                }
                if j < before.len() {
                    assert(before.contains(before[j]));
                }
            }
        }
    }
}

/// The greatest count is the count of some variant, and no variant has more.
pub proof fn lemma_greatest_count(variants: Seq<VariantView>)
    ensures
        forall|i: int|
            0 <= i < variants.len() ==> (#[trigger] variants[i]).count <= greatest_count(variants),
        variants.len() > 0 ==> exists|i: int|
            0 <= i < variants.len() && (#[trigger] variants[i]).count == greatest_count(variants),
    decreases variants.len(),
{
    if variants.len() > 0 {
        lemma_greatest_count(variants.drop_last());
        let before = variants.drop_last();
        assert forall|i: int| 0 <= i < variants.len() implies (#[trigger] variants[i]).count
            <= greatest_count(variants) by {
            if i < before.len() {
                assert(before[i] == variants[i]);
            }
        }
        if variants.last().count > greatest_count(before) || before.len() == 0 {
            assert(variants[variants.len() - 1].count == greatest_count(variants));
        } else {
            let at = choose|i: int|
                0 <= i < before.len() && (#[trigger] before[i]).count == greatest_count(before);
            assert(variants[at] == before[at]);
        }
    }
}

/// Tallies a pileup: each distinct sequence, in first-seen order, with the
/// number of reads that carry it.
pub fn tally(reads: &Vec<Sequence>) -> (counts: Vec<Variant>)
    ensures
        variant_views(counts@) == tally_of(pile(reads@)),
{
    let ghost whole = pile(reads@);
    let mut counts: Vec<Variant> = Vec::new();
    let mut i: usize = 0;
    assert(whole.take(0) =~= Seq::<Seq<Base>>::empty());
    assert(variant_views(counts@) =~= tally_of(whole.take(0)));
    while i < reads.len()
        invariant
            i <= reads@.len(),
            whole == pile(reads@),
            variant_views(counts@) == tally_of(whole.take(i as int)),
        decreases reads@.len() - i,
    {
        let ghost seen = whole.take(i as int);
        let ghost listed = distinct(seen);
        let read: &Bases = &reads[i].bases;
        proof {
            lemma_distinct_no_duplicates(seen);
            lemma_listed_iff_occurs(seen, read@);
            lemma_occurrences_bounded(seen, read@);
            lemma_occurrences_step(whole, i as int, read@);
            assert(counts@.len() == variant_views(counts@).len());
            assert forall|k: int| 0 <= k < counts@.len() implies counts@[k]@.bases == listed[k]
                && counts@[k].count == occurrences(seen, listed[k]) by {
                assert(variant_views(counts@)[k] == tally_of(seen)[k]);
            }
        }
        // Look for the sequence among those already tallied.
        let mut at: usize = 0;
        while at < counts.len() && !counts[at].bases.equals(read)
            invariant
                at <= counts@.len(),
                counts@.len() == listed.len(),
                forall|k: int| 0 <= k < counts@.len() ==> counts@[k]@.bases == listed[k],
                forall|k: int| 0 <= k < at ==> listed[k] != read@,
            decreases counts@.len() - at,
        {
            at += 1;
        }
        if at < counts.len() {
            let found: usize = counts[at].count;
            assert(listed[at as int] == read@);
            assert(found < reads@.len());
            counts[at].count = found + 1;
            proof {
                let next = whole.take(i + 1);
                assert forall|k: int| 0 <= k < counts@.len() implies variant_views(counts@)[k]
                    == tally_of(next)[k] by {
                    lemma_occurrences_step(whole, i as int, listed[k]);
                    if k != at {
                        assert(listed[k] != listed[at as int]);
                    }
                }
                assert(variant_views(counts@) =~= tally_of(next));
            }
        } else {
            let bases: Bases = read.clone();
            counts.push(Variant { bases, count: 1 });
            proof {
                let next = whole.take(i + 1);
                assert(!listed.contains(read@));
                assert forall|k: int| 0 <= k < counts@.len() implies variant_views(counts@)[k]
                    == tally_of(next)[k] by {
                    lemma_occurrences_step(whole, i as int, distinct(next)[k]);
                    if k < listed.len() {
                        assert(listed.contains(listed[k]));
                    }
                }
                assert(variant_views(counts@) =~= tally_of(next));
            }
        }
        i += 1;
    }
    assert(whole.take(reads@.len() as int) =~= whole);
    counts
}

/// The greatest count of a tally, or `None` for an empty tally.
pub fn most_abundant(counts: &Vec<Variant>) -> (top: Option<usize>)
    ensures
        match top {
            Some(greatest) => counts@.len() > 0 && greatest == greatest_count(
                variant_views(counts@),
            ),
            None => counts@.len() == 0,
        },
{
    if counts.len() == 0 {
        return None;
    }
    let ghost all = variant_views(counts@);
    let mut greatest: usize = 0;
    let mut i: usize = 0;
    assert(all.take(0) =~= Seq::<VariantView>::empty());
    while i < counts.len()
        invariant
            i <= counts@.len(),
            all == variant_views(counts@),
            greatest == greatest_count(all.take(i as int)),
        decreases counts@.len() - i,
    {
        assert(all.take(i + 1).drop_last() =~= all.take(i as int));
        if counts[i].count > greatest {
            greatest = counts[i].count;
        }
        i += 1;
    }
    assert(all.take(counts@.len() as int) =~= all);
    Some(greatest)
}

/// A sequence that is listed stands at its own place in the first-seen order.
pub proof fn lemma_first_seen(pile: Seq<Seq<Base>>, at: int)
    requires
        0 <= at < distinct(pile).len(),
    ensures
        first_seen(pile, distinct(pile)[at]) == at,
{
    lemma_distinct_no_duplicates(pile);
    let listed = distinct(pile);
    let found = listed.index_of(listed[at]);
    assert(0 <= found < listed.len() && listed[found] == listed[at]);
}

/// The state of the ranking loop once the first `upto` variants of the
/// tally have been looked at. `picked` names, for each place of the ranking,
/// the place in the tally that its variant comes from: every abundant variant
/// among the first `upto` is picked, nothing else is, and the picks stand in
/// ranking order.
spec fn picks(
    counts: Seq<VariantView>,
    greatest: nat,
    upto: int,
    picked: Seq<int>,
    ranking: Seq<VariantView>,
) -> bool {
    &&& ranking.len() == picked.len()
    &&& forall|p: int|
        0 <= p < picked.len() ==> {
            &&& 0 <= #[trigger] picked[p] < upto
            &&& ranking[p] == counts[picked[p]]
            &&& abundant(counts[picked[p]].count, greatest)
        }
    &&& forall|k: int|
        0 <= k < upto && abundant((#[trigger] counts[k]).count, greatest) ==> picked.contains(k)
    &&& forall|p: int, q: int|
        0 <= p < q < picked.len() ==> {
            ||| counts[#[trigger] picked[p]].count > counts[#[trigger] picked[q]].count
            ||| (counts[picked[p]].count == counts[picked[q]].count && picked[p] < picked[q])
        }
}

/// A variant that is not abundant is passed over.
proof fn lemma_pass_over(
    counts: Seq<VariantView>,
    greatest: nat,
    upto: int,
    picked: Seq<int>,
    ranking: Seq<VariantView>,
)
    requires
        0 <= upto < counts.len(),
        picks(counts, greatest, upto, picked, ranking),
        !abundant(counts[upto].count, greatest),
    ensures
        picks(counts, greatest, upto + 1, picked, ranking),
{
}

/// An abundant variant is put behind every pick that has at least its count.
proof fn lemma_pick(
    counts: Seq<VariantView>,
    greatest: nat,
    upto: int,
    picked: Seq<int>,
    ranking: Seq<VariantView>,
    at: int,
)
    requires
        0 <= upto < counts.len(),
        picks(counts, greatest, upto, picked, ranking),
        abundant(counts[upto].count, greatest),
        0 <= at <= picked.len(),
        forall|p: int| 0 <= p < at ==> (#[trigger] ranking[p]).count >= counts[upto].count,
        at < picked.len() ==> ranking[at].count < counts[upto].count,
    ensures
        picks(
            counts,
            greatest,
            upto + 1,
            picked.insert(at, upto),
            ranking.insert(at, counts[upto]),
        ),
{
    let count = counts[upto].count;
    let after = picked.insert(at, upto);
    let ranked = ranking.insert(at, counts[upto]);
    assert forall|q: int| at <= q < picked.len() implies counts[#[trigger] picked[q]].count
        < count by {
        assert(ranking[q] == counts[picked[q]]);
        if q > at {
            assert(counts[picked[at]].count >= counts[picked[q]].count);
        }
    }
    assert forall|p: int| 0 <= p < at implies counts[#[trigger] picked[p]].count >= count by {
        assert(ranking[p] == counts[picked[p]]);
    }
    assert forall|p: int| 0 <= p < after.len() implies {
        &&& 0 <= #[trigger] after[p] < upto + 1
        &&& ranked[p] == counts[after[p]]
        &&& abundant(counts[after[p]].count, greatest)
    } by {
        if p < at {
            assert(after[p] == picked[p]);
        } else if p > at {
            assert(after[p] == picked[p - 1]);
        }
    }
    assert forall|k: int|
        0 <= k < upto + 1 && abundant((#[trigger] counts[k]).count, greatest) implies
        after.contains(k) by {
        if k < upto {
            let p = choose|p: int| 0 <= p < picked.len() && picked[p] == k;
            if p < at {
                assert(after[p] == k);
            } else {
                assert(after[p + 1] == k);
            }
        } else {
            assert(after[at] == k);
        }
    }
    assert forall|p: int, q: int| 0 <= p < q < after.len() implies {
        ||| counts[#[trigger] after[p]].count > counts[#[trigger] after[q]].count
        ||| (counts[after[p]].count == counts[after[q]].count && after[p] < after[q])
    } by {
        if p < at && q > at {
            assert(after[p] == picked[p] && after[q] == picked[q - 1]);
        } else if p < at && q < at {
            assert(after[p] == picked[p] && after[q] == picked[q]);
        } else if p > at {
            assert(after[p] == picked[p - 1] && after[q] == picked[q - 1]);
        } else if p == at {
            assert(after[q] == picked[q - 1]);
        } else {
            assert(after[p] == picked[p]);
        }
    }
}

/// What the ranking loop has built in the end is the ranking.
proof fn lemma_ranking_built(pile: Seq<Seq<Base>>, picked: Seq<int>, ranking: Seq<VariantView>)
    requires
        picks(tally_of(pile), top_count(pile), tally_of(pile).len() as int, picked, ranking),
    ensures
        is_ranking(pile, ranking),
{
    let listed = distinct(pile);
    let counts = tally_of(pile);
    assert forall|i: int| 0 <= i < ranking.len() implies survives(
        pile,
        (#[trigger] ranking[i]).bases,
    ) && ranking[i].count == occurrences(pile, ranking[i].bases) by {
        let k = picked[i];
        assert(ranking[i] == counts[k]);
        assert(listed.contains(listed[k]));
        lemma_listed_iff_occurs(pile, listed[k]);
    }
    assert forall|bases: Seq<Base>| #[trigger] survives(pile, bases) implies exists|i: int|
        0 <= i < ranking.len() && (#[trigger] ranking[i]).bases == bases by {
        lemma_listed_iff_occurs(pile, bases);
        let k = choose|k: int| 0 <= k < listed.len() && listed[k] == bases;
        assert(counts[k].bases == bases);
        assert(picked.contains(k));
        let p = choose|p: int| 0 <= p < picked.len() && picked[p] == k;
        assert(ranking[p].bases == bases);
    }
    assert forall|i: int, j: int| 0 <= i < j < ranking.len() implies outranks(
        pile,
        #[trigger] ranking[i],
        #[trigger] ranking[j],
    ) by {
        lemma_first_seen(pile, picked[i]);
        lemma_first_seen(pile, picked[j]);
        assert(ranking[i] == counts[picked[i]]);
        assert(ranking[j] == counts[picked[j]]);
    }
}

/// Two lists that hold the same variants and are both in ranking order are
/// the same list.
proof fn lemma_same_order(pile: Seq<Seq<Base>>, a: Seq<VariantView>, b: Seq<VariantView>)
    requires
        forall|i: int, j: int|
            0 <= i < j < a.len() ==> outranks(pile, #[trigger] a[i], #[trigger] a[j]),
        forall|i: int, j: int|
            0 <= i < j < b.len() ==> outranks(pile, #[trigger] b[i], #[trigger] b[j]),
        forall|i: int| 0 <= i < a.len() ==> b.contains(#[trigger] a[i]),
        forall|i: int| 0 <= i < b.len() ==> a.contains(#[trigger] b[i]),
    ensures
        a == b,
    decreases a.len(),
{
    if a.len() == 0 {
        if b.len() > 0 {
            assert(a.contains(b[0]));
        }
        assert(a =~= b);
    } else {
        assert(b.contains(a[0]));
        let j = choose|j: int| 0 <= j < b.len() && b[j] == a[0];
        if j > 0 {
            assert(a.contains(b[0]));
            let i = choose|i: int| 0 <= i < a.len() && a[i] == b[0];
            assert(outranks(pile, b[0], b[j]));
            if i > 0 {
                assert(outranks(pile, a[0], a[i]));
            }
        }
        assert(a[0] == b[0]);
        let rest_a = a.drop_first();
        let rest_b = b.drop_first();
        assert forall|i: int| 0 <= i < rest_a.len() implies rest_b.contains(
            #[trigger] rest_a[i],
        ) by {
            assert(b.contains(a[i + 1]));
            let at = choose|at: int| 0 <= at < b.len() && b[at] == a[i + 1];
            assert(outranks(pile, a[0], a[i + 1]));
            assert(at > 0);
            assert(rest_b[at - 1] == a[i + 1]);
        }
        assert forall|i: int| 0 <= i < rest_b.len() implies rest_a.contains(
            #[trigger] rest_b[i],
        ) by {
            assert(a.contains(b[i + 1]));
            let at = choose|at: int| 0 <= at < a.len() && a[at] == b[i + 1];
            assert(outranks(pile, b[0], b[i + 1]));
            assert(at > 0);
            assert(rest_a[at - 1] == b[i + 1]);
        }
        assert forall|i: int, j: int| 0 <= i < j < rest_a.len() implies outranks(
            pile,
            #[trigger] rest_a[i],
            #[trigger] rest_a[j],
        ) by {
            assert(outranks(pile, a[i + 1], a[j + 1]));
        }
        assert forall|i: int, j: int| 0 <= i < j < rest_b.len() implies outranks(
            pile,
            #[trigger] rest_b[i],
            #[trigger] rest_b[j],
        ) by {
            assert(outranks(pile, b[i + 1], b[j + 1]));
        }
        lemma_same_order(pile, rest_a, rest_b);
        assert(a =~= seq![a[0]] + rest_a);
        assert(b =~= seq![b[0]] + rest_b);
    }
}

/// A pile has one ranking only.
pub proof fn lemma_ranking_unique(pile: Seq<Seq<Base>>, a: Seq<VariantView>, b: Seq<VariantView>)
    requires
        is_ranking(pile, a),
        is_ranking(pile, b),
    ensures
        a == b,
{
    assert forall|i: int| 0 <= i < a.len() implies b.contains(#[trigger] a[i]) by {
        assert(survives(pile, a[i].bases));
        let j = choose|j: int| 0 <= j < b.len() && (#[trigger] b[j]).bases == a[i].bases;
        assert(b[j] == a[i]);
    }
    assert forall|i: int| 0 <= i < b.len() implies a.contains(#[trigger] b[i]) by {
        assert(survives(pile, b[i].bases));
        let j = choose|j: int| 0 <= j < a.len() && (#[trigger] a[j]).bases == b[i].bases;
        assert(a[j] == b[i]);
    }
    lemma_same_order(pile, a, b);
}

/// A pile below the minimum depth has no variant to report, whatever it
/// holds.
pub proof fn lemma_depth_gate(pile: Seq<Seq<Base>>, min_depth: nat, ranking: Seq<VariantView>)
    requires
        pile.len() < min_depth,
        is_consensus(pile, min_depth, ranking),
    ensures
        ranking == Seq::<VariantView>::empty(),
{
    assert(ranking =~= Seq::<VariantView>::empty());
}

/// The ranking is by count, highest first, and never holds a sequence twice.
pub proof fn lemma_ranking_descends(pile: Seq<Seq<Base>>, ranking: Seq<VariantView>, i: int, j: int)
    requires
        is_ranking(pile, ranking),
        0 <= i < j < ranking.len(),
    ensures
        ranking[i].count >= ranking[j].count,
        ranking[i].bases != ranking[j].bases,
{
    assert(outranks(pile, ranking[i], ranking[j]));
}

/// Calls the consensus of one pileup. A pileup of fewer than `min_depth`
/// reads yields no variant. Otherwise the reads are tallied by sequence,
/// every variant whose count is no more than a tenth of the greatest count
/// is dropped, and the others are listed by count, highest first; variants
/// of equal count stay in the order in which the pileup first shows them.
pub fn call_consensus(reads: &Vec<Sequence>, min_depth: usize) -> (ranking: Vec<Variant>)
    ensures
        is_consensus(pile(reads@), min_depth as nat, variant_views(ranking@)),
        reads@.len() < min_depth ==> ranking@.len() == 0,
{
    let ghost whole = pile(reads@);
    let mut ranking: Vec<Variant> = Vec::new();
    if reads.len() < min_depth {
        return ranking;
    }
    let counts: Vec<Variant> = tally(reads);
    let ghost all = tally_of(whole);
    let greatest: usize = match most_abundant(&counts) {
        Some(greatest) => greatest,
        None => {
            proof {
                assert(all.len() == 0);
                assert forall|bases: Seq<Base>| !#[trigger] survives(whole, bases) by {
                    lemma_listed_iff_occurs(whole, bases);
                }
            }
            return ranking;
        },
    };
    let floor: usize = greatest / 10;
    let ghost mut picked: Seq<int> = Seq::empty();
    let mut k: usize = 0;
    assert(variant_views(ranking@) =~= Seq::<VariantView>::empty());
    while k < counts.len()
        invariant
            k <= counts@.len(),
            variant_views(counts@) == all,
            floor == greatest / 10,
            picks(all, greatest as nat, k as int, picked, variant_views(ranking@)),
        decreases counts@.len() - k,
    {
        let count: usize = counts[k].count;
        let ghost ranked = variant_views(ranking@);
        assert(all[k as int] == counts@[k as int]@);
        assert(abundant(count as nat, greatest as nat) <==> count > floor);
        if count > floor {
            // The variant goes behind every one that has at least its count.
            let mut at: usize = 0;
            while at < ranking.len() && ranking[at].count >= count
                invariant
                    at <= ranking@.len(),
                    ranked == variant_views(ranking@),
                    forall|p: int| 0 <= p < at ==> (#[trigger] ranked[p]).count >= count,
                decreases ranking@.len() - at,
            {
                assert(ranked[at as int] == ranking@[at as int]@);
                at += 1;
            }
            if at < ranking.len() {
                assert(ranked[at as int] == ranking@[at as int]@);
            }
            let variant: Variant = counts[k].clone();
            ranking.insert(at, variant);
            proof {
                lemma_pick(all, greatest as nat, k as int, picked, ranked, at as int);
                picked = picked.insert(at as int, k as int);
                assert(variant_views(ranking@) =~= ranked.insert(at as int, all[k as int]));
            }
        } else {
            proof {
                lemma_pass_over(all, greatest as nat, k as int, picked, ranked);
            }
        }
        k += 1;
    }
    proof {
        lemma_ranking_built(whole, picked, variant_views(ranking@));
    }
    ranking
}

/// The summary figure of a cell: the number of ranked variants, capped at
/// the number of slots.
pub fn confidence(ranking: &Vec<Variant>, slots: usize) -> (shown: usize)
    ensures
        shown == if ranking@.len() < slots {
            ranking@.len()
        } else {
            slots as nat
        },
{
    if ranking.len() < slots {
        ranking.len()
    } else {
        slots
    }
}

} // verus!
