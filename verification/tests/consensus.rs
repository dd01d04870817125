use bio::bases::Bases;
use bio::consensus::{call_consensus, confidence, most_abundant, tally, Variant, MIN_DEPTH, SLOTS};
use bio::error::SeqError;
use bio::fastq::Sequence;
use bio::matrix::{bucket_key, BucketMatrix};

fn read(header: &str, bases: &str) -> Sequence {
    Sequence {
        header: header.to_string(),
        bases: Bases::from_str(bases),
        qual: "I".repeat(bases.len()),
    }
}

fn variant(bases: &str, count: usize) -> Variant {
    Variant { bases: Bases::from_str(bases), count }
}

fn pile(counts: &[(&str, usize)]) -> Vec<Sequence> {
    let mut reads = Vec::new();
    for (bases, count) in counts {
        for _ in 0..*count {
            reads.push(read("r", bases));
        }
    }
    reads
}

#[test]
fn tally_counts_in_first_seen_order() {
    let reads = vec![
        read("a", "GATACA"),
        read("b", "GATTCA"),
        read("c", "gataca"),
        read("d", "GA"),
        read("e", "GATTCA"),
        read("f", "GATACA"),
    ];

    assert_eq!(tally(&reads), vec![variant("GATACA", 3), variant("GATTCA", 2), variant("GA", 1)]);
    assert_eq!(tally(&vec![]), vec![]);
}

#[test]
fn most_abundant_is_the_greatest_count() {
    assert_eq!(most_abundant(&vec![]), None);
    assert_eq!(most_abundant(&vec![variant("A", 3)]), Some(3));
    assert_eq!(most_abundant(&vec![variant("A", 3), variant("C", 7), variant("G", 7)]), Some(7));
}

#[test]
fn abundance_filter_keeps_more_than_a_tenth() {
    let reads = pile(&[("GATACA", 100), ("GATTCA", 15), ("GCTACA", 5)]);

    let ranking = call_consensus(&reads, MIN_DEPTH);
    assert_eq!(ranking, vec![variant("GATACA", 100), variant("GATTCA", 15)]);
}

#[test]
fn abundance_filter_drops_exactly_a_tenth() {
    let reads = pile(&[("GATACA", 100), ("GATTCA", 10), ("GCTACA", 11)]);

    let ranking = call_consensus(&reads, MIN_DEPTH);
    assert_eq!(ranking, vec![variant("GATACA", 100), variant("GCTACA", 11)]);
}

#[test]
fn ranking_is_by_count_with_the_highest_first() {
    let reads = pile(&[("AAAA", 10), ("CCCC", 30), ("GGGG", 20), ("TTTT", 2)]);

    let ranking = call_consensus(&reads, MIN_DEPTH);
    assert_eq!(ranking, vec![variant("CCCC", 30), variant("GGGG", 20), variant("AAAA", 10)]);
}

#[test]
fn equal_counts_stay_in_first_seen_order() {
    let reads = pile(&[("AAAA", 10), ("CCCC", 20), ("GGGG", 10), ("TTTT", 20), ("NNNN", 10)]);

    let ranking = call_consensus(&reads, MIN_DEPTH);
    assert_eq!(
        ranking,
        vec![
            variant("CCCC", 20),
            variant("TTTT", 20),
            variant("AAAA", 10),
            variant("GGGG", 10),
            variant("NNNN", 10),
        ]
    );
}

#[test]
fn first_seen_order_is_that_of_the_reads_not_of_the_counts() {
    let mut reads = vec![read("x", "TTTT"), read("y", "AAAA")];
    reads.extend(pile(&[("AAAA", 20), ("TTTT", 20)]));

    let ranking = call_consensus(&reads, MIN_DEPTH);
    assert_eq!(ranking, vec![variant("TTTT", 21), variant("AAAA", 21)]);
}

#[test]
fn shallow_pile_yields_no_variant() {
    let reads = pile(&[("GATACA", 41)]);
    assert_eq!(call_consensus(&reads, MIN_DEPTH), vec![]);

    let mixed = pile(&[("GATACA", 20), ("GATTCA", 21)]);
    assert_eq!(call_consensus(&mixed, 42), vec![]);

    assert_eq!(call_consensus(&vec![], MIN_DEPTH), vec![]);
}

#[test]
fn depth_gate_is_inclusive_at_the_threshold() {
    assert_eq!(MIN_DEPTH, 42);
    let reads = pile(&[("GATACA", 42)]);
    assert_eq!(call_consensus(&reads, MIN_DEPTH), vec![variant("GATACA", 42)]);

    let few = pile(&[("GATACA", 2), ("GATTCA", 1)]);
    assert_eq!(call_consensus(&few, 3), vec![variant("GATACA", 2), variant("GATTCA", 1)]);
    assert_eq!(call_consensus(&few, 4), vec![]);
}

#[test]
fn empty_pile_with_no_threshold_yields_no_variant() {
    assert_eq!(call_consensus(&vec![], 0), vec![]);
}

#[test]
fn confidence_is_capped_at_the_slots() {
    assert_eq!(SLOTS, 4);
    let ranking: Vec<Variant> =
        vec![variant("A", 9), variant("C", 8), variant("G", 7), variant("T", 6), variant("N", 5)];

    assert_eq!(confidence(&ranking, SLOTS), 4);
    assert_eq!(confidence(&ranking, 5), 5);
    assert_eq!(confidence(&ranking, 6), 5);
    assert_eq!(confidence(&ranking, 0), 0);
    assert_eq!(confidence(&vec![], SLOTS), 0);
    assert_eq!(confidence(&vec![variant("A", 9)], SLOTS), 1);
}

#[test]
fn matrix_starts_with_an_empty_cell_for_every_pair() {
    let matrix = BucketMatrix::new(
        vec!["l1".to_string(), "l2".to_string()],
        vec!["s1".to_string(), "s2".to_string(), "s3".to_string()],
    );

    assert_eq!(matrix.loci(), &vec!["l1".to_string(), "l2".to_string()]);
    assert_eq!(matrix.samples().len(), 3);
    for l in 0..2 {
        for s in 0..3 {
            assert_eq!(matrix.depth(l, s), 0);
            assert_eq!(matrix.cell(l, s), &vec![]);
        }
    }
    assert_eq!(matrix.locus_index(&"l2".to_string()), Some(1));
    assert_eq!(matrix.sample_index(&"s3".to_string()), Some(2));
    assert_eq!(matrix.locus_index(&"s1".to_string()), None);
    assert_eq!(matrix.sample_index(&"".to_string()), None);
}

#[test]
fn matrix_insert_fills_one_cell_and_no_other() {
    let mut matrix = BucketMatrix::new(
        vec!["l1".to_string(), "l2".to_string()],
        vec!["s1".to_string(), "s2".to_string()],
    );

    assert_eq!(matrix.insert(&"l2".to_string(), &"s1".to_string(), read("a", "GATACA")), Ok(()));
    assert_eq!(matrix.insert(&"l2".to_string(), &"s1".to_string(), read("b", "GATTCA")), Ok(()));
    assert_eq!(matrix.insert(&"l1".to_string(), &"s2".to_string(), read("c", "GA")), Ok(()));

    assert_eq!(matrix.cell(1, 0), &vec![read("a", "GATACA"), read("b", "GATTCA")]);
    assert_eq!(matrix.cell(0, 1), &vec![read("c", "GA")]);
    assert_eq!(matrix.depth(0, 0), 0);
    assert_eq!(matrix.depth(1, 1), 0);
}

#[test]
fn matrix_insert_fails_loudly_on_an_undeclared_name() {
    let mut matrix = BucketMatrix::new(vec!["l1".to_string()], vec!["s1".to_string()]);
    let before = BucketMatrix::new(vec!["l1".to_string()], vec!["s1".to_string()]);

    assert_eq!(
        matrix.insert(&"l9".to_string(), &"s1".to_string(), read("a", "GA")),
        Err(SeqError::UnresolvedBucketKey)
    );
    assert_eq!(
        matrix.insert(&"l1".to_string(), &"s9".to_string(), read("a", "GA")),
        Err(SeqError::UnresolvedBucketKey)
    );
    assert_eq!(matrix, before);
}

#[test]
fn matrix_calls_every_cell() {
    let mut matrix = BucketMatrix::new(
        vec!["l1".to_string(), "l2".to_string()],
        vec!["s1".to_string(), "s2".to_string()],
    );
    for seq in pile(&[("GATACA", 3), ("GATTCA", 1)]) {
        matrix.insert(&"l1".to_string(), &"s2".to_string(), seq).unwrap();
    }
    matrix.insert(&"l2".to_string(), &"s1".to_string(), read("x", "GA")).unwrap();

    let rankings = matrix.call_all(2);
    assert_eq!(rankings.len(), 2);
    assert_eq!(rankings[0], vec![vec![], vec![variant("GATACA", 3), variant("GATTCA", 1)]]);
    assert_eq!(rankings[1], vec![vec![], vec![]]);
}

#[test]
fn bucket_key_reads_sample_and_locus_off_the_header() {
    let header = "M01:23:000-A1:1:1101:155:13 1:N:0:sample7 oligo3 locusB";
    assert_eq!(bucket_key(header), Ok(("locusB".to_string(), "sample7".to_string())));

    let trailing = "id 1:N:0:s x locus \t";
    assert_eq!(bucket_key(trailing), Ok(("locus".to_string(), "s".to_string())));

    let more = "id a:b:c:d:e x y z";
    assert_eq!(bucket_key(more), Ok(("y".to_string(), "d".to_string())));

    let empty_fields = "id ::: x ";
    assert_eq!(bucket_key(empty_fields), Ok(("".to_string(), "".to_string())));
}

#[test]
fn bucket_key_of_a_short_header_is_unresolved() {
    assert_eq!(bucket_key(""), Err(SeqError::UnresolvedBucketKey));
    assert_eq!(bucket_key("id"), Err(SeqError::UnresolvedBucketKey));
    assert_eq!(bucket_key("id 1:N:0:s oligo"), Err(SeqError::UnresolvedBucketKey));
    assert_eq!(bucket_key("id 1:N:0 oligo locus"), Err(SeqError::UnresolvedBucketKey));
}
