use bio::bases::Bases;
use bio::error::{RecordError, SeqError};
use bio::fastq::Sequence;
use bio::oligos::{assign, demultiplex, parse_oligos, Demultiplexed, Oligo};

fn read(header: &str, bases: &str, qual: &str) -> Sequence {
    Sequence { header: header.to_string(), bases: Bases::from_str(bases), qual: qual.to_string() }
}

fn oligo(forward: &str, reverse: &str, name: &str) -> Oligo {
    Oligo {
        name: name.to_string(),
        forward: Bases::from_str(forward),
        reverse: Bases::from_str(reverse),
    }
}

#[test]
fn parse_oligos_reads_three_columns_per_line() {
    let table = "ATAG\tCCGT\tfirst\nggat\tACCA \tsecond one\r\n\t\tbare";

    assert_eq!(
        parse_oligos(table),
        Ok(vec![
            oligo("ATAG", "CCGT", "first"),
            oligo("GGAT", "ACCA", "second one"),
            oligo("", "", "bare"),
        ])
    );
    assert_eq!(parse_oligos(""), Ok(vec![]));
}

#[test]
fn parse_oligos_rejects_a_wrong_column_count() {
    let malformed =
        |record: usize| Err(RecordError { record, kind: SeqError::MalformedBarcodeTable });

    assert_eq!(parse_oligos("ATAG\tCCGT\n"), malformed(0));
    assert_eq!(parse_oligos("ATAG\tCCGT\tname\textra\n"), malformed(0));
    assert_eq!(parse_oligos("ATAG\tCCGT\tname\nATAG\n"), malformed(1));
    assert_eq!(parse_oligos("ATAG\tCCGT\tname\n\nATAG\tCCGT\tname\n"), malformed(1));
    assert_eq!(parse_oligos("\n"), malformed(0));
}

#[test]
fn parse_oligos_rejects_a_foreign_symbol() {
    assert_eq!(
        parse_oligos("ATAG\tCCGT\tone\nATXG\tCCGT\ttwo\n"),
        Err(RecordError { record: 1, kind: SeqError::InvalidSymbol })
    );
    assert_eq!(
        parse_oligos("ATAG\tCC GT\tone\n"),
        Err(RecordError { record: 0, kind: SeqError::InvalidSymbol })
    );
}

#[test]
fn assign_takes_the_first_oligo_that_fits() {
    let oligos = vec![
        oligo("CCCC", "CCCC", "none"),
        oligo("ATAG", "ATAG", "one"),
        oligo("ATAG", "ATAG", "two"),
    ];
    let seq = read("foo", "ATAGGATACACTAT", "abcdefghijklmn");

    assert_eq!(assign(seq, &oligos, 0), Ok((1, read("foo one", "GATACA", "efghij"))));
}

#[test]
fn assign_returns_the_read_when_no_oligo_fits() {
    let oligos = vec![oligo("CCCC", "CCCC", "none"), oligo("ATAG", "AAAA", "half")];
    let seq = read("foo", "ATAGGATACACTAT", "abcdefghijklmn");

    assert_eq!(assign(seq.clone(), &oligos, 0), Err(seq.clone()));
    assert_eq!(assign(seq.clone(), &vec![], 0), Err(seq.clone()));
    assert_eq!(assign(seq, &oligos, 4), Ok((0, read("foo none", "GATACA", "efghij"))));
}

#[test]
fn demultiplex_sorts_reads_and_keeps_their_order() {
    let oligos = vec![oligo("ATAG", "ATAG", "one"), oligo("CCCC", "GGGG", "two")];
    let reads = vec![
        read("a", "CCCCGATTCCCC", "abcdefghijkl"),
        read("b", "TTTTTTTTTTTT", "abcdefghijkl"),
        read("c", "ATAGGATACACTAT", "abcdefghijklmn"),
        read("d", "AT", "ab"),
        read("e", "CCCCCCCC", "abcdefgh"),
    ];

    assert_eq!(
        demultiplex(&reads, &oligos, 0),
        Demultiplexed {
            assigned: vec![
                (1, read("a two", "GATT", "efgh")),
                (0, read("c one", "GATACA", "efghij")),
                (1, read("e two", "", "")),
            ],
            failed: vec![read("b", "TTTTTTTTTTTT", "abcdefghijkl"), read("d", "AT", "ab")],
        }
    );
}
