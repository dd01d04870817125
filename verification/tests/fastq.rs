use bio::bases::Base::{A, C, G, T};
use bio::bases::Bases;
use bio::error::{RecordError, SeqError};
use bio::fastq::{read_fastq, write_fastq, write_fastq_owned, Sequence};

fn read(header: &str, bases: &str, qual: &str) -> Sequence {
    Sequence { header: header.to_string(), bases: Bases::from_str(bases), qual: qual.to_string() }
}

#[test]
fn test_sequence_head() {
    let seq = Sequence {
        header: "foo".to_string(),
        bases: Bases::from_str("ATGAAAAACAT"),
        qual: "ABCDEFGHIJK".to_string(),
    };

    let seq = seq.head(3);
    assert_eq!(seq.header, "foo");
    assert_eq!(seq.bases, Bases::from_str("ATG"));
    assert_eq!(seq.qual, "ABC".to_string());
}

#[test]
fn test_sequence_tail() {
    let seq = Sequence {
        header: "foo".to_string(),
        bases: Bases::from_str("ATGAAAAACAT"),
        qual: "ABCDEFGHIJK".to_string(),
    };

    let seq = seq.tail(3);
    assert_eq!(seq.header, "foo");
    assert_eq!(seq.bases, Bases::from_str("CAT"));
    assert_eq!(seq.qual, "IJK".to_string());
}

#[test]
fn test_sequence_debarcodes_properly() {
    let seq = Sequence {
        header: "foo".to_string(),
        bases: Bases::from_str("ATGAAAAACAT"),
        qual: "ABCDEFGHIJK".to_string(),
    };

    let debarcoded = seq.debarcode(&Bases::from_str("ATG"), &Bases::from_str("ATG"), 0);
    assert!(debarcoded.is_ok());
    let seq = debarcoded.unwrap();
    assert_eq!(seq.header, "foo");
    assert_eq!(seq.bases, Bases::from_str("AAAAA"));
    assert_eq!(seq.qual, "DEFGH".to_string());
}

#[test]
fn test_sequence_fails_debarcode_properly() {
    let seq = Sequence {
        header: "foo".to_string(),
        bases: Bases::from_str("ATGAAAAACCT"),
        qual: "ABCDEFGHIJK".to_string(),
    };

    let debarcoded = seq.debarcode(&Bases::from_str("ATG"), &Bases::from_str("ATG"), 0);
    assert!(!debarcoded.is_ok());
    let seq = debarcoded.unwrap_err();
    assert_eq!(seq.header, "foo");
    assert_eq!(seq.bases, Bases::from_str("ATGAAAAACCT"));
    assert_eq!(seq.qual, "ABCDEFGHIJK".to_string());
}

#[test]
fn test_read_fastq_qual_header() {
    let fastq = "@header\nGATACA\n+header\nAAAAAA";

    let expected_seq = Sequence {
        header: "header".to_string(),
        bases: Bases::from_str("GATACA"),
        qual: "AAAAAA".to_string(),
    };

    assert_eq!(Ok(vec![expected_seq]), read_fastq(fastq));
}

#[test]
fn fastq_test_read_fastq_qual_header() {
    let fastq = "@header\nGATACA\n+header\nAAAAAA";

    let expected_seq = Sequence {
        header: "header".to_string(),
        bases: Bases::new(vec![G, A, T, A, C, A]),
        qual: "AAAAAA".to_string(),
    };

    assert_eq!(vec![expected_seq], read_fastq(fastq).unwrap());
}

#[test]
fn test_read_fastq_no_qual_header() {
    let fastq = "@header\nGATACA\n+\nAAAAAA";

    let expected_seq = Sequence {
        header: "header".to_string(),
        bases: Bases::from_str("GATACA"),
        qual: "AAAAAA".to_string(),
    };

    assert_eq!(Ok(vec![expected_seq]), read_fastq(fastq));
}

#[test]
fn fastq_test_read_fastq_no_qual_header() {
    let fastq = "@header\nGATACA\n+\nAAAAAA";

    let expected_seq = Sequence {
        header: "header".to_string(),
        bases: Bases::new(vec![G, A, T, A, C, A]),
        qual: "AAAAAA".to_string(),
    };

    assert_eq!(vec![expected_seq], read_fastq(fastq).unwrap());
}

#[test]
fn test_write_fastq() {
    let mut fastq = String::new();

    let seq1 = Sequence {
        header: "foo1".to_string(),
        bases: Bases::from_str("ATG"),
        qual: "AAA".to_string(),
    };

    let seq2 = Sequence {
        header: "foo2".to_string(),
        bases: Bases::from_str("GATACA"),
        qual: "AAAAAA".to_string(),
    };

    let expected_fastq = "@foo1\n\
        ATG\n\
        +\n\
        AAA\n\
        @foo2\n\
        GATACA\n\
        +\n\
        AAAAAA\n";

    write_fastq(&mut fastq, &vec![seq1, seq2]);

    assert_eq!(fastq.as_str(), expected_fastq);
}

#[test]
fn write_fastq_owned_appends_to_what_is_there() {
    let mut fastq = String::from("@first\nA\n+\nI\n");

    write_fastq_owned(&mut fastq, vec![read("second", "acgtn", "IIIII")]);
    assert_eq!(fastq, "@first\nA\n+\nI\n@second\nACGTN\n+\nIIIII\n");

    write_fastq_owned(&mut fastq, vec![]);
    assert_eq!(fastq, "@first\nA\n+\nI\n@second\nACGTN\n+\nIIIII\n");
}

#[test]
fn read_fastq_reads_several_records_and_trims_line_ends() {
    let fastq = "@one two\r\nGATACA \r\n+\r\n!!!!!!\r\n@three\nacgtn\n+three\nABCDE\n";

    let reads = read_fastq(fastq).unwrap();
    assert_eq!(reads, vec![read("one two", "GATACA", "!!!!!!"), read("three", "ACGTN", "ABCDE")]);
}

#[test]
fn read_fastq_of_nothing_is_empty() {
    assert_eq!(read_fastq(""), Ok(vec![]));
}

#[test]
fn read_fastq_takes_a_blank_line_for_an_empty_record() {
    let reads = read_fastq("@h\nAC\n+\nII\n\n").unwrap();
    assert_eq!(reads, vec![read("h", "AC", "II"), read("", "", "")]);
}

#[test]
fn read_fastq_names_the_record_with_a_foreign_symbol() {
    let fastq = "@one\nGATACA\n+\nIIIIII\n@two\nGATXCA\n+\nIIIIII\n@three\nGATACA\n+\nIIIIII\n";

    assert_eq!(read_fastq(fastq), Err(RecordError { record: 1, kind: SeqError::InvalidSymbol }));
}

#[test]
fn read_fastq_names_the_record_whose_quality_is_short() {
    let fastq = "@one\nGATACA\n+\nIIIII\n";
    assert_eq!(read_fastq(fastq), Err(RecordError { record: 0, kind: SeqError::LengthMismatch }));

    let cut_off = "@one\nGATACA\n+\nIIIIII\n@two\nGATACA\n";
    assert_eq!(read_fastq(cut_off), Err(RecordError { record: 1, kind: SeqError::LengthMismatch }));
}

#[test]
fn written_reads_are_read_back() {
    let reads = vec![read("a b c", "GATTACA", "ABCDEFG"), read("d", "", ""), read("e", "N", "#")];
    let mut fastq = String::new();
    write_fastq(&mut fastq, &reads);

    assert_eq!(read_fastq(&fastq), Ok(reads));
}

#[test]
fn sequence_head_and_tail_at_the_bounds() {
    let seq = read("foo", "ATGAAAAACAT", "ABCDEFGHIJK");

    assert_eq!(seq.head(0), read("foo", "", ""));
    assert_eq!(seq.head(11), seq);
    assert_eq!(seq.tail(0), read("foo", "", ""));
    assert_eq!(seq.tail(11), seq);
}

#[test]
fn sequence_checked_slices_report_length_mismatch() {
    let seq = read("foo", "ATGAAAAACAT", "ABCDEFGHIJK");

    assert_eq!(seq.checked_head(3), Ok(read("foo", "ATG", "ABC")));
    assert_eq!(seq.checked_tail(3), Ok(read("foo", "CAT", "IJK")));
    assert_eq!(seq.checked_head(12), Err(SeqError::LengthMismatch));
    assert_eq!(seq.checked_tail(12), Err(SeqError::LengthMismatch));

    let ragged = read("foo", "ATG", "AB");
    assert!(!ragged.is_well_formed());
    assert!(seq.is_well_formed());
    assert_eq!(ragged.checked_head(1), Err(SeqError::LengthMismatch));
    assert_eq!(ragged.checked_tail(1), Err(SeqError::LengthMismatch));
}

#[test]
fn sequence_quality_is_sliced_by_symbol() {
    let seq = read("foo", "ATGC", "é!ü#");

    assert!(seq.is_well_formed());
    assert_eq!(seq.head(2), read("foo", "AT", "é!"));
    assert_eq!(seq.tail(2), read("foo", "GC", "ü#"));
}

#[test]
fn sequence_debarcode_keeps_quality_aligned() {
    let seq = read("foo", "ATAGGATACACTAT", "abcdefghijklmn");
    let forward = Bases::from_str("ATAG");
    let reverse = Bases::from_str("ATAG");

    assert_eq!(seq.debarcode(&forward, &reverse, 0), Ok(read("foo", "GATACA", "efghij")));
}

#[test]
fn sequence_debarcode_failure_returns_the_read_unchanged() {
    let forward = Bases::from_str("ATAG");
    let reverse = Bases::from_str("ATAG");

    let wrong_end = read("foo bar", "ATAGGATACACTTT", "abcdefghijklmn");
    assert_eq!(wrong_end.clone().debarcode(&forward, &reverse, 0), Err(wrong_end));

    let short = read("foo", "ATAGTAT", "abcdefg");
    assert_eq!(short.clone().debarcode(&forward, &reverse, 7), Err(short));
}
