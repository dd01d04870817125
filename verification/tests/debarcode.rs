use bio::bases::Bases;

fn built(forward: &str, middle: &str, reverse: &str) -> Bases {
    let mut facing = Bases::from_str(reverse);
    facing.reverse_complement();
    Bases::from_str(forward).concat(&Bases::from_str(middle)).concat(&facing)
}

#[test]
fn built_read_debarcodes_with_no_budget() {
    let forward = Bases::from_str("ATAG");
    let reverse = Bases::from_str("CCGT");
    for middle in ["", "G", "GATACA", "NNNNNNNNNN"] {
        let read = built("ATAG", middle, "CCGT");
        assert_eq!(read.debarcode(&forward, &reverse, 0), Ok(Bases::from_str(middle)));
    }
}

#[test]
fn budget_is_inclusive_at_the_forward_end() {
    let forward = Bases::from_str("ATAG");
    let reverse = Bases::from_str("CCGT");
    // two substitutions in the forward barcode: ATAG -> TTAC
    let damaged = || Bases::from_str("TTAC").concat(&built("", "GATACA", "CCGT"));

    assert_eq!(damaged().debarcode(&forward, &reverse, 2), Ok(Bases::from_str("GATACA")));
    assert_eq!(damaged().debarcode(&forward, &reverse, 3), Ok(Bases::from_str("GATACA")));
    assert_eq!(damaged().debarcode(&forward, &reverse, 1), Err(damaged()));
    assert_eq!(damaged().debarcode(&forward, &reverse, 0), Err(damaged()));
}

#[test]
fn budget_is_inclusive_at_the_reverse_end() {
    let forward = Bases::from_str("ATAG");
    let reverse = Bases::from_str("CCGT");
    // the read ends in the reverse complement of CCGT, which is ACGG;
    // three substitutions turn it into TGCG
    let damaged = || Bases::from_str("ATAGGATACA").concat(&Bases::from_str("TGCG"));
    let read = damaged();
    assert_eq!(read.as_string(), "ATAGGATACATGCG");

    assert_eq!(damaged().debarcode(&forward, &reverse, 3), Ok(Bases::from_str("GATACA")));
    assert_eq!(damaged().debarcode(&forward, &reverse, 2), Err(damaged()));
    assert_eq!(damaged().debarcode(&forward, &reverse, 0), Err(damaged()));
}

#[test]
fn ends_are_scored_independently() {
    let forward = Bases::from_str("ATAG");
    let reverse = Bases::from_str("CCGT");
    // one substitution at each end: two in all, yet a budget of one is enough
    let read = || Bases::from_str("TTAGGATACAACGC");

    assert_eq!(read().debarcode(&forward, &reverse, 1), Ok(Bases::from_str("GATACA")));
    assert_eq!(read().debarcode(&forward, &reverse, 0), Err(read()));
}

#[test]
fn every_position_may_mismatch_within_the_budget() {
    let forward = Bases::from_str("AAAA");
    let reverse = Bases::from_str("AAAA");
    let read = || Bases::from_str("CCCCGATACACCCC");

    assert_eq!(read().debarcode(&forward, &reverse, 4), Ok(Bases::from_str("GATACA")));
    assert_eq!(read().debarcode(&forward, &reverse, 65535), Ok(Bases::from_str("GATACA")));
    assert_eq!(read().debarcode(&forward, &reverse, 3), Err(read()));
}

#[test]
fn read_shorter_than_both_barcodes_fails() {
    let forward = Bases::from_str("ATAG");
    let reverse = Bases::from_str("ATAG");

    let short = || Bases::from_str("ATAGTAT");
    assert_eq!(short().debarcode(&forward, &reverse, 0), Err(short()));
    assert_eq!(short().debarcode(&forward, &reverse, 65535), Err(short()));

    let exact = Bases::from_str("ATAGCTAT");
    assert_eq!(exact.debarcode(&forward, &reverse, 0), Ok(Bases::from_str("")));

    let empty = Bases::from_str("");
    assert_eq!(empty.debarcode(&forward, &reverse, 0), Err(Bases::from_str("")));
}

#[test]
fn empty_barcodes_trim_nothing() {
    let none = Bases::from_str("");
    let read = Bases::from_str("GATACA");

    assert_eq!(read.debarcode(&none, &none, 0), Ok(Bases::from_str("GATACA")));
}
