use bio::bases::Bases;
use bio::fastq::Sequence;
use bio::find::{find_in, Find, Length};
use bio::join::{join, join_with_spacer, ProcessedSequence, SPACER_LENGTH};

fn read(header: &str, bases: &str, qual: &str) -> Sequence {
    Sequence { header: header.to_string(), bases: Bases::from_str(bases), qual: qual.to_string() }
}

#[test]
fn find_returns_the_lowest_position() {
    let haystack = Bases::from_str("ATAGGATACGATA");

    assert_eq!(haystack.find(&Bases::from_str("GATA")), Some(4));
    assert_eq!(haystack.find(&Bases::from_str("ATA")), Some(0));
    assert_eq!(haystack.find(&Bases::from_str("CGATA")), Some(8));
    assert_eq!(haystack.find(&Bases::from_str("ATAGGATACGATA")), Some(0));
    assert_eq!(haystack.find(&Bases::from_str("TTT")), None);
    assert_eq!(haystack.find(&Bases::from_str("GATAC")), Some(4));
    assert_eq!(haystack.find(&Bases::from_str("GATAT")), None);
}

#[test]
fn find_handles_empty_and_overlong_needles() {
    let haystack = Bases::from_str("ATAG");

    assert_eq!(haystack.find(&Bases::from_str("")), Some(0));
    assert_eq!(haystack.find(&Bases::from_str("ATAGG")), None);
    assert_eq!(Bases::from_str("").find(&Bases::from_str("")), Some(0));
    assert_eq!(Bases::from_str("").find(&Bases::from_str("A")), None);
}

#[test]
fn find_on_vectors_and_slices() {
    let haystack = Bases::from_str("ATAGGATAC").bases;
    let needle = Bases::from_str("GATA").bases;

    assert_eq!(haystack.find(needle.as_slice()), Some(4));
    assert_eq!(haystack.as_slice().find(needle.as_slice()), Some(4));
    assert_eq!(needle.as_slice().find(haystack.as_slice()), None);
    assert_eq!(find_in(haystack.as_slice(), needle.as_slice()), Some(4));
    assert_eq!(find_in(needle.as_slice(), haystack.as_slice()), None);
    assert_eq!(Length::len(&haystack), 9);
    assert_eq!(Length::len(needle.as_slice()), 4);
}

#[test]
fn join_cuts_the_forward_read_behind_the_anchor() {
    // the reverse read starts with TATC, whose reverse complement is GATA
    let forward = read("pair/1", "ATAGGATAC", "abcdefghi");
    let reverse = read("pair/2", "TATCCCCC", "12345678");

    let outcome = join(forward, reverse, 4);
    assert_eq!(outcome, ProcessedSequence::Joined(read("pair/1", "ATAGGATA", "abcdefgh")));
}

#[test]
fn join_example_with_anchor_at_index_three() {
    // GATA stands at index 3, so the merged read ends behind index 3 + 4
    let forward = read("pair/1", "ATAGATAC", "abcdefgh");
    let reverse = read("pair/2", "TATCGG", "123456");

    let outcome = join(forward, reverse, 4);
    assert_eq!(outcome.map_joined(), Some(read("pair/1", "ATAGATA", "abcdefg")));
}

#[test]
fn join_takes_the_first_of_two_occurrences() {
    let forward = read("f", "CCGATACCGATACC", "abcdefghijklmn");
    let reverse = read("r", "TATC", "1234");

    assert_eq!(join(forward, reverse, 4), ProcessedSequence::Joined(read("f", "CCGATA", "abcdef")));
}

#[test]
fn join_without_anchor_returns_the_pair() {
    let forward = read("pair/1", "ATAGGATAC", "abcdefghi");
    let reverse = read("pair/2", "GGGGGGGG", "12345678");

    let outcome = join(forward.clone(), reverse.clone(), 4);
    assert_eq!(outcome, ProcessedSequence::Unjoined(forward.clone(), reverse.clone()));
    assert_eq!(outcome.clone().map_joined(), None);
    assert_eq!(outcome.map_unjoined(), Some((forward, reverse)));
}

#[test]
fn join_clamps_the_anchor_to_the_reverse_read() {
    let forward = read("f", "ATAGGATAC", "abcdefghi");
    let reverse = read("r", "TATC", "1234");

    let merged = read("f", "ATAGGATA", "abcdefgh");
    assert_eq!(join(forward, reverse, 10), ProcessedSequence::Joined(merged));
}

#[test]
fn join_with_an_empty_anchor_keeps_nothing() {
    let forward = read("f", "ATAG", "abcd");
    let reverse = read("r", "TATC", "1234");

    assert_eq!(join(forward, reverse, 0), ProcessedSequence::Joined(read("f", "", "")));
}

#[test]
fn join_with_the_anchor_at_the_very_end() {
    let forward = read("f", "CCCCGATA", "abcdefgh");
    let reverse = read("r", "TATCAAAA", "12345678");

    let outcome = join(forward.clone(), reverse, 4);
    assert_eq!(outcome, ProcessedSequence::Joined(forward));
}

#[test]
fn map_joined_and_map_unjoined_pick_their_own_variant() {
    let forward = read("f", "ATAG", "abcd");
    let reverse = read("r", "TATC", "1234");

    let joined = ProcessedSequence::Joined(forward.clone());
    assert_eq!(joined.clone().map_joined(), Some(forward.clone()));
    assert_eq!(joined.map_unjoined(), None);

    let unjoined = ProcessedSequence::Unjoined(forward.clone(), reverse.clone());
    assert_eq!(unjoined.clone().map_joined(), None);
    assert_eq!(unjoined.map_unjoined(), Some((forward, reverse)));
}

#[test]
fn join_with_spacer_bridges_with_unknown_bases() {
    let forward = read("f", "ATAG", "abcd");
    let reverse = read("r", "TATC", "1234");

    assert_eq!(SPACER_LENGTH, 10);
    let merged = join_with_spacer(forward.clone(), &reverse, SPACER_LENGTH);
    assert_eq!(merged, read("f", "ATAGNNNNNNNNNNTATC", "abcdNNNNNNNNNN1234"));
    assert!(merged.is_well_formed());

    assert_eq!(join_with_spacer(forward.clone(), &reverse, 0), read("f", "ATAGTATC", "abcd1234"));
    assert_eq!(join_with_spacer(forward, &reverse, 2), read("f", "ATAGNNTATC", "abcdNN1234"));
}
