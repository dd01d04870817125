//! Merging the alleles of a locus into one line of ambiguity codes.

use crate::text::{
    chars_of, lemma_line_end_bounds, line_end, spec_line_end, spec_trimmed_end, string_of,
    trimmed_end,
};
use vstd::prelude::*;
use vstd::string::StringExecFns;

verus! {

/// One sequence line of a FASTA text with the header it stands under. The
/// symbols are kept as written: gaps and ambiguity codes may occur.
#[derive(Debug, PartialEq, Eq, Hash)]
pub struct Strand {
    pub header: String,
    pub symbols: Vec<char>,
}

/// A strand as plain values.
pub struct StrandView {
    pub header: Seq<char>,
    pub symbols: Seq<char>,
}

impl View for Strand {
    type V = StrandView;

    open spec fn view(&self) -> StrandView {
        StrandView { header: self.header@, symbols: self.symbols@ }
    }
}

/// The strands of a list, each as its view.
pub open spec fn strand_views(strands: Seq<Strand>) -> Seq<StrandView> {
    Seq::new(strands.len(), |i: int| strands[i]@)
}

/// The strands of `text` from position `at` on, `header` being the header in
/// force there. Trailing white space of a line does not count. A line that
/// is blank is skipped; a line that starts with `>` sets the header to the
/// rest of the line; every other line is a strand under the header in force.
/// `None` where a strand stands under no header, or under an empty one.
pub open spec fn strands_from(text: Seq<char>, at: int, header: Seq<char>) -> Option<
    Seq<StrandView>,
>
    decreases text.len() - at,
    via strands_from_decreases
{
    if 0 <= at < text.len() {
        let end = spec_line_end(text, at);
        let stop = spec_trimmed_end(text, at, end);
        if stop == at {
            strands_from(text, end, header)
        } else if text[at] == '>' {
            strands_from(text, end, text.subrange(at + 1, stop))
        } else if header.len() == 0 {
            None
        } else {
            match strands_from(text, end, header) {
                Some(rest) => Some(
                    seq![StrandView { header, symbols: text.subrange(at, stop) }] + rest,
                ),
                None => None,
            }
        }
    } else {
        Some(Seq::empty())
    }
}

#[via_fn]
proof fn strands_from_decreases(text: Seq<char>, at: int, header: Seq<char>) {
    if 0 <= at < text.len() {
        lemma_line_end_bounds(text, at);
    }
}

/// Reads the strands of a FASTA text, in order. `None` where a sequence line
/// stands under no header.
pub fn read_fasta(fasta: &str) -> (outcome: Option<Vec<Strand>>)
    ensures
        match outcome {
            Some(strands) => strands_from(fasta@, 0, Seq::empty()) == Some(
                strand_views(strands@),
            ),
            None => strands_from(fasta@, 0, Seq::empty()) is None,
        },
{
    let chars: Vec<char> = chars_of(fasta);
    let ghost text = fasta@;
    let mut strands: Vec<Strand> = Vec::new();
    let mut header: (usize, usize) = (0, 0);
    let mut at: usize = 0;
    assert(text.subrange(0, 0) =~= Seq::<char>::empty());
    while at < chars.len()
        invariant
            chars@ == text,
            text == fasta@,
            at <= text.len(),
            header.0 <= header.1 <= text.len(),
            strands_from(text, 0, Seq::empty()) == (match strands_from(
                text,
                at as int,
                text.subrange(header.0 as int, header.1 as int),
            ) {
                Some(rest) => Some(strand_views(strands@) + rest),
                None => None,
            }),
        decreases text.len() - at,
    {
        proof {
            lemma_line_end_bounds(text, at as int);
        }
        let ghost before = strand_views(strands@);
        let end: usize = line_end(&chars, at);
        let stop: usize = trimmed_end(&chars, at, end);
        if stop > at && chars[at] == '>' {
            header = (at + 1, stop);
        } else if stop > at && header.1 == header.0 {
            return None;
        } else if stop > at {
            let strand = Strand {
                header: string_of(&chars, header.0, header.1),
                symbols: copy_chars(&chars, at, stop),
            };
            strands.push(strand);
            proof {
                let rest = strands_from(
                    text,
                    end as int,
                    text.subrange(header.0 as int, header.1 as int),
                );
                assert(strand_views(strands@) =~= before.push(strand@));
                if rest is Some {
                    assert(before + (seq![strand@] + rest->0) =~= strand_views(strands@)
                        + rest->0);
                }
            }
        }
        at = end;
    }
    assert(strand_views(strands@) + Seq::<StrandView>::empty() =~= strand_views(strands@));
    Some(strands)
}

/// A fresh vector holding `chars[from..to]`.
fn copy_chars(chars: &Vec<char>, from: usize, to: usize) -> (part: Vec<char>)
    requires
        from <= to <= chars@.len(),
    ensures
        part@ == chars@.subrange(from as int, to as int),
{
    let mut part: Vec<char> = Vec::new();
    let mut i: usize = from;
    while i < to
        invariant
            from <= i <= to <= chars@.len(),
            part@ == chars@.subrange(from as int, i as int),
        decreases to - i,
    {
        part.push(chars[i]);
        assert(part@ =~= chars@.subrange(from as int, i + 1));
        i += 1;
    }
    part
}

/// The strands that belong to one name.
#[derive(Debug, PartialEq, Eq, Hash)]
pub struct Group {
    pub name: String,
    pub strands: Vec<Vec<char>>,
}

/// A group as plain values.
pub struct GroupView {
    pub name: Seq<char>,
    pub strands: Seq<Seq<char>>,
}

impl View for Group {
    type V = GroupView;

    open spec fn view(&self) -> GroupView {
        GroupView {
            name: self.name@,
            strands: Seq::new(self.strands@.len(), |i: int| self.strands@[i]@),
        }
    }
}

/// The groups of a list, each as its view.
pub open spec fn group_views(groups: Seq<Group>) -> Seq<GroupView> {
    Seq::new(groups.len(), |i: int| groups[i]@)
}

impl GroupView {
    /// Whether the group holds a strand and all its strands are of one
    /// length.
    pub open spec fn uniform(self) -> bool {
        &&& self.strands.len() > 0
        &&& forall|k: int|
            0 <= k < self.strands.len() ==> (#[trigger] self.strands[k]).len()
                == self.strands[0].len()
    }
}

/// The name that a header is an allele of: a header that ends in an
/// underscore and one more character stands for an allele of what precedes
/// the underscore. `None` for every other header.
pub open spec fn allele_of(header: Seq<char>) -> Option<Seq<char>> {
    if header.len() >= 2 && header[header.len() - 2] == '_' {
        Some(header.take(header.len() - 2))
    } else {
        None
    }
}

/// The first place at which `groups` holds a group called `name`.
pub open spec fn place_of(groups: Seq<GroupView>, name: Seq<char>) -> Option<int>
    decreases groups.len(),
{
    if groups.len() == 0 {
        None
    } else {
        match place_of(groups.drop_last(), name) {
            Some(at) => Some(at),
            None => if groups.last().name == name {
                Some(groups.len() - 1)
            } else {
                None
            },
        }
    }
}

/// The groups once `strand` is sorted in. An allele joins the group of its
/// name, which is opened at the end where there is none yet, unless the
/// group's strands are of another length: then the strand is left out. Any
/// other strand is a group by itself under its own header, and takes the
/// place of a group of that name that is there already.
pub open spec fn with_strand(groups: Seq<GroupView>, strand: StrandView) -> Seq<GroupView> {
    match allele_of(strand.header) {
        Some(name) => match place_of(groups, name) {
            Some(at) => if groups[at].strands.len() > 0 && groups[at].strands[0].len()
                != strand.symbols.len() {
                groups
            } else {
                groups.update(
                    at,
                    GroupView { name, strands: groups[at].strands.push(strand.symbols) },
                )
            },
            None => groups.push(GroupView { name, strands: seq![strand.symbols] }),
        },
        None => match place_of(groups, strand.header) {
            Some(at) => groups.update(
                at,
                GroupView { name: strand.header, strands: seq![strand.symbols] },
            ),
            None => groups.push(GroupView { name: strand.header, strands: seq![strand.symbols] }),
        },
    }
}

/// The groups of a list of strands, sorted in one after the other.
pub open spec fn grouped(strands: Seq<StrandView>) -> Seq<GroupView>
    decreases strands.len(),
{
    if strands.len() == 0 {
        Seq::empty()
    } else {
        with_strand(grouped(strands.drop_last()), strands.last())
    }
}

/// A group that is found stands at the place found and bears the name.
pub proof fn lemma_place_of(groups: Seq<GroupView>, name: Seq<char>)
    ensures
        match place_of(groups, name) {
            Some(at) => {
                &&& 0 <= at < groups.len()
                &&& groups[at].name == name
                &&& forall|before: int|
                    0 <= before < at ==> (#[trigger] groups[before]).name != name
            },
            None => forall|at: int| 0 <= at < groups.len() ==> (#[trigger] groups[at]).name != name,
        },
    decreases groups.len(),
{
    if groups.len() > 0 {
        lemma_place_of(groups.drop_last(), name);
        assert forall|at: int| 0 <= at < groups.len() - 1 implies groups[at]
            == groups.drop_last()[at] by {}
    }
}

/// Sorting a strand in leaves every group with strands of one length.
pub proof fn lemma_with_strand_uniform(groups: Seq<GroupView>, strand: StrandView)
    requires
        forall|i: int| 0 <= i < groups.len() ==> (#[trigger] groups[i]).uniform(),
    ensures
        forall|i: int|
            0 <= i < with_strand(groups, strand).len() ==> (#[trigger] with_strand(
                groups,
                strand,
            )[i]).uniform(),
{
    let after = with_strand(groups, strand);
    let name = match allele_of(strand.header) {
        Some(name) => name,
        None => strand.header,
    };
    lemma_place_of(groups, name);
    assert forall|i: int| 0 <= i < after.len() implies (#[trigger] after[i]).uniform() by {
        if i < groups.len() && after[i] == groups[i] {
            assert(groups[i].uniform());
        } else if i < groups.len() {
            let old_strands = groups[i].strands;
            assert(groups[i].uniform());
            assert forall|k: int| 0 <= k < after[i].strands.len() implies (
            #[trigger] after[i].strands[k]).len() == after[i].strands[0].len() by {
                if k < old_strands.len() && allele_of(strand.header) is Some {
                    assert(after[i].strands[k] == old_strands[k]);
                }
            }
        }
    }
}

/// Every group of a list of strands holds a strand, and strands of one
/// length only.
pub proof fn lemma_grouped_uniform(strands: Seq<StrandView>)
    ensures
        forall|i: int|
            0 <= i < grouped(strands).len() ==> (#[trigger] grouped(strands)[i]).uniform(),
    decreases strands.len(),
{
    if strands.len() > 0 {
        lemma_grouped_uniform(strands.drop_last());
        lemma_with_strand_uniform(grouped(strands.drop_last()), strands.last());
    }
}

/// The first place at which `groups` holds a group called `name`.
fn find_group(groups: &Vec<Group>, name: &String) -> (found: Option<usize>)
    ensures
        match found {
            Some(at) => place_of(group_views(groups@), name@) == Some(at as int) && at
                < groups@.len(),
            None => place_of(group_views(groups@), name@) is None,
        },
{
    let ghost all = group_views(groups@);
    let mut at: usize = 0;
    assert(all.take(0) =~= Seq::<GroupView>::empty());
    while at < groups.len()
        invariant
            at <= groups@.len(),
            all == group_views(groups@),
            place_of(all.take(at as int), name@) is None,
        decreases groups@.len() - at,
    {
        assert(all.take(at + 1).drop_last() =~= all.take(at as int));
        assert(all[at as int] == groups@[at as int]@);
        if groups[at].name == *name {
            proof {
                lemma_place_stays(all, name@, at + 1);
            }
            return Some(at);
        }
        at += 1;
    }
    assert(all.take(groups@.len() as int) =~= all);
    None
}

/// What is found among the first groups is found among all of them.
proof fn lemma_place_stays(groups: Seq<GroupView>, name: Seq<char>, upto: int)
    requires
        0 <= upto <= groups.len(),
        place_of(groups.take(upto), name) is Some,
    ensures
        place_of(groups, name) == place_of(groups.take(upto), name),
    decreases groups.len() - upto,
{
    if upto < groups.len() {
        assert(groups.take(upto + 1).drop_last() =~= groups.take(upto));
        lemma_place_stays(groups, name, upto + 1);
    } else {
        assert(groups.take(upto) =~= groups);
    }
}

/// Sorts strands into groups by name. Groups stand in the order in which
/// their names first occur.
pub fn group(strands: &Vec<Strand>) -> (groups: Vec<Group>)
    ensures
        group_views(groups@) == grouped(strand_views(strands@)),
        forall|i: int| 0 <= i < groups@.len() ==> (#[trigger] groups@[i])@.uniform(),
{
    let ghost all = strand_views(strands@);
    let mut groups: Vec<Group> = Vec::new();
    let mut i: usize = 0;
    assert(all.take(0) =~= Seq::<StrandView>::empty());
    assert(group_views(groups@) =~= grouped(all.take(0)));
    while i < strands.len()
        invariant
            i <= strands@.len(),
            all == strand_views(strands@),
            group_views(groups@) == grouped(all.take(i as int)),
        decreases strands@.len() - i,
    {
        let ghost before = group_views(groups@);
        let ghost strand = strands@[i as int]@;
        assert(all.take(i + 1).drop_last() =~= all.take(i as int));
        assert(all.take(i + 1).last() == strand);
        let header: Vec<char> = chars_of(strands[i].header.as_str());
        let symbols: Vec<char> = copy_chars(&strands[i].symbols, 0, strands[i].symbols.len());
        assert(symbols@ =~= strand.symbols);
        let len: usize = header.len();
        if len >= 2 && header[len - 2] == '_' {
            let name: String = string_of(&header, 0, len - 2);
            assert(allele_of(strand.header) == Some(name@));
            match find_group(&groups, &name) {
                Some(at) => {
                    assert(before[at as int] == groups@[at as int]@);
                    // A strand of another length than the group's is left out.
                    if groups[at].strands.len() == 0 || groups[at].strands[0].len()
                        == symbols.len() {
                        let ghost old_group = groups@[at as int]@;
                        groups[at].strands.push(symbols);
                        proof {
                            lemma_place_of(before, name@);
                            let new_group = GroupView {
                                name: name@,
                                strands: old_group.strands.push(strand.symbols),
                            };
                            assert(groups@[at as int]@.strands =~= new_group.strands);
                            assert(group_views(groups@) =~= before.update(at as int, new_group));
                        }
                    }
                },
                None => {
                    let mut first: Vec<Vec<char>> = Vec::new();
                    first.push(symbols);
                    let opened = Group { name, strands: first };
                    assert(opened@.strands =~= seq![strand.symbols]);
                    groups.push(opened);
                    assert(group_views(groups@) =~= before.push(opened@));
                },
            }
        } else {
            let name: String = strands[i].header.clone();
            assert(allele_of(strand.header) is None);
            let mut only: Vec<Vec<char>> = Vec::new();
            only.push(symbols);
            let alone = Group { name, strands: only };
            assert(alone@.strands =~= seq![strand.symbols]);
            match find_group(&groups, &strands[i].header) {
                Some(at) => {
                    groups.set(at, alone);
                    assert(group_views(groups@) =~= before.update(at as int, alone@));
                },
                None => {
                    groups.push(alone);
                    assert(group_views(groups@) =~= before.push(alone@));
                },
            }
        }
        i += 1;
    }
    assert(all.take(strands@.len() as int) =~= all);
    proof {
        lemma_grouped_uniform(all);
        assert forall|i: int| 0 <= i < groups@.len() implies (#[trigger] groups@[i])@.uniform() by {
            assert(group_views(groups@)[i] == groups@[i]@);
        }
    }
    groups
}

/// The table of ambiguity codes: which code stands for which set of
/// symbols. A set is written as its symbols in ascending order.
#[derive(Debug, PartialEq, Eq, Hash)]
pub struct IupacTable {
    pub entries: Vec<(Vec<char>, char)>,
}

impl View for IupacTable {
    type V = Seq<(Seq<char>, char)>;

    open spec fn view(&self) -> Seq<(Seq<char>, char)> {
        Seq::new(self.entries@.len(), |i: int| (self.entries@[i].0@, self.entries@[i].1))
    }
}

/// The usual codes: a base beside a gap stands for itself, two bases for
/// their two-base code, three for their three-base code.
pub open spec fn standard_entries() -> Seq<(Seq<char>, char)> {
    seq![
        (seq!['-', 'A'], 'A'),
        (seq!['-', 'T'], 'T'),
        (seq!['-', 'G'], 'G'),
        (seq!['-', 'C'], 'C'),
        (seq!['A', 'G'], 'R'),
        (seq!['C', 'T'], 'Y'),
        (seq!['C', 'G'], 'S'),
        (seq!['A', 'T'], 'W'),
        (seq!['G', 'T'], 'K'),
        (seq!['A', 'C'], 'M'),
        (seq!['C', 'G', 'T'], 'B'),
        (seq!['A', 'G', 'T'], 'D'),
        (seq!['A', 'C', 'T'], 'H'),
        (seq!['A', 'C', 'G'], 'V'),
    ]
}

/// The code of the first entry whose set is `key`.
pub open spec fn code_of(entries: Seq<(Seq<char>, char)>, key: Seq<char>) -> Option<char>
    decreases entries.len(),
{
    if entries.len() == 0 {
        None
    } else {
        match code_of(entries.drop_last(), key) {
            Some(code) => Some(code),
            None => if entries.last().0 == key {
                Some(entries.last().1)
            } else {
                None
            },
        }
    }
}

/// `key` with `c` put at its place in ascending order, unless it is there
/// already.
pub open spec fn inserted(key: Seq<char>, c: char) -> Seq<char>
    decreases key.len(),
{
    if key.len() == 0 {
        seq![c]
    } else if key.last() == c {
        key
    } else if key.last() < c {
        key.push(c)
    } else {
        inserted(key.drop_last(), c).push(key.last())
    }
}

/// The distinct symbols of a column, in ascending order.
pub open spec fn variants_of(column: Seq<char>) -> Seq<char>
    decreases column.len(),
{
    if column.len() == 0 {
        Seq::empty()
    } else {
        inserted(variants_of(column.drop_last()), column.last())
    }
}

/// Whether the symbols stand in strictly ascending order.
pub open spec fn ascending(key: Seq<char>) -> bool {
    forall|i: int, j: int| 0 <= i < j < key.len() ==> key[i] < key[j]
}

/// What a column is called: its symbol where all strands agree; `N` where
/// they disagree and one of them says `N`; else the code that the table has
/// for its symbols; else the symbols themselves in square brackets.
pub open spec fn call_of(variants: Seq<char>, entries: Seq<(Seq<char>, char)>) -> Seq<char> {
    if variants.len() == 1 {
        variants
    } else if variants.contains('N') {
        seq!['N']
    } else {
        match code_of(entries, variants) {
            Some(code) => seq![code],
            None => seq!['['] + variants + seq![']'],
        }
    }
}

/// Column `i` of the strands: what each strand holds at position `i`.
pub open spec fn column_of(strands: Seq<Seq<char>>, i: int) -> Seq<char> {
    Seq::new(strands.len(), |k: int| strands[k][i])
}

/// The calls of the first `upto` columns, one after the other.
pub open spec fn merged_upto(
    strands: Seq<Seq<char>>,
    entries: Seq<(Seq<char>, char)>,
    upto: int,
) -> Seq<char>
    decreases upto,
{
    if upto <= 0 {
        Seq::empty()
    } else {
        merged_upto(strands, entries, upto - 1) + call_of(
            variants_of(column_of(strands, upto - 1)),
            entries,
        )
    }
}

/// Where to put a symbol: behind everything smaller, before everything
/// greater.
proof fn lemma_inserted_at(key: Seq<char>, c: char, at: int)
    requires
        0 <= at <= key.len(),
        forall|k: int| at <= k < key.len() ==> key[k] > c,
        at > 0 ==> key[at - 1] <= c,
    ensures
        inserted(key, c) == (if at > 0 && key[at - 1] == c {
            key
        } else {
            key.insert(at, c)
        }),
    decreases key.len(),
{
    if key.len() == 0 {
        assert(key.insert(0, c) =~= seq![c]);
    } else if at == key.len() {
        if key.last() < c {
            assert(key.insert(at, c) =~= key.push(c));
        }
    } else {
        let shorter = key.drop_last();
        lemma_inserted_at(shorter, c, at);
        if at > 0 && key[at - 1] == c {
            assert(shorter.push(key.last()) =~= key);
        } else {
            assert(shorter.insert(at, c).push(key.last()) =~= key.insert(at, c));
        }
    }
}

/// Putting a symbol in keeps the order, and adds that symbol and no other.
pub proof fn lemma_inserted(key: Seq<char>, c: char)
    requires
        ascending(key),
    ensures
        ascending(inserted(key, c)),
        inserted(key, c).contains(c),
        forall|x: char| #[trigger] inserted(key, c).contains(x) ==> key.contains(x) || x == c,
        forall|x: char| #[trigger] key.contains(x) ==> inserted(key, c).contains(x),
    decreases key.len(),
{
    let after = inserted(key, c);
    if key.len() == 0 {
        assert(after[0] == c);
    } else if key.last() == c {
        assert(key[key.len() - 1] == c);
    } else if key.last() < c {
        assert(after[key.len() as int] == c);
        assert forall|x: char| #[trigger] key.contains(x) implies after.contains(x) by {
            let at = choose|at: int| 0 <= at < key.len() && key[at] == x;
            assert(after[at] == x);
        }
        assert forall|x: char| #[trigger] after.contains(x) implies key.contains(x) || x == c by {
            let at = choose|at: int| 0 <= at < after.len() && after[at] == x;
            if at < key.len() {
                assert(key[at] == x);
            }
        }
    } else {
        let shorter = key.drop_last();
        let inner = inserted(shorter, c);
        assert forall|i: int, j: int| 0 <= i < j < shorter.len() implies shorter[i]
            < shorter[j] by {
            assert(key[i] < key[j]);
        }
        lemma_inserted(shorter, c);
        assert(after =~= inner.push(key.last()));
        assert forall|i: int, j: int| 0 <= i < j < after.len() implies after[i] < after[j] by {
            if j == inner.len() {
                assert(inner.contains(inner[i]));
                if inner[i] != c {
                    assert(shorter.contains(inner[i]));
                    let at = choose|at: int| 0 <= at < shorter.len() && shorter[at] == inner[i];
                    assert(key[at] < key[key.len() - 1]);
                }
            } else {
                assert(inner[i] < inner[j]);
            }
        }
        assert(inner.contains(c));
        let at_c = choose|at: int| 0 <= at < inner.len() && inner[at] == c;
        assert(after[at_c] == c);
        assert forall|x: char| #[trigger] key.contains(x) implies after.contains(x) by {
            let at = choose|at: int| 0 <= at < key.len() && key[at] == x;
            if at < shorter.len() {
                assert(shorter[at] == x);
                assert(shorter.contains(x));
                assert(inner.contains(x));
                let to = choose|to: int| 0 <= to < inner.len() && inner[to] == x;
                assert(after[to] == x);
            } else {
                assert(after[inner.len() as int] == x);
            }
        }
        assert forall|x: char| #[trigger] after.contains(x) implies key.contains(x) || x == c by {
            let at = choose|at: int| 0 <= at < after.len() && after[at] == x;
            if at < inner.len() {
                assert(inner[at] == x);
                assert(inner.contains(x));
                if x != c {
                    assert(shorter.contains(x));
                    let from = choose|from: int| 0 <= from < shorter.len() && shorter[from] == x;
                    assert(key[from] == x);
                }
            } else {
                assert(key[key.len() - 1] == x);
            }
        }
    }
}

/// The variants of a column are its symbols, each once, in ascending order.
pub proof fn lemma_variants_of(column: Seq<char>)
    ensures
        ascending(variants_of(column)),
        forall|x: char| #[trigger] variants_of(column).contains(x) ==> column.contains(x),
        forall|x: char| #[trigger] column.contains(x) ==> variants_of(column).contains(x),
    decreases column.len(),
{
    if column.len() > 0 {
        let shorter = column.drop_last();
        lemma_variants_of(shorter);
        lemma_inserted(variants_of(shorter), column.last());
        assert(column[column.len() - 1] == column.last());
        assert forall|x: char| #[trigger] variants_of(column).contains(x) implies column.contains(
            x,
        ) by {
            if x != column.last() {
                assert(variants_of(shorter).contains(x));
                assert(shorter.contains(x));
                let at = choose|at: int| 0 <= at < shorter.len() && shorter[at] == x;
                assert(column[at] == x);
            }
        }
        assert forall|x: char| #[trigger] column.contains(x) implies variants_of(column).contains(
            x,
        ) by {
            let at = choose|at: int| 0 <= at < column.len() && column[at] == x;
            if at < shorter.len() {
                assert(shorter[at] == x);
                assert(shorter.contains(x));
                assert(variants_of(shorter).contains(x));
            }
        }
    }
}

/// Whether two lists of symbols are the same.
fn same_symbols(a: &Vec<char>, b: &Vec<char>) -> (same: bool)
    ensures
        same == (a@ == b@),
{
    if a.len() != b.len() {
        return false;
    }
    let mut i: usize = 0;
    while i < a.len()
        invariant
            i <= a@.len(),
            a@.len() == b@.len(),
            forall|k: int| 0 <= k < i ==> a@[k] == b@[k],
        decreases a@.len() - i,
    {
        if a[i] != b[i] {
            return false;
        }
        i += 1;
    }
    assert(a@ =~= b@);
    true
}

/// Collects the distinct symbols of a column in ascending order.
fn variants(column: &Vec<char>) -> (key: Vec<char>)
    ensures
        key@ == variants_of(column@),
{
    let mut key: Vec<char> = Vec::new();
    let mut i: usize = 0;
    assert(column@.take(0) =~= Seq::<char>::empty());
    while i < column.len()
        invariant
            i <= column@.len(),
            key@ == variants_of(column@.take(i as int)),
        decreases column@.len() - i,
    {
        let c: char = column[i];
        assert(column@.take(i + 1).drop_last() =~= column@.take(i as int));
        let mut at: usize = key.len();
        while at > 0 && key[at - 1] > c
            invariant
                at <= key@.len(),
                forall|k: int| at <= k < key@.len() ==> key@[k] > c,
            decreases at,
        {
            at -= 1;
        }
        proof {
            lemma_inserted_at(key@, c, at as int);
        }
        if at == 0 || key[at - 1] != c {
            key.insert(at, c);
        }
        i += 1;
    }
    assert(column@.take(column@.len() as int) =~= column@);
    key
}

impl IupacTable {
    /// The table of the usual codes.
    pub fn standard() -> (table: IupacTable)
        ensures
            table@ == standard_entries(),
    {
        let mut entries: Vec<(Vec<char>, char)> = Vec::new();
        entries.push((vec!['-', 'A'], 'A'));
        entries.push((vec!['-', 'T'], 'T'));
        entries.push((vec!['-', 'G'], 'G'));
        entries.push((vec!['-', 'C'], 'C'));
        entries.push((vec!['A', 'G'], 'R'));
        entries.push((vec!['C', 'T'], 'Y'));
        entries.push((vec!['C', 'G'], 'S'));
        entries.push((vec!['A', 'T'], 'W'));
        entries.push((vec!['G', 'T'], 'K'));
        entries.push((vec!['A', 'C'], 'M'));
        entries.push((vec!['C', 'G', 'T'], 'B'));
        entries.push((vec!['A', 'G', 'T'], 'D'));
        entries.push((vec!['A', 'C', 'T'], 'H'));
        entries.push((vec!['A', 'C', 'G'], 'V'));
        let table = IupacTable { entries };
        assert(table@ =~= standard_entries());
        table
    }

    /// The code that the table has for a set of symbols.
    pub fn lookup(&self, key: &Vec<char>) -> (code: Option<char>)
        ensures
            code == code_of(self@, key@),
    {
        let ghost all = self@;
        let mut i: usize = 0;
        assert(all.take(0) =~= Seq::<(Seq<char>, char)>::empty());
        while i < self.entries.len()
            invariant
                i <= self.entries@.len(),
                all == self@,
                code_of(all.take(i as int), key@) is None,
            decreases self.entries@.len() - i,
        {
            assert(all.take(i + 1).drop_last() =~= all.take(i as int));
            if same_symbols(&self.entries[i].0, key) {
                proof {
                    lemma_code_stays(all, key@, i + 1);
                }
                return Some(self.entries[i].1);
            }
            i += 1;
        }
        assert(all.take(self.entries@.len() as int) =~= all);
        None
    }
}

/// What is found among the first entries is found among all of them.
proof fn lemma_code_stays(entries: Seq<(Seq<char>, char)>, key: Seq<char>, upto: int)
    requires
        0 <= upto <= entries.len(),
        code_of(entries.take(upto), key) is Some,
    ensures
        code_of(entries, key) == code_of(entries.take(upto), key),
    decreases entries.len() - upto,
{
    if upto < entries.len() {
        assert(entries.take(upto + 1).drop_last() =~= entries.take(upto));
        lemma_code_stays(entries, key, upto + 1);
    } else {
        assert(entries.take(upto) =~= entries);
    }
}

/// Calls one column.
pub fn merge_column(column: &Vec<char>, table: &IupacTable) -> (call: Vec<char>)
    ensures
        call@ == call_of(variants_of(column@), table@),
{
    let key: Vec<char> = variants(column);
    if key.len() == 1 {
        return key;
    }
    let mut i: usize = 0;
    while i < key.len()
        invariant
            i <= key@.len(),
            key@ == variants_of(column@),
            key@.len() != 1,
            forall|k: int| 0 <= k < i ==> key@[k] != 'N',
        decreases key@.len() - i,
    {
        if key[i] == 'N' {
            let call: Vec<char> = vec!['N'];
            assert(call@ =~= seq!['N']);
            assert(key@[i as int] == 'N');
            assert(key@.contains('N'));
            return call;
        }
        i += 1;
    }
    assert(!key@.contains('N'));
    match table.lookup(&key) {
        Some(code) => {
            let call: Vec<char> = vec![code];
            assert(call@ =~= seq![code]);
            call
        },
        None => {
            let mut call: Vec<char> = Vec::new();
            call.push('[');
            let mut k: usize = 0;
            while k < key.len()
                invariant
                    k <= key@.len(),
                    call@ == seq!['['] + key@.take(k as int),
                decreases key@.len() - k,
            {
                call.push(key[k]);
                assert(call@ =~= seq!['['] + key@.take(k + 1));
                k += 1;
            }
            call.push(']');
            assert(key@.take(key@.len() as int) =~= key@);
            assert(call@ =~= seq!['['] + key@ + seq![']']);
            call
        },
    }
}

/// Merges the strands of a group into one line: every column is called, and
/// the calls are put one after the other. The first strand says how many
/// columns there are.
pub fn merge(group: &Group, table: &IupacTable) -> (line: Vec<char>)
    requires
        group@.uniform(),
    ensures
        line@ == merged_upto(group@.strands, table@, group@.strands[0].len() as int),
{
    let ghost strands = group@.strands;
    let width: usize = group.strands[0].len();
    assert(strands[0] == group.strands@[0]@);
    let mut line: Vec<char> = Vec::new();
    let mut i: usize = 0;
    while i < width
        invariant
            i <= width,
            width == strands[0].len(),
            strands == group@.strands,
            group@.uniform(),
            line@ == merged_upto(strands, table@, i as int),
        decreases width - i,
    {
        let mut column: Vec<char> = Vec::new();
        let mut k: usize = 0;
        while k < group.strands.len()
            invariant
                k <= group.strands@.len(),
                i < width,
                width == strands[0].len(),
                strands == group@.strands,
                group@.uniform(),
                column@ == column_of(strands, i as int).take(k as int),
            decreases group.strands@.len() - k,
        {
            assert(strands[k as int] == group.strands@[k as int]@);
            assert(strands[k as int].len() == strands[0].len());
            column.push(group.strands[k][i]);
            assert(column@ =~= column_of(strands, i as int).take(k + 1));
            k += 1;
        }
        assert(column@ =~= column_of(strands, i as int));
        let mut call: Vec<char> = merge_column(&column, table);
        line.append(&mut call);
        i += 1;
    }
    line
}

/// The record of one merged group: a `>`, the name, and on the next line
/// the merged strands.
pub open spec fn merged_record(group: GroupView, entries: Seq<(Seq<char>, char)>) -> Seq<char> {
    seq!['>'] + group.name + seq!['\n'] + merged_upto(
        group.strands,
        entries,
        group.strands[0].len() as int,
    ) + seq!['\n']
}

/// The records of the merged groups, one after the other.
pub open spec fn merged_text(groups: Seq<GroupView>, entries: Seq<(Seq<char>, char)>) -> Seq<char>
    decreases groups.len(),
{
    if groups.len() == 0 {
        Seq::empty()
    } else {
        merged_text(groups.drop_last(), entries) + merged_record(groups.last(), entries)
    }
}

/// Appends the merged record of every group to `fasta`, in order.
pub fn write_merged(fasta: &mut String, groups: &Vec<Group>, table: &IupacTable)
    requires
        forall|i: int| 0 <= i < groups@.len() ==> (#[trigger] groups@[i])@.uniform(),
    ensures
        final(fasta)@ == old(fasta)@ + merged_text(group_views(groups@), table@),
{
    let ghost all = group_views(groups@);
    let mut i: usize = 0;
    assert(all.take(0) =~= Seq::<GroupView>::empty());
    assert(fasta@ =~= old(fasta)@ + merged_text(all.take(0), table@));
    while i < groups.len()
        invariant
            i <= groups@.len(),
            all == group_views(groups@),
            forall|k: int| 0 <= k < groups@.len() ==> (#[trigger] groups@[k])@.uniform(),
            fasta@ == old(fasta)@ + merged_text(all.take(i as int), table@),
        decreases groups@.len() - i,
    {
        let ghost before = fasta@;
        assert(all.take(i + 1).drop_last() =~= all.take(i as int));
        assert(all.take(i + 1).last() == groups@[i as int]@);
        assert(groups@[i as int]@.uniform());
        let line: Vec<char> = merge(&groups[i], table);
        fasta.push('>');
        fasta.append(groups[i].name.as_str());
        fasta.push('\n');
        let ghost head = fasta@;
        let mut k: usize = 0;
        while k < line.len()
            invariant
                k <= line@.len(),
                fasta@ == head + line@.take(k as int),
            decreases line@.len() - k,
        {
            fasta.push(line[k]);
            assert(fasta@ =~= head + line@.take(k + 1));
            k += 1;
        }
        fasta.push('\n');
        assert(line@.take(line@.len() as int) =~= line@);
        assert(fasta@ =~= before + merged_record(groups@[i as int]@, table@));
        i += 1;
    }
    assert(all.take(groups@.len() as int) =~= all);
}

} // verus!
