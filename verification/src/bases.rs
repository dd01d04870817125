//! The sequence model: bases, sequences of bases, and the operations on
//! them, with the laws that tie decoding, spelling and complementing together.

use crate::error::SeqError;
use vstd::prelude::*;

verus! {

/// One nucleotide symbol: adenine, thymine, guanine, cytosine, or `N` for a
/// position whose base is unknown.
#[derive(Clone, Copy, Debug, PartialEq, Eq, Structural, Hash)]
pub enum Base {
    A,
    T,
    G,
    C,
    N,
}

impl Base {
    /// The base that pairs with `self` on the opposite strand.
    pub open spec fn spec_complement(self) -> Base {
        match self {
            Base::A => Base::T,
            Base::T => Base::A,
            Base::G => Base::C,
            Base::C => Base::G,
            Base::N => Base::N,
        }
    }

    /// The upper-case letter that stands for `self`.
    pub open spec fn spec_to_char(self) -> char {
        match self {
            Base::A => 'A',
            Base::T => 'T',
            Base::G => 'G',
            Base::C => 'C',
            Base::N => 'N',
        }
    }

    /// The base a letter stands for, in either case; `None` for every other
    /// character.
    pub open spec fn spec_from_char(c: char) -> Option<Base> {
        if c == 'A' || c == 'a' {
            Some(Base::A)
        } else if c == 'T' || c == 't' {
            Some(Base::T)
        } else if c == 'G' || c == 'g' {
            Some(Base::G)
        } else if c == 'C' || c == 'c' {
            Some(Base::C)
        } else if c == 'N' || c == 'n' {
            Some(Base::N)
        } else {
            None
        }
    }

    /// The base that pairs with `self` on the opposite strand. Doing this
    /// twice gives `self` back.
    #[verifier::when_used_as_spec(spec_complement)]
    pub fn complement(self) -> (c: Base)
        ensures
            c == self.spec_complement(),
            c.spec_complement() == self,
    {
        match self {
            Base::A => Base::T,
            Base::T => Base::A,
            Base::G => Base::C,
            Base::C => Base::G,
            Base::N => Base::N,
        }
    }

    /// The upper-case letter that stands for `self`; reading it gives `self`
    /// back.
    #[verifier::when_used_as_spec(spec_to_char)]
    pub fn to_char(self) -> (c: char)
        ensures
            c == self.spec_to_char(),
            Base::spec_from_char(c) == Some(self),
    {
        match self {
            Base::A => 'A',
            Base::T => 'T',
            Base::G => 'G',
            Base::C => 'C',
            Base::N => 'N',
        }
    }

    /// Reads one letter, case-insensitively.
    #[verifier::when_used_as_spec(spec_from_char)]
    pub fn from_char(c: char) -> (b: Option<Base>)
        ensures
            b == Base::spec_from_char(c),
    {
        if c == 'A' || c == 'a' {
            Some(Base::A)
        } else if c == 'T' || c == 't' {
            Some(Base::T)
        } else if c == 'G' || c == 'g' {
            Some(Base::G)
        } else if c == 'C' || c == 'c' {
            Some(Base::C)
        } else if c == 'N' || c == 'n' {
            Some(Base::N)
        } else {
            None
        }
    }
}

/// Whether `c` is one of the ten letters `AaTtGgCcNn`.
pub open spec fn is_symbol(c: char) -> bool {
    Base::spec_from_char(c) is Some
}

/// Whether every character of `text` is a letter of the alphabet.
pub open spec fn is_alphabet(text: Seq<char>) -> bool {
    forall|i: int| 0 <= i < text.len() ==> is_symbol(#[trigger] text[i])
}

/// The bases that the letters of `text` stand for, position by position.
pub open spec fn decoded(text: Seq<char>) -> Seq<Base> {
    Seq::new(text.len(), |i: int| Base::spec_from_char(text[i])->0)
}

/// The canonical upper-case spelling of a sequence.
pub open spec fn encoded(bases: Seq<Base>) -> Seq<char> {
    Seq::new(bases.len(), |i: int| bases[i].spec_to_char())
}

/// The opposite strand read in its own direction: the order is reversed and
/// every base is complemented.
pub open spec fn reverse_complemented(bases: Seq<Base>) -> Seq<Base> {
    Seq::new(bases.len(), |i: int| bases[bases.len() - 1 - i].spec_complement())
}

/// The upper-case twin of a lower-case ASCII letter; every other character
/// is left as it is.
pub open spec fn to_upper(c: char) -> char {
    if 'a' <= c <= 'z' {
        ((c as u32) - 32) as char
    } else {
        c
    }
}

/// `text` with every lower-case ASCII letter replaced by its upper-case twin.
pub open spec fn upper_cased(text: Seq<char>) -> Seq<char> {
    Seq::new(text.len(), |i: int| to_upper(text[i]))
}

/// Complementing a base twice gives the base back.
pub proof fn lemma_complement_involution(b: Base)
    ensures
        b.spec_complement().spec_complement() == b,
{
}

/// Taking the reverse complement twice gives the sequence back.
pub proof fn lemma_reverse_complement_involution(bases: Seq<Base>)
    ensures
        reverse_complemented(reverse_complemented(bases)) == bases,
{
    assert(reverse_complemented(reverse_complemented(bases)) =~= bases);
}

/// Decoding text over the alphabet and spelling the result out again gives
/// the text in upper case.
pub proof fn lemma_decode_round_trip(text: Seq<char>)
    requires
        is_alphabet(text),
    ensures
        encoded(decoded(text)) == upper_cased(text),
{
    assert forall|i: int| 0 <= i < text.len() implies encoded(decoded(text))[i] == upper_cased(
        text,
    )[i] by {
        assert(is_symbol(text[i]));
    }
    assert(encoded(decoded(text)) =~= upper_cased(text));
}

/// Spelling a sequence out gives text over the alphabet, and decoding that
/// text gives the sequence back.
pub proof fn lemma_encode_round_trip(bases: Seq<Base>)
    ensures
        is_alphabet(encoded(bases)),
        decoded(encoded(bases)) == bases,
{
    assert(decoded(encoded(bases)) =~= bases);
}

/// An ordered run of bases: a read, a barcode, or an anchor.
#[derive(Debug, PartialEq, Eq, Hash)]
pub struct Bases {
    pub bases: Vec<Base>,
}

impl View for Bases {
    type V = Seq<Base>;

    open spec fn view(&self) -> Seq<Base> {
        self.bases@
    }
}

impl Clone for Bases {
    fn clone(&self) -> (copy: Bases)
        ensures
            copy@ == self@,
    {
        let copy = Bases { bases: self.bases.clone() };
        assert(copy@ =~= self@);
        copy
    }
}

impl Bases {
    /// Wraps a list of bases.
    pub fn new(bases: Vec<Base>) -> (made: Bases)
        ensures
            made@ == bases@,
    {
        Bases { bases }
    }

    /// Decodes `text` letter by letter, ignoring case. Fails on the first
    /// character outside the alphabet and then yields no sequence at all.
    pub fn decode(text: &str) -> (decoding: Result<Bases, SeqError>)
        ensures
            match decoding {
                Ok(made) => is_alphabet(text@) && made@ == decoded(text@),
                Err(e) => e == SeqError::InvalidSymbol && !is_alphabet(text@),
            },
    {
        let mut bases: Vec<Base> = Vec::new();
        for c in it: text.chars()
            invariant
                it.seq() == text@,
                bases@ == decoded(text@.take(it.index() as int)),
                is_alphabet(text@.take(it.index() as int)),
        {
            let ghost done = it.index() as int;
            match Base::from_char(c) {
                Some(b) => {
                    bases.push(b);
                    assert(text@.take(done + 1) =~= text@.take(done).push(c));
                    assert(bases@ =~= decoded(text@.take(done + 1)));
                },
                None => {
                    assert(!is_symbol(text@[done]));
                    return Err(SeqError::InvalidSymbol);
                },
            }
        }
        assert(text@.take(text@.len() as int) =~= text@);
        Ok(Bases { bases })
    }

    /// Builds a sequence from text that is known to hold only `AaTtGgCcNn`.
    /// Any other text is outside the contract: a caller that has not checked
    /// its text calls `decode`.
    pub fn from_str(bases: &str) -> (made: Bases)
        requires
            is_alphabet(bases@),
        ensures
            made@ == decoded(bases@),
    {
        match Bases::decode(bases) {
            Ok(made) => made,
            Err(_) => vstd::pervasive::unreached(),
        }
    }

    /// Structural equality: same length and the same base at every position.
    pub fn equals(&self, other: &Bases) -> (same: bool)
        ensures
            same == (self@ == other@),
    {
        if self.bases.len() != other.bases.len() {
            return false;
        }
        let mut i: usize = 0;
        while i < self.bases.len()
            invariant
                i <= self.bases.len(),
                self.bases.len() == other.bases.len(),
                forall|k: int| 0 <= k < i ==> self@[k] == other@[k],
            decreases self.bases.len() - i,
        {
            if self.bases[i] != other.bases[i] {
                return false;
            }
            i += 1;
        }
        assert(self@ =~= other@);
        true
    }

    /// The canonical upper-case spelling of the sequence.
    pub fn as_string(&self) -> (text: String)
        ensures
            text@ == encoded(self@),
    {
        let mut text = String::new();
        let mut i: usize = 0;
        while i < self.bases.len()
            invariant
                i <= self.bases.len(),
                text@ == encoded(self@.take(i as int)),
            decreases self.bases.len() - i,
        {
            text.push(self.bases[i].to_char());
            assert(self@.take(i + 1) =~= self@.take(i as int).push(self@[i as int]));
            assert(text@ =~= encoded(self@.take(i + 1)));
            i += 1;
        }
        assert(self@.take(self@.len() as int) =~= self@);
        text
    }

    /// The number of bases.
    pub fn len(&self) -> (n: usize)
        ensures
            n == self@.len(),
    {
        self.bases.len()
    }

    /// The first `n` bases.
    pub fn head(&self, n: usize) -> (first: Bases)
        requires
            n <= self@.len(),
        ensures
            first@ == self@.take(n as int),
    {
        Bases { bases: copy_range(&self.bases, 0, n) }
    }

    /// The last `n` bases.
    pub fn tail(&self, n: usize) -> (last: Bases)
        requires
            n <= self@.len(),
        ensures
            last@ == self@.skip(self@.len() - n),
    {
        let len: usize = self.bases.len();
        Bases { bases: copy_range(&self.bases, len - n, len) }
    }

    /// The first `n` bases, or `LengthMismatch` when the sequence is shorter
    /// than `n`.
    pub fn checked_head(&self, n: usize) -> (first: Result<Bases, SeqError>)
        ensures
            match first {
                Ok(part) => n <= self@.len() && part@ == self@.take(n as int),
                Err(e) => n > self@.len() && e == SeqError::LengthMismatch,
            },
    {
        if n <= self.bases.len() {
            Ok(self.head(n))
        } else {
            Err(SeqError::LengthMismatch)
        }
    }

    /// The last `n` bases, or `LengthMismatch` when the sequence is shorter
    /// than `n`.
    pub fn checked_tail(&self, n: usize) -> (last: Result<Bases, SeqError>)
        ensures
            match last {
                Ok(part) => n <= self@.len() && part@ == self@.skip(self@.len() - n),
                Err(e) => n > self@.len() && e == SeqError::LengthMismatch,
            },
    {
        if n <= self.bases.len() {
            Ok(self.tail(n))
        } else {
            Err(SeqError::LengthMismatch)
        }
    }

    /// Turns the sequence into its reverse complement, in place.
    pub fn reverse_complement(&mut self)
        ensures
            final(self)@ == reverse_complemented(old(self)@),
    {
        let n: usize = self.bases.len();
        let half: usize = n / 2;
        let mut i: usize = 0;
        while i < half
            invariant
                n == old(self)@.len(),
                self@.len() == n,
                half == n / 2,
                i <= half,
                forall|k: int|
                    0 <= k < i ==> self@[k] == (#[trigger] old(self)@[n - 1 - k]).spec_complement(),
                forall|k: int|
                    n - i <= k < n ==> #[trigger] self@[k] == old(self)@[n - 1
                        - k].spec_complement(),
                forall|k: int| i <= k < n - i ==> #[trigger] self@[k] == old(self)@[k],
            decreases half - i,
        {
            let left: Base = self.bases[i];
            let right: Base = self.bases[n - 1 - i];
            self.bases.set(i, right.complement());
            self.bases.set(n - 1 - i, left.complement());
            i += 1;
        }
        if n % 2 == 1 {
            let middle: Base = self.bases[half];
            self.bases.set(half, middle.complement());
        }
        assert(self@ =~= reverse_complemented(old(self)@));
    }

    /// `self` followed by the bases of `other`.
    pub fn concat(self, other: &Bases) -> (joined: Bases)
        ensures
            joined@ == self@ + other@,
    {
        let mut bases: Vec<Base> = self.bases;
        let mut i: usize = 0;
        while i < other.bases.len()
            invariant
                i <= other.bases.len(),
                bases@ == self@ + other@.take(i as int),
            decreases other.bases.len() - i,
        {
            bases.push(other.bases[i]);
            assert(other@.take(i + 1) =~= other@.take(i as int).push(other@[i as int]));
            assert(bases@ =~= self@ + other@.take(i + 1));
            i += 1;
        }
        assert(other@.take(other@.len() as int) =~= other@);
        Bases { bases }
    }
}

impl core::ops::Add<&Bases> for Bases {
    type Output = Bases;

    /// `self` followed by the bases of `rhs`.
    fn add(self, rhs: &Bases) -> (joined: Bases)
        ensures
            joined@ == self@ + rhs@,
    {
        self.concat(rhs)
    }
}

/// What `+` yields is stated by the `ensures` of `add`, over views; no value
/// of `Bases` is singled out for it in specifications.
impl vstd::std_specs::ops::AddSpecImpl<&Bases> for Bases {
    open spec fn obeys_add_spec() -> bool {
        false
    }

    open spec fn add_req(self, rhs: &Bases) -> bool {
        true
    }

    open spec fn add_spec(self, rhs: &Bases) -> Bases {
        vstd::pervasive::arbitrary()
    }
}

/// Decodes `chars[from..to]`, or reports that a character in it is outside
/// the alphabet.
pub fn decode_range(chars: &Vec<char>, from: usize, to: usize) -> (decoding: Option<Bases>)
    requires
        from <= to <= chars@.len(),
    ensures
        match decoding {
            Some(made) => {
                &&& is_alphabet(chars@.subrange(from as int, to as int))
                &&& made@ == decoded(chars@.subrange(from as int, to as int))
            },
            None => !is_alphabet(chars@.subrange(from as int, to as int)),
        },
{
    let ghost line = chars@.subrange(from as int, to as int);
    let mut bases: Vec<Base> = Vec::new();
    let mut i: usize = from;
    while i < to
        invariant
            from <= i <= to <= chars@.len(),
            line == chars@.subrange(from as int, to as int),
            bases@ == decoded(line.take(i - from)),
            is_alphabet(line.take(i - from)),
        decreases to - i,
    {
        match Base::from_char(chars[i]) {
            Some(b) => {
                bases.push(b);
                assert(line.take(i + 1 - from) =~= line.take(i - from).push(chars@[i as int]));
                assert(bases@ =~= decoded(line.take(i + 1 - from)));
            },
            None => {
                assert(line[i - from] == chars@[i as int]);
                return None;
            },
        }
        i += 1;
    }
    assert(line.take(to - from) =~= line);
    Some(Bases { bases })
}

/// A fresh vector holding `source[from..to]`.
fn copy_range(source: &Vec<Base>, from: usize, to: usize) -> (part: Vec<Base>)
    requires
        from <= to <= source@.len(),
    ensures
        part@ == source@.subrange(from as int, to as int),
{
    let mut part: Vec<Base> = Vec::new();
    let mut i: usize = from;
    while i < to
        invariant
            from <= i <= to <= source@.len(),
            part@ == source@.subrange(from as int, i as int),
        decreases to - i,
    {
        part.push(source[i]);
        assert(part@ =~= source@.subrange(from as int, i + 1));
        i += 1;
    }
    part
}

} // verus!
