//! Search for one run of bases inside another.

use crate::bases::{Base, Bases};
use vstd::prelude::*;

verus! {

/// Whether `needle` stands in `haystack` from position `at` on.
pub open spec fn occurs_at(haystack: Seq<Base>, needle: Seq<Base>, at: int) -> bool {
    &&& 0 <= at
    &&& at + needle.len() <= haystack.len()
    &&& haystack.subrange(at, at + needle.len()) == needle
}

/// Whether `at` is the lowest position at which `needle` stands in
/// `haystack`.
pub open spec fn is_first_occurrence(haystack: Seq<Base>, needle: Seq<Base>, at: int) -> bool {
    &&& occurs_at(haystack, needle, at)
    &&& forall|before: int| 0 <= before < at ==> !occurs_at(haystack, needle, before)
}

/// The lowest position at which `needle` stands in `haystack`, if it occurs
/// at all.
pub open spec fn first_occurrence(haystack: Seq<Base>, needle: Seq<Base>) -> Option<int> {
    if exists|at: int| is_first_occurrence(haystack, needle, at) {
        Some(choose|at: int| is_first_occurrence(haystack, needle, at))
    } else {
        None
    }
}

/// There is only one lowest position.
pub proof fn lemma_first_occurrence_is(haystack: Seq<Base>, needle: Seq<Base>, at: int)
    requires
        is_first_occurrence(haystack, needle, at),
    ensures
        first_occurrence(haystack, needle) == Some(at),
{
    let chosen = choose|at: int| is_first_occurrence(haystack, needle, at);
    assert(is_first_occurrence(haystack, needle, chosen));
    if chosen < at {
        assert(!occurs_at(haystack, needle, chosen));
    }
    if at < chosen {
        assert(!occurs_at(haystack, needle, at));
    }
}

/// The first occurrence is an occurrence, and the lowest.
pub proof fn lemma_first_occurrence_occurs(haystack: Seq<Base>, needle: Seq<Base>)
    requires
        first_occurrence(haystack, needle) is Some,
    ensures
        is_first_occurrence(haystack, needle, first_occurrence(haystack, needle)->0),
{
}

/// Where the needle occurs nowhere, there is no first occurrence.
pub proof fn lemma_no_occurrence(haystack: Seq<Base>, needle: Seq<Base>)
    requires
        forall|at: int| !occurs_at(haystack, needle, at),
    ensures
        first_occurrence(haystack, needle) is None,
{
}

/// Where there is no first occurrence, the needle occurs nowhere.
pub proof fn lemma_absent_everywhere(haystack: Seq<Base>, needle: Seq<Base>, at: int)
    requires
        first_occurrence(haystack, needle) is None,
    ensures
        !occurs_at(haystack, needle, at),
    decreases at,
{
    if occurs_at(haystack, needle, at) {
        if exists|before: int| 0 <= before < at && occurs_at(haystack, needle, before) {
            let before = choose|before: int|
                0 <= before < at && occurs_at(haystack, needle, before);
            lemma_absent_everywhere(haystack, needle, before);
        } else {
            assert(is_first_occurrence(haystack, needle, at));
        }
    }
}

/// What has a length.
pub trait Length {
    spec fn spec_len(&self) -> nat;

    fn len(&self) -> (n: usize)
        ensures
            n == self.spec_len(),
    ;
}

impl<T> Length for Vec<T> {
    open spec fn spec_len(&self) -> nat {
        self@.len()
    }

    fn len(&self) -> (n: usize) {
        Vec::len(self)
    }
}

impl<T> Length for [T] {
    open spec fn spec_len(&self) -> nat {
        self@.len()
    }

    fn len(&self) -> (n: usize) {
        <[T]>::len(self)
    }
}

/// Search for a contiguous run inside `self`.
pub trait Find<T: ?Sized> {
    /// The lowest position at which `to_find` stands in `self`, if any.
    spec fn position(&self, to_find: &T) -> Option<int>;

    /// Scans from the left and returns the lowest position at which
    /// `to_find` stands in `self`, or `None` where it stands nowhere.
    fn find(&self, to_find: &T) -> (found: Option<usize>)
        ensures
            match found {
                Some(at) => self.position(to_find) == Some(at as int),
                None => self.position(to_find) is None,
            },
    ;
}

/// The search itself, on slices of bases.
pub fn find_in(haystack: &[Base], needle: &[Base]) -> (found: Option<usize>)
    ensures
        match found {
            Some(at) => first_occurrence(haystack@, needle@) == Some(at as int),
            None => first_occurrence(haystack@, needle@) is None,
        },
{
    let n: usize = haystack.len();
    let m: usize = needle.len();
    if m > n {
        proof {
            lemma_no_occurrence(haystack@, needle@);
        }
        return None;
    }
    let last: usize = n - m;
    let mut at: usize = 0;
    while at <= last
        invariant
            n == haystack@.len(),
            m == needle@.len(),
            last == n - m,
            at <= last + 1,
            forall|before: int| 0 <= before < at ==> !occurs_at(haystack@, needle@, before),
        decreases last + 1 - at,
    {
        let mut k: usize = 0;
        while k < m && haystack[at + k] == needle[k]
            invariant
                n == haystack@.len(),
                m == needle@.len(),
                at + m <= n,
                k <= m,
                forall|t: int| 0 <= t < k ==> haystack@[at + t] == needle@[t],
            decreases m - k,
        {
            k += 1;
        }
        if k == m {
            proof {
                assert(haystack@.subrange(at as int, at + m) =~= needle@);
                lemma_first_occurrence_is(haystack@, needle@, at as int);
            }
            return Some(at);
        }
        assert(!occurs_at(haystack@, needle@, at as int)) by {
            if occurs_at(haystack@, needle@, at as int) {
                assert(haystack@.subrange(at as int, at + m)[k as int] == needle@[k as int]);
            }
        }
        at += 1;
    }
    proof {
        lemma_no_occurrence(haystack@, needle@);
    }
    None
}

impl Find<[Base]> for [Base] {
    open spec fn position(&self, to_find: &[Base]) -> Option<int> {
        first_occurrence(self@, to_find@)
    }

    fn find(&self, to_find: &[Base]) -> (found: Option<usize>) {
        find_in(self, to_find)
    }
}

impl Find<[Base]> for Vec<Base> {
    open spec fn position(&self, to_find: &[Base]) -> Option<int> {
        first_occurrence(self@, to_find@)
    }

    fn find(&self, to_find: &[Base]) -> (found: Option<usize>) {
        find_in(self.as_slice(), to_find)
    }
}

impl Find<Bases> for Bases {
    open spec fn position(&self, to_find: &Bases) -> Option<int> {
        first_occurrence(self@, to_find@)
    }

    fn find(&self, to_find: &Bases) -> (found: Option<usize>) {
        find_in(self.bases.as_slice(), to_find.bases.as_slice())
    }
}

} // verus!
