//! Lines, fields and white space in text that is held as a vector of
//! characters.

use vstd::prelude::*;

verus! {

/// Trusted, not proved: `String::push` of the standard library appends the
/// given character to the end of the string and changes nothing else.
pub assume_specification[ String::push ](text: &mut String, c: char)
    ensures
        final(text)@ == old(text)@.push(c),
;

/// Whether `c` is white space: a character with the Unicode property
/// `White_Space`.
pub open spec fn spec_is_space(c: char) -> bool {
    let code = c as u32;
    ||| 0x09 <= code <= 0x0D
    ||| code == 0x20
    ||| code == 0x85
    ||| code == 0xA0
    ||| code == 0x1680
    ||| 0x2000 <= code <= 0x200A
    ||| code == 0x2028
    ||| code == 0x2029
    ||| code == 0x202F
    ||| code == 0x205F
    ||| code == 0x3000
}

/// Whether `c` is white space.
#[verifier::when_used_as_spec(spec_is_space)]
pub fn is_space(c: char) -> (space: bool)
    ensures
        space == spec_is_space(c),
{
    let code: u32 = c as u32;
    (0x09 <= code && code <= 0x0D) || code == 0x20 || code == 0x85 || code == 0xA0 || code
        == 0x1680 || (0x2000 <= code && code <= 0x200A) || code == 0x2028 || code == 0x2029 || code
        == 0x202F || code == 0x205F || code == 0x3000
}

/// Where the line that starts at `from` ends: just behind its line feed, or
/// at the end of the text when no line feed follows.
pub open spec fn spec_line_end(text: Seq<char>, from: int) -> int
    decreases text.len() - from,
{
    if from < 0 || from >= text.len() {
        text.len() as int
    } else if text[from] == '\n' {
        from + 1
    } else {
        spec_line_end(text, from + 1)
    }
}

/// Where `text[from..to]` ends once its trailing white space is dropped.
pub open spec fn spec_trimmed_end(text: Seq<char>, from: int, to: int) -> int
    decreases to - from,
{
    if from < to && spec_is_space(text[to - 1]) {
        spec_trimmed_end(text, from, to - 1)
    } else {
        to
    }
}

/// Where the field that starts at `from` ends: at the next `separator`, or at
/// `to` when none occurs before it.
pub open spec fn spec_field_end(text: Seq<char>, from: int, to: int, separator: char) -> int
    decreases to - from,
{
    if from >= to {
        to
    } else if text[from] == separator {
        from
    } else {
        spec_field_end(text, from + 1, to, separator)
    }
}

/// The bounds of field number `n`, counted from zero, among the fields that
/// `separator` parts `text[from..to]` into; `None` where there are no more
/// than `n` fields. Two separators in a row hold an empty field between them.
pub open spec fn spec_nth_field(
    text: Seq<char>,
    from: int,
    to: int,
    separator: char,
    n: nat,
) -> Option<(int, int)>
    decreases n,
{
    let end = spec_field_end(text, from, to, separator);
    if n == 0 {
        Some((from, end))
    } else if end >= to {
        None
    } else {
        spec_nth_field(text, end + 1, to, separator, (n - 1) as nat)
    }
}

/// A line ends behind its start, and within the text.
pub proof fn lemma_line_end_bounds(text: Seq<char>, from: int)
    requires
        0 <= from <= text.len(),
    ensures
        from <= spec_line_end(text, from) <= text.len(),
        from < text.len() ==> from < spec_line_end(text, from),
    decreases text.len() - from,
{
    if from < text.len() && text[from] != '\n' {
        lemma_line_end_bounds(text, from + 1);
    }
}

/// A field ends within the range it was given.
pub proof fn lemma_field_end_bounds(text: Seq<char>, from: int, to: int, separator: char)
    requires
        from <= to,
    ensures
        from <= spec_field_end(text, from, to, separator) <= to,
    decreases to - from,
{
    if from < to && text[from] != separator {
        lemma_field_end_bounds(text, from + 1, to, separator);
    }
}

/// The characters of `text`, one element each.
pub fn chars_of(text: &str) -> (chars: Vec<char>)
    ensures
        chars@ == text@,
{
    let mut chars: Vec<char> = Vec::new();
    for c in it: text.chars()
        invariant
            it.seq() == text@,
            chars@ == text@.take(it.index() as int),
    {
        chars.push(c);
        assert(chars@ =~= text@.take(it.index() + 1));
    }
    assert(text@.take(text@.len() as int) =~= text@);
    chars
}

/// A string made of `chars[from..to]`.
pub fn string_of(chars: &Vec<char>, from: usize, to: usize) -> (text: String)
    requires
        from <= to <= chars@.len(),
    ensures
        text@ == chars@.subrange(from as int, to as int),
{
    let mut text = String::new();
    let mut i: usize = from;
    while i < to
        invariant
            from <= i <= to <= chars@.len(),
            text@ == chars@.subrange(from as int, i as int),
        decreases to - i,
    {
        text.push(chars[i]);
        assert(text@ =~= chars@.subrange(from as int, i + 1));
        i += 1;
    }
    text
}

/// Finds the end of the line that starts at `from`.
pub fn line_end(chars: &Vec<char>, from: usize) -> (end: usize)
    requires
        from <= chars@.len(),
    ensures
        end == spec_line_end(chars@, from as int),
        from <= end <= chars@.len(),
        from < chars@.len() ==> from < end,
{
    proof {
        lemma_line_end_bounds(chars@, from as int);
    }
    let mut i: usize = from;
    while i < chars.len()
        invariant
            from <= i <= chars@.len(),
            spec_line_end(chars@, from as int) == spec_line_end(chars@, i as int),
        decreases chars@.len() - i,
    {
        if chars[i] == '\n' {
            return i + 1;
        }
        i += 1;
    }
    i
}

/// Drops trailing white space from `chars[from..to]` and returns the new end.
pub fn trimmed_end(chars: &Vec<char>, from: usize, to: usize) -> (end: usize)
    requires
        from <= to <= chars@.len(),
    ensures
        end == spec_trimmed_end(chars@, from as int, to as int),
        from <= end <= to,
{
    let mut end: usize = to;
    while end > from && is_space(chars[end - 1])
        invariant
            from <= end <= to <= chars@.len(),
            spec_trimmed_end(chars@, from as int, to as int) == spec_trimmed_end(
                chars@,
                from as int,
                end as int,
            ),
        decreases end - from,
    {
        end -= 1;
    }
    end
}

/// Finds the end of the field that starts at `from`, within `chars[..to]`.
pub fn field_end(chars: &Vec<char>, from: usize, to: usize, separator: char) -> (end: usize)
    requires
        from <= to <= chars@.len(),
    ensures
        end == spec_field_end(chars@, from as int, to as int, separator),
        from <= end <= to,
{
    proof {
        lemma_field_end_bounds(chars@, from as int, to as int, separator);
    }
    let mut i: usize = from;
    while i < to
        invariant
            from <= i <= to <= chars@.len(),
            spec_field_end(chars@, from as int, to as int, separator) == spec_field_end(
                chars@,
                i as int,
                to as int,
                separator,
            ),
        decreases to - i,
    {
        if chars[i] == separator {
            return i;
        }
        i += 1;
    }
    i
}

/// Finds field number `n`, counted from zero, of `chars[from..to]`.
pub fn nth_field(chars: &Vec<char>, from: usize, to: usize, separator: char, n: usize) -> (bounds:
    Option<(usize, usize)>)
    requires
        from <= to <= chars@.len(),
    ensures
        match bounds {
            Some((start, end)) => {
                &&& spec_nth_field(chars@, from as int, to as int, separator, n as nat) == Some(
                    (start as int, end as int),
                )
                &&& from <= start <= end <= to
            },
            None => spec_nth_field(chars@, from as int, to as int, separator, n as nat) is None,
        },
{
    let mut start: usize = from;
    let mut left: usize = n;
    loop
        invariant
            from <= start <= to <= chars@.len(),
            left <= n,
            spec_nth_field(chars@, from as int, to as int, separator, n as nat) == spec_nth_field(
                chars@,
                start as int,
                to as int,
                separator,
                left as nat,
            ),
        decreases left,
    {
        let end: usize = field_end(chars, start, to, separator);
        if left == 0 {
            return Some((start, end));
        }
        if end >= to {
            return None;
        }
        start = end + 1;
        left -= 1;
    }
}

} // verus!
