//! The grammar, as specification functions over a sequence of characters:
//!
//! ```text
//! number_set := entry (separator entry)*
//! separator  := "," | whitespace+
//! entry      := range | number
//! range      := number ("-" | "..") number
//! number     := digit+
//! ```
//!
//! An entry is read as a range whenever the number is immediately followed by
//! a range operator and a further number, and as a plain number otherwise.
//! The whole input must be consumed. Each function yields either what it
//! recognized together with the position after it, or the offset at which it
//! stopped with what was expected there.

use vstd::prelude::*;

use crate::errors::Expected;

verus! {

/// Decimal digit characters.
pub open spec fn is_digit(c: char) -> bool {
    48 <= c as u32 <= 57
}

/// The value of a digit character.
pub open spec fn digit_val(c: char) -> nat {
    (c as u32 - 48) as nat
}

/// Whitespace accepted inside a separator: spaces and tabs.
pub open spec fn is_space(c: char) -> bool {
    c == ' ' || c == '\t'
}

/// The largest value a numeric literal may denote.
pub open spec fn max_value() -> nat {
    usize::MAX as nat
}

/// All integers from `lo` to `hi`, both ends included; empty when `lo > hi`.
pub open spec fn range_set(lo: int, hi: int) -> Set<nat> {
    Set::new(|n: nat| lo <= n <= hi)
}

/// Reads the longest run of digits from position `i`, folding each onto the
/// accumulator: the run `d1 d2 .. dk` turns `acc` into
/// `((acc * 10 + d1) * 10 + d2) ...`. Yields the value and the position after
/// the run; at a non-digit it yields `acc` and `i` unchanged.
pub open spec fn parse_num_from(s: Seq<char>, i: int, acc: nat) -> (nat, int)
    decreases s.len() - i
        when 0 <= i <= s.len()
{
    if i < s.len() && is_digit(s[i]) {
        parse_num_from(s, i + 1, acc * 10 + digit_val(s[i]))
    } else {
        (acc, i)
    }
}

/// The position after the run of whitespace starting at `i`.
pub open spec fn space_end(s: Seq<char>, i: int) -> int
    decreases s.len() - i
        when 0 <= i <= s.len()
{
    if i < s.len() && is_space(s[i]) {
        space_end(s, i + 1)
    } else {
        i
    }
}

/// Whether a range operator, `-` or `..`, followed by a digit stands at `j`.
pub open spec fn has_range_op(s: Seq<char>, j: int) -> bool {
    ||| (0 <= j && j + 1 < s.len() && s[j] == '-' && is_digit(s[j + 1]))
    ||| (0 <= j && j + 2 < s.len() && s[j] == '.' && s[j + 1] == '.' && is_digit(s[j + 2]))
}

/// The position of a range's second number, after the operator at `j`.
pub open spec fn range_op_end(s: Seq<char>, j: int) -> int {
    if s[j] == '-' {
        j + 1
    } else {
        j + 2
    }
}

/// One entry at position `i`: a number, extended to a range when a range
/// operator and a second number immediately follow. Yields the set of
/// integers the entry denotes and the position after it. It fails where no
/// digit stands at `i`, and where a number does not fit the platform's
/// unsigned size.
pub open spec fn entry_at(s: Seq<char>, i: int) -> Result<(Set<nat>, int), (int, Expected)> {
    if !(0 <= i < s.len() && is_digit(s[i])) {
        Err((i, Expected::Number))
    } else {
        let first = parse_num_from(s, i, 0);
        if first.0 > max_value() {
            Err((i, Expected::RepresentableNumber))
        } else if has_range_op(s, first.1) {
            let second = parse_num_from(s, range_op_end(s, first.1), 0);
            if second.0 > max_value() {
                Err((range_op_end(s, first.1), Expected::RepresentableNumber))
            } else {
                Ok((range_set(first.0 as int, second.0 as int), second.1))
            }
        } else {
            Ok((range_set(first.0 as int, first.0 as int), first.1))
        }
    }
}

/// One separator at position `i`: a single comma, or a run of whitespace.
/// Yields the position after it, or `None` where neither stands at `i`.
pub open spec fn sep_at(s: Seq<char>, i: int) -> Option<int> {
    if 0 <= i < s.len() && s[i] == ',' {
        Some(i + 1)
    } else if 0 <= i < s.len() && is_space(s[i]) {
        Some(space_end(s, i))
    } else {
        None
    }
}

/// The rest of a number set from position `i`: separators and entries until
/// the end of the input, each entry's set joined onto `acc`. Anything else at
/// `i` — in particular trailing text that no separator introduces — is a
/// failure.
pub open spec fn tail_at(s: Seq<char>, i: int, acc: Set<nat>) -> Result<Set<nat>, (int, Expected)>
    decreases s.len() - i
        when 0 <= i <= s.len()
{
    if i == s.len() {
        Ok(acc)
    } else {
        match sep_at(s, i) {
            None => Err((i, Expected::SeparatorOrEnd)),
            Some(j) => match entry_at(s, j) {
                Err(e) => Err(e),
                Ok(p) => {
                    proof {
                        lemma_sep_at_bounds(s, i);
                        lemma_entry_at_bounds(s, j);
                    }
                    tail_at(s, p.1, acc.union(p.0))
                },
            },
        }
    }
}

/// The whole grammar: one entry, then separators and entries to the end of
/// the input. Yields the union of the sets the entries denote, or the offset
/// at which parsing stopped with what was expected there.
pub open spec fn spec_parse(s: Seq<char>) -> Result<Set<nat>, (int, Expected)> {
    match entry_at(s, 0) {
        Err(e) => Err(e),
        Ok(p) => tail_at(s, p.1, p.0),
    }
}

/// Reading digits neither moves backwards nor past the end, consumes at least
/// one character when a digit stands at `i`, and never shrinks the
/// accumulator.
pub proof fn lemma_num_from_bounds(s: Seq<char>, i: int, acc: nat)
    requires
        0 <= i <= s.len(),
    ensures
        i <= parse_num_from(s, i, acc).1 <= s.len(),
        parse_num_from(s, i, acc).0 >= acc,
        i < s.len() && is_digit(s[i]) ==> parse_num_from(s, i, acc).1 >= i + 1,
    decreases s.len() - i,
{
    if i < s.len() && is_digit(s[i]) {
        lemma_num_from_bounds(s, i + 1, acc * 10 + digit_val(s[i]));
    }
}

/// Skipping whitespace neither moves backwards nor past the end, and consumes
/// at least one character when whitespace stands at `i`.
pub proof fn lemma_space_end_bounds(s: Seq<char>, i: int)
    requires
        0 <= i <= s.len(),
    ensures
        i <= space_end(s, i) <= s.len(),
        i < s.len() && is_space(s[i]) ==> space_end(s, i) >= i + 1,
    decreases s.len() - i,
{
    if i < s.len() && is_space(s[i]) {
        lemma_space_end_bounds(s, i + 1);
    }
}

/// A separator consumes at least one character and stays within the input.
pub proof fn lemma_sep_at_bounds(s: Seq<char>, i: int)
    requires
        0 <= i <= s.len(),
    ensures
        match sep_at(s, i) {
            Some(j) => i < j <= s.len(),
            None => true,
        },
{
    if 0 <= i < s.len() && !(s[i] == ',') && is_space(s[i]) {
        lemma_space_end_bounds(s, i);
    }
}

/// An entry consumes at least one character and stays within the input.
pub proof fn lemma_entry_at_bounds(s: Seq<char>, i: int)
    requires
        0 <= i <= s.len(),
    ensures
        match entry_at(s, i) {
            Ok(p) => i < p.1 <= s.len(),
            Err(e) => true,
        },
{
    if 0 <= i < s.len() && is_digit(s[i]) {
        lemma_num_from_bounds(s, i, 0);
        let j = parse_num_from(s, i, 0).1;
        if has_range_op(s, j) {
            lemma_num_from_bounds(s, range_op_end(s, j), 0);
        }
    }
}

} // verus!
