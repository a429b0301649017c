//! Parsing of a human-typed description of a set of non-negative integers —
//! numbers and inclusive ranges separated by commas or whitespace — into a
//! deduplicated, strictly ascending sequence.

use vstd::prelude::*;
use vstd::string::StrSliceExecFns;

pub mod canon;
pub mod errors;
pub mod grammar;
pub mod laws;
pub mod render;

pub use canon::elems;
pub use canon::strictly_ascending;
pub use errors::Expected;
pub use errors::ParseError;
pub use grammar::spec_parse;
pub use render::comma_join;
pub use render::to_comma_string;

use canon::insert_range;
use canon::insert_sorted;
use canon::lemma_elems_empty;
use grammar::digit_val;
use grammar::entry_at;
use grammar::is_digit;
use grammar::is_space;
use grammar::max_value;
use grammar::parse_num_from;
use grammar::range_set;
use grammar::sep_at;
use grammar::space_end;
use grammar::tail_at;

verus! {

/// The error value for the failure offset and expectation that the grammar's
/// specification functions yield.
pub open spec fn error_of(f: (int, Expected)) -> ParseError {
    ParseError::MalformedInput { offset: f.0 as usize, expected: f.1 }
}

/// Whether `c` is a decimal digit, as the grammar's `is_digit` has it.
fn digit_char(c: char) -> (b: bool)
    ensures
        b == is_digit(c),
{
    let u = c as u32;
    48 <= u && u <= 57
}

/// Whether `c` is separator whitespace, as the grammar's `is_space` has it.
fn space_char(c: char) -> (b: bool)
    ensures
        b == is_space(c),
{
    c == ' ' || c == '\t'
}

/// The value of the digit `c`.
fn digit_value(c: char) -> (d: usize)
    requires
        is_digit(c),
    ensures
        d as nat == digit_val(c),
        d <= 9,
{
    (c as u32 - 48) as usize
}

/// Reads the run of digits starting at `start`, as `parse_num_from` reads it:
/// its value and the position after it, or `None` where the value does not
/// fit the platform's unsigned size.
fn scan_number(input: &str, start: usize, n: usize) -> (r: Option<(usize, usize)>)
    requires
        n as nat == input@.len(),
        start < n,
        is_digit(input@[start as int]),
    ensures
        match r {
            Some(p) => {
                &&& parse_num_from(input@, start as int, 0) == (p.0 as nat, p.1 as int)
                &&& start < p.1 <= n
            },
            None => parse_num_from(input@, start as int, 0).0 > max_value(),
        },
{
    let mut i: usize = start;
    let mut val: usize = 0;
    loop
        invariant_except_break
            start <= i <= n,
            n as nat == input@.len(),
            start < n,
            is_digit(input@[start as int]),
            parse_num_from(input@, start as int, 0) == parse_num_from(input@, i as int, val as nat),
        ensures
            start < i <= n,
            parse_num_from(input@, start as int, 0) == (val as nat, i as int),
        decreases n - i,
    {
        if i == n {
            break ;
        }
        let c = input.get_char(i);
        if !digit_char(c) {
            break ;
        }
        let d = digit_value(c);
        let v10 = match val.checked_mul(10) {
            Some(x) => x,
            None => {
                proof {
                    grammar::lemma_num_from_bounds(
                        input@,
                        i as int + 1,
                        val as nat * 10 + digit_val(input@[i as int]),
                    );
                }
                return None;
            },
        };
        let v = match v10.checked_add(d) {
            Some(x) => x,
            None => {
                proof {
                    grammar::lemma_num_from_bounds(
                        input@,
                        i as int + 1,
                        val as nat * 10 + digit_val(input@[i as int]),
                    );
                }
                return None;
            },
        };
        val = v;
        i = i + 1;
    }
    Some((val, i))
}

/// Reads the run of whitespace starting at `start`, as `space_end` reads it.
fn scan_spaces(input: &str, start: usize, n: usize) -> (end: usize)
    requires
        n as nat == input@.len(),
        start <= n,
    ensures
        end as int == space_end(input@, start as int),
        start <= end <= n,
        start < n && is_space(input@[start as int]) ==> end > start,
{
    proof {
        grammar::lemma_space_end_bounds(input@, start as int);
    }
    let mut i: usize = start;
    loop
        invariant_except_break
            start <= i <= n,
            n as nat == input@.len(),
            space_end(input@, start as int) == space_end(input@, i as int),
        ensures
            start <= i <= n,
            i as int == space_end(input@, start as int),
        decreases n - i,
    {
        if i == n {
            break ;
        }
        let c = input.get_char(i);
        if !space_char(c) {
            break ;
        }
        i = i + 1;
    }
    i
}

/// Reads one entry at `i` and joins the integers it denotes onto `out`,
/// exactly as the grammar's `entry_at` has it: the result carries the
/// position after the entry, or the error at whose offset the entry failed,
/// with `out` then unchanged.
fn take_entry(input: &str, i: usize, n: usize, out: &mut Vec<usize>) -> (r: Result<
    usize,
    ParseError,
>)
    requires
        n as nat == input@.len(),
        i <= n,
        strictly_ascending(old(out)@),
    ensures
        strictly_ascending(final(out)@),
        match r {
            Ok(k) => {
                &&& entry_at(input@, i as int) matches Ok(p) && p.1 == k as int && elems(
                    final(out)@,
                ) == elems(old(out)@).union(p.0)
                &&& i < k <= n
            },
            Err(e) => {
                &&& entry_at(input@, i as int) matches Err(f) && e == error_of(f)
                &&& final(out)@ == old(out)@
            },
        },
{
    if i == n {
        return Err(ParseError::MalformedInput { offset: i, expected: Expected::Number });
    }
    let c0 = input.get_char(i);
    if !digit_char(c0) {
        return Err(ParseError::MalformedInput { offset: i, expected: Expected::Number });
    }
    let first = match scan_number(input, i, n) {
        None => {
            return Err(
                ParseError::MalformedInput { offset: i, expected: Expected::RepresentableNumber },
            );
        },
        Some(p) => p,
    };
    let a = first.0;
    let j = first.1;
    let mut found = false;
    let mut op_end: usize = 0;
    if j < n {
        let cj = input.get_char(j);
        if cj == '-' && j + 1 < n {
            let c1 = input.get_char(j + 1);
            if digit_char(c1) {
                found = true;
                op_end = j + 1;
            }
        } else if cj == '.' && j + 1 < n {
            let c1 = input.get_char(j + 1);
            if c1 == '.' && j + 2 < n {
                let c2 = input.get_char(j + 2);
                if digit_char(c2) {
                    found = true;
                    op_end = j + 2;
                }
            }
        }
    }
    assert(found == grammar::has_range_op(input@, j as int));
    if found {
        assert(op_end as int == grammar::range_op_end(input@, j as int));
        let second = match scan_number(input, op_end, n) {
            None => {
                return Err(
                    (ParseError::MalformedInput {
                        offset: op_end,
                        expected: Expected::RepresentableNumber,
                    }),
                );
            },
            Some(p) => p,
        };
        insert_range(out, a, second.0);
        Ok(second.1)
    } else {
        insert_sorted(out, a);
        proof {
            assert(elems(old(out)@).insert(a as nat) =~= elems(old(out)@).union(
                range_set(a as int, a as int),
            ));
        }
        Ok(j)
    }
}

/// Reads one separator at `i`, exactly as the grammar's `sep_at` has it: the
/// result carries the position after the separator, or the error naming `i`
/// where no separator stands there.
fn take_sep(input: &str, i: usize, n: usize) -> (r: Result<usize, ParseError>)
    requires
        n as nat == input@.len(),
        i < n,
    ensures
        match r {
            Ok(j) => sep_at(input@, i as int) == Some(j as int) && i < j <= n,
            Err(e) => sep_at(input@, i as int) is None && e == error_of(
                (i as int, Expected::SeparatorOrEnd),
            ),
        },
{
    let c = input.get_char(i);
    if c == ',' {
        Ok(i + 1)
    } else if space_char(c) {
        let j = scan_spaces(input, i, n);
        Ok(j)
    } else {
        Err(ParseError::MalformedInput { offset: i, expected: Expected::SeparatorOrEnd })
    }
}

/// Parses a textual specification of a set of non-negative integers —
/// numbers and inclusive ranges such as `5..7` or `5-7`, separated by commas
/// or whitespace — into the strictly ascending, duplicate-free sequence of
/// all integers the entries denote, exactly as the grammar's `spec_parse`
/// has it. Where the input does not derive from the grammar, the error
/// carries the character offset at which parsing stopped and what was
/// expected there.
pub fn parse_number_set(input: &str) -> (r: Result<Vec<usize>, ParseError>)
    ensures
        match r {
            Ok(v) => {
                &&& spec_parse(input@) matches Ok(s) && elems(v@) == s
                &&& strictly_ascending(v@)
            },
            Err(e) => spec_parse(input@) matches Err(f) && e == error_of(f),
        },
{
    let n = input.unicode_len();
    let mut out: Vec<usize> = Vec::new();
    proof {
        lemma_elems_empty();
    }
    let mut i: usize = match take_entry(input, 0, n, &mut out) {
        Err(e) => {
            return Err(e);
        },
        Ok(k) => k,
    };
    proof {
        let p = entry_at(input@, 0)->Ok_0;
        assert(elems(out@) =~= p.0);
    }
    loop
        invariant
            n as nat == input@.len(),
            i <= n,
            strictly_ascending(out@),
            spec_parse(input@) == tail_at(input@, i as int, elems(out@)),
        decreases n - i,
    {
        if i == n {
            return Ok(out);
        }
        let j = match take_sep(input, i, n) {
            Err(e) => {
                return Err(e);
            },
            Ok(j) => j,
        };
        match take_entry(input, j, n, &mut out) {
            Err(e) => {
                return Err(e);
            },
            Ok(k) => {
                i = k;
            },
        }
    }
}

} // verus!

