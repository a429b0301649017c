//! The laws the library states of itself: what the grammar makes of a
//! canonical rendering, and that normalization is therefore idempotent.

use vstd::prelude::*;

use crate::canon::elems;
use crate::canon::lemma_ascending_unique;
use crate::canon::strictly_ascending;
use crate::errors::Expected;
use crate::grammar::digit_val;
use crate::grammar::entry_at;
use crate::grammar::has_range_op;
use crate::grammar::is_digit;
use crate::grammar::is_space;
use crate::grammar::lemma_entry_at_bounds;
use crate::grammar::lemma_num_from_bounds;
use crate::grammar::lemma_sep_at_bounds;
use crate::grammar::max_value;
use crate::grammar::parse_num_from;
use crate::grammar::range_op_end;
use crate::grammar::range_set;
use crate::grammar::sep_at;
use crate::grammar::space_end;
use crate::grammar::spec_parse;
use crate::grammar::tail_at;
use crate::render::comma_join;
use crate::render::dec_digits;
use crate::render::lemma_dec_digits_value;
use crate::render::lemma_dec_digits_wf;
use crate::render::nats_of;
use crate::render::numval_acc;

verus! {

/// The set of values a sequence of integers holds.
pub open spec fn values_of(v: Seq<nat>) -> Set<nat> {
    Set::new(|n: nat| v.contains(n))
}

/// Reading digits within a suffix is unmoved by what stands before it.
proof fn lemma_num_shift(p: Seq<char>, t: Seq<char>, i: int, acc: nat)
    requires
        0 <= i <= t.len(),
    ensures
        parse_num_from(p + t, p.len() + i, acc) == (
            parse_num_from(t, i, acc).0,
            p.len() + parse_num_from(t, i, acc).1,
        ),
    decreases t.len() - i,
{
    if i < t.len() {
        assert((p + t)[p.len() + i] == t[i]);
    }
    if i < t.len() && is_digit(t[i]) {
        lemma_num_shift(p, t, i + 1, acc * 10 + digit_val(t[i]));
    }
}

/// Skipping whitespace within a suffix is unmoved by what stands before it.
proof fn lemma_space_shift(p: Seq<char>, t: Seq<char>, i: int)
    requires
        0 <= i <= t.len(),
    ensures
        space_end(p + t, p.len() + i) == p.len() + space_end(t, i),
    decreases t.len() - i,
{
    if i < t.len() {
        assert((p + t)[p.len() + i] == t[i]);
    }
    if i < t.len() && is_space(t[i]) {
        lemma_space_shift(p, t, i + 1);
    }
}

/// Reading an entry within a suffix is unmoved by what stands before it: the
/// entry's set is the same, and positions shift by the prefix's length.
proof fn lemma_entry_shift(p: Seq<char>, t: Seq<char>, i: int)
    requires
        0 <= i <= t.len(),
    ensures
        match entry_at(t, i) {
            Ok(q) => entry_at(p + t, p.len() + i) == Ok::<(Set<nat>, int), (int, Expected)>(
                (q.0, p.len() + q.1),
            ),
            Err(f) => entry_at(p + t, p.len() + i) == Err::<(Set<nat>, int), (int, Expected)>(
                (p.len() + f.0, f.1),
            ),
        },
{
    let u = p + t;
    let o = p.len() as int;
    if i < t.len() {
        assert(u[o + i] == t[i]);
    }
    if 0 <= i < t.len() && is_digit(t[i]) {
        lemma_num_shift(p, t, i, 0);
        lemma_num_from_bounds(t, i, 0);
        let j = parse_num_from(t, i, 0).1;
        if j < t.len() {
            assert(u[o + j] == t[j]);
        }
        if j + 1 < t.len() {
            assert(u[o + j + 1] == t[j + 1]);
        }
        if j + 2 < t.len() {
            assert(u[o + j + 2] == t[j + 2]);
        }
        assert(has_range_op(u, o + j) == has_range_op(t, j));
        if has_range_op(t, j) {
            assert(range_op_end(u, o + j) == o + range_op_end(t, j));
            lemma_num_shift(p, t, range_op_end(t, j), 0);
        }
    }
}

/// Reading the rest of a number set within a suffix is unmoved by what stands
/// before it.
proof fn lemma_tail_shift(p: Seq<char>, t: Seq<char>, i: int, acc: Set<nat>)
    requires
        0 <= i <= t.len(),
    ensures
        match tail_at(t, i, acc) {
            Ok(r) => tail_at(p + t, p.len() + i, acc) == Ok::<Set<nat>, (int, Expected)>(r),
            Err(f) => tail_at(p + t, p.len() + i, acc) == Err::<Set<nat>, (int, Expected)>(
                (p.len() + f.0, f.1),
            ),
        },
    decreases t.len() - i,
{
    let u = p + t;
    let o = p.len() as int;
    if i < t.len() {
        assert(u[o + i] == t[i]);
        match sep_at(t, i) {
            None => {},
            Some(j) => {
                if !(t[i] == ',') {
                    lemma_space_shift(p, t, i);
                }
                assert(sep_at(u, o + i) == Some(o + j));
                lemma_sep_at_bounds(t, i);
                lemma_entry_shift(p, t, j);
                match entry_at(t, j) {
                    Err(f) => {},
                    Ok(q) => {
                        lemma_entry_at_bounds(t, j);
                        lemma_tail_shift(p, t, q.1, acc.union(q.0));
                    },
                }
            },
        }
    }
}

/// What the rest of a number set joins onto the accumulated set does not
/// depend on that set: a larger accumulator only carries through to the
/// result.
proof fn lemma_tail_acc(s: Seq<char>, i: int, acc: Set<nat>, extra: Set<nat>)
    requires
        0 <= i <= s.len(),
    ensures
        match tail_at(s, i, acc) {
            Ok(r) => tail_at(s, i, acc.union(extra)) == Ok::<Set<nat>, (int, Expected)>(
                r.union(extra),
            ),
            Err(f) => tail_at(s, i, acc.union(extra)) == Err::<Set<nat>, (int, Expected)>(f),
        },
    decreases s.len() - i,
{
    if i < s.len() {
        match sep_at(s, i) {
            None => {},
            Some(j) => {
                lemma_sep_at_bounds(s, i);
                match entry_at(s, j) {
                    Err(f) => {},
                    Ok(q) => {
                        lemma_entry_at_bounds(s, j);
                        assert(acc.union(extra).union(q.0) =~= acc.union(q.0).union(extra));
                        lemma_tail_acc(s, q.1, acc.union(q.0), extra);
                    },
                }
            },
        }
    }
}

/// A run of digits followed by a non-digit reads as the run's value, ending
/// right after the run.
proof fn lemma_num_of_digits(d: Seq<char>, t: Seq<char>, acc: nat)
    requires
        d.len() > 0,
        forall|k: int| 0 <= k < d.len() ==> is_digit(#[trigger] d[k]),
        t.len() == 0 || !is_digit(t[0]),
    ensures
        parse_num_from(d + t, 0, acc) == (numval_acc(d, acc), d.len() as int),
    decreases d.len(),
{
    let u = d + t;
    assert(u[0] == d[0]);
    if d.len() == 1 {
        reveal_with_fuel(parse_num_from, 2);
        reveal_with_fuel(numval_acc, 2);
        if t.len() > 0 {
            assert(u[1] == t[0]);
        }
        assert(d.drop_first() =~= Seq::<char>::empty());
    } else {
        let d2 = d.drop_first();
        assert(d2[0] == d[1]);
        assert(u =~= seq![d[0]] + (d2 + t));
        lemma_num_of_digits(d2, t, acc * 10 + digit_val(d[0]));
        lemma_num_shift(seq![d[0]], d2 + t, 0, acc * 10 + digit_val(d[0]));
    }
}

/// Reading digits within a prefix is unmoved by appending text that starts
/// with a non-digit.
proof fn lemma_num_prefix(s: Seq<char>, t: Seq<char>, i: int, acc: nat)
    requires
        0 <= i <= s.len(),
        t.len() > 0,
        !is_digit(t[0]),
    ensures
        parse_num_from(s + t, i, acc) == parse_num_from(s, i, acc),
    decreases s.len() - i,
{
    let u = s + t;
    if i < s.len() {
        assert(u[i] == s[i]);
        if is_digit(s[i]) {
            lemma_num_prefix(s, t, i + 1, acc * 10 + digit_val(s[i]));
        }
    } else {
        assert(u[i] == t[0]);
    }
}

/// Skipping whitespace within a prefix is unmoved by appending text, as long
/// as the run ends before the prefix does.
proof fn lemma_space_prefix(s: Seq<char>, t: Seq<char>, i: int)
    requires
        0 <= i <= s.len(),
        space_end(s, i) < s.len(),
    ensures
        space_end(s + t, i) == space_end(s, i),
    decreases s.len() - i,
{
    let u = s + t;
    if i < s.len() {
        assert(u[i] == s[i]);
        if is_space(s[i]) {
            lemma_space_prefix(s, t, i + 1);
        }
    }
}

/// Reading an entry within a prefix is unmoved by appending text whose first
/// character neither extends a number nor completes a range operator.
proof fn lemma_entry_prefix(s: Seq<char>, t: Seq<char>, i: int)
    requires
        0 <= i <= s.len(),
        t.len() > 0,
        !is_digit(t[0]),
        t[0] != '.',
        t[0] != '-',
    ensures
        entry_at(s + t, i) == entry_at(s, i),
{
    let u = s + t;
    assert(u[s.len() as int] == t[0]);
    if i < s.len() {
        assert(u[i] == s[i]);
    }
    if 0 <= i < s.len() && is_digit(s[i]) {
        lemma_num_prefix(s, t, i, 0);
        lemma_num_from_bounds(s, i, 0);
        let j = parse_num_from(s, i, 0).1;
        if j < s.len() {
            assert(u[j] == s[j]);
        }
        if j + 1 < s.len() {
            assert(u[j + 1] == s[j + 1]);
        }
        if j + 2 < s.len() {
            assert(u[j + 2] == s[j + 2]);
        }
        assert(has_range_op(u, j) == has_range_op(s, j));
        if has_range_op(s, j) {
            assert(range_op_end(u, j) == range_op_end(s, j));
            lemma_num_prefix(s, t, range_op_end(s, j), 0);
        }
    }
}

/// Appending a separator and a further well-formed number set onto a
/// well-formed number set joins the further set's values onto the result.
proof fn lemma_tail_concat(s: Seq<char>, t: Seq<char>, i: int, acc: Set<nat>, b: Set<nat>)
    requires
        0 <= i <= s.len(),
        t.len() > 0,
        t[0] == ',' || is_space(t[0]),
        tail_at(s, i, acc) is Ok,
        spec_parse(t.drop_first()) == Ok::<Set<nat>, (int, Expected)>(b),
    ensures
        tail_at(s + t, i, acc) == Ok::<Set<nat>, (int, Expected)>(
            tail_at(s, i, acc)->Ok_0.union(b),
        ),
    decreases s.len() - i,
{
    let u = s + t;
    let t2 = t.drop_first();
    if i == s.len() {
        assert(u[i] == t[0]);
        assert(entry_at(t2, 0) is Ok);
        assert(is_digit(t2[0]));
        if is_space(t[0]) {
            reveal_with_fuel(space_end, 3);
            if t2.len() > 0 {
                assert(u[i + 1] == t2[0]);
            }
            assert(space_end(u, i + 1) == i + 1);
        }
        assert(sep_at(u, i) == Some(i + 1));
        let q = entry_at(t2, 0)->Ok_0;
        assert(entry_at(t2, 0) is Ok && tail_at(t2, q.1, q.0) == Ok::<Set<nat>, (int, Expected)>(
            b,
        ));
        let pp = s + seq![t[0]];
        assert(u =~= pp + t2);
        lemma_entry_shift(pp, t2, 0);
        assert(entry_at(u, i + 1) == Ok::<(Set<nat>, int), (int, Expected)>(
            (q.0, pp.len() + q.1),
        ));
        lemma_entry_at_bounds(t2, 0);
        lemma_tail_acc(t2, q.1, q.0, acc);
        assert(q.0.union(acc) =~= acc.union(q.0));
        lemma_tail_shift(pp, t2, q.1, acc.union(q.0));
        assert(tail_at(u, pp.len() + q.1, acc.union(q.0)) == Ok::<Set<nat>, (int, Expected)>(
            b.union(acc),
        ));
        assert(b.union(acc) =~= acc.union(b));
    } else {
        assert(u[i] == s[i]);
        match sep_at(s, i) {
            None => {},
            Some(j) => {
                assert(entry_at(s, j) is Ok);
                assert(0 <= j < s.len() && is_digit(s[j]));
                if !(s[i] == ',') {
                    lemma_space_prefix(s, t, i);
                }
                assert(sep_at(u, i) == Some(j));
                lemma_sep_at_bounds(s, i);
                lemma_entry_prefix(s, t, j);
                match entry_at(s, j) {
                    Err(f) => {},
                    Ok(q) => {
                        lemma_entry_at_bounds(s, j);
                        lemma_tail_concat(s, t, q.1, acc.union(q.0), b);
                    },
                }
            },
        }
    }
}

/// Union semantics: joining two well-formed number-set texts with one
/// separator character gives a well-formed text whose set is the union of
/// theirs.
pub proof fn lemma_union_semantics(s1: Seq<char>, s2: Seq<char>, sep: char)
    requires
        spec_parse(s1) is Ok,
        spec_parse(s2) is Ok,
        sep == ',' || is_space(sep),
    ensures
        spec_parse(s1 + seq![sep] + s2) == Ok::<Set<nat>, (int, Expected)>(
            spec_parse(s1)->Ok_0.union(spec_parse(s2)->Ok_0),
        ),
{
    let t = seq![sep] + s2;
    let u = s1 + seq![sep] + s2;
    assert(t[0] == sep);
    assert(u =~= s1 + t);
    assert(t.drop_first() =~= s2);
    let p1 = entry_at(s1, 0)->Ok_0;
    assert(entry_at(s1, 0) is Ok && tail_at(s1, p1.1, p1.0) == Ok::<Set<nat>, (int, Expected)>(
        spec_parse(s1)->Ok_0,
    ));
    lemma_entry_prefix(s1, t, 0);
    lemma_entry_at_bounds(s1, 0);
    lemma_tail_concat(s1, t, p1.1, p1.0, spec_parse(s2)->Ok_0);
}

/// Separator symmetry: between two well-formed number-set texts, a comma, a
/// space and a tab all join to the same set.
pub proof fn lemma_separator_symmetry(s1: Seq<char>, s2: Seq<char>, sep1: char, sep2: char)
    requires
        spec_parse(s1) is Ok,
        spec_parse(s2) is Ok,
        sep1 == ',' || is_space(sep1),
        sep2 == ',' || is_space(sep2),
    ensures
        spec_parse(s1 + seq![sep1] + s2) == spec_parse(s1 + seq![sep2] + s2),
{
    lemma_union_semantics(s1, s2, sep1);
    lemma_union_semantics(s1, s2, sep2);
}

/// Any comma-joined rendering of representable values derives from the
/// grammar, and denotes exactly the set of those values.
pub proof fn lemma_parse_of_join(v: Seq<nat>)
    requires
        v.len() > 0,
        forall|k: int| 0 <= k < v.len() ==> #[trigger] v[k] <= max_value(),
    ensures
        spec_parse(comma_join(v)) == Ok::<Set<nat>, (int, Expected)>(values_of(v)),
    decreases v.len(),
{
    let u = comma_join(v);
    let d = dec_digits(v[0]);
    lemma_dec_digits_wf(v[0]);
    lemma_dec_digits_value(v[0]);
    let es0 = range_set(v[0] as int, v[0] as int);
    if v.len() == 1 {
        assert(u =~= d + Seq::<char>::empty());
        lemma_num_of_digits(d, Seq::empty(), 0);
        assert(u[0] == d[0]);
        assert(parse_num_from(u, 0, 0) == (v[0], d.len() as int));
        assert(!has_range_op(u, d.len() as int));
        assert(entry_at(u, 0) == Ok::<(Set<nat>, int), (int, Expected)>((es0, d.len() as int)));
        assert(tail_at(u, d.len() as int, es0) == Ok::<Set<nat>, (int, Expected)>(es0));
        assert forall|n: nat| es0.contains(n) implies values_of(v).contains(n) by {
            assert(v[0] == n);
        }
        assert forall|n: nat| values_of(v).contains(n) implies es0.contains(n) by {
            let k = choose|k: int| 0 <= k < v.len() && v[k] == n;
            assert(k == 0);
        }
        assert(es0 =~= values_of(v));
    } else {
        let v2 = v.drop_first();
        let t = comma_join(v2);
        let pp = d + seq![','];
        assert(u =~= pp + t);
        assert forall|k: int| 0 <= k < v2.len() implies #[trigger] v2[k] <= max_value() by {
            assert(v2[k] == v[k + 1]);
        }
        lemma_parse_of_join(v2);
        // entry_at(t, 0) must have come out well, or spec_parse(t) were Err
        let q = entry_at(t, 0)->Ok_0;
        assert(entry_at(t, 0) is Ok && tail_at(t, q.1, q.0) == Ok::<Set<nat>, (int, Expected)>(
            values_of(v2),
        ));
        // the first number and its entry within u
        assert((seq![','] + t)[0] == ',');
        assert(u =~= d + (seq![','] + t));
        lemma_num_of_digits(d, seq![','] + t, 0);
        assert(u[0] == d[0]);
        assert(parse_num_from(u, 0, 0) == (v[0], d.len() as int));
        assert(u[d.len() as int] == ',');
        assert(!has_range_op(u, d.len() as int));
        assert(entry_at(u, 0) == Ok::<(Set<nat>, int), (int, Expected)>((es0, d.len() as int)));
        // the separator, then the shifted rest
        assert(sep_at(u, d.len() as int) == Some(d.len() as int + 1));
        lemma_entry_shift(pp, t, 0);
        assert(entry_at(u, pp.len() as int) == Ok::<(Set<nat>, int), (int, Expected)>(
            (q.0, pp.len() + q.1),
        ));
        lemma_entry_at_bounds(t, 0);
        lemma_tail_acc(t, q.1, q.0, es0);
        assert(q.0.union(es0) =~= es0.union(q.0));
        assert(tail_at(t, q.1, es0.union(q.0)) == Ok::<Set<nat>, (int, Expected)>(
            values_of(v2).union(es0),
        ));
        lemma_tail_shift(pp, t, q.1, es0.union(q.0));
        assert(tail_at(u, pp.len() + q.1, es0.union(q.0)) == Ok::<Set<nat>, (int, Expected)>(
            values_of(v2).union(es0),
        ));
        assert(tail_at(u, d.len() as int, es0) == Ok::<Set<nat>, (int, Expected)>(
            values_of(v2).union(es0),
        ));
        assert forall|n: nat| values_of(v2).union(es0).contains(n) implies values_of(v).contains(
            n,
        ) by {
            if values_of(v2).contains(n) {
                let k = choose|k: int| 0 <= k < v2.len() && v2[k] == n;
                assert(v[k + 1] == n);
            } else {
                assert(v[0] == n);
            }
        }
        assert forall|n: nat| values_of(v).contains(n) implies values_of(v2).union(es0).contains(
            n,
        ) by {
            let k = choose|k: int| 0 <= k < v.len() && v[k] == n;
            if k > 0 {
                assert(v2[k - 1] == n);
            }
        }
        assert(values_of(v2).union(es0) =~= values_of(v));
    }
}

/// Normalization is idempotent: the canonical output of a successful parse,
/// rendered again as comma-separated decimal numbers, derives from the
/// grammar and denotes exactly the output's own set of values — and the only
/// strictly ascending sequence with that set of values is the output itself.
pub proof fn lemma_normalization_idempotent(v: Seq<usize>)
    requires
        v.len() > 0,
        strictly_ascending(v),
    ensures
        spec_parse(comma_join(nats_of(v))) == Ok::<Set<nat>, (int, Expected)>(elems(v)),
        forall|w: Seq<usize>| strictly_ascending(w) && elems(w) == elems(v) ==> w == v,
{
    let m = nats_of(v);
    assert forall|k: int| 0 <= k < m.len() implies #[trigger] m[k] <= max_value() by {
        assert(m[k] == v[k] as nat);
    }
    lemma_parse_of_join(m);
    assert forall|n: nat| values_of(m).contains(n) implies elems(v).contains(n) by {
        let k = choose|k: int| 0 <= k < m.len() && m[k] == n;
        assert(v[k] as nat == n);
    }
    assert forall|n: nat| elems(v).contains(n) implies values_of(m).contains(n) by {
        let k = choose|k: int| 0 <= k < v.len() && v[k] as nat == n;
        assert(m[k] == n);
    }
    assert(values_of(m) =~= elems(v));
    assert forall|w: Seq<usize>| strictly_ascending(w) && elems(w) == elems(v) implies w == v by {
        lemma_ascending_unique(w, v);
    }
}

} // verus!
