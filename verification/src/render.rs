//! The canonical text of a number set: each value in decimal, joined by
//! commas. This is the normalized form whose re-parse the laws speak of.

use vstd::prelude::*;
use vstd::string::StringExecFns;

use crate::grammar::digit_val;
use crate::grammar::is_digit;

verus! {

/// The character of one decimal digit.
pub open spec fn digit_char_of(d: nat) -> char {
    if d == 0 {
        '0'
    } else if d == 1 {
        '1'
    } else if d == 2 {
        '2'
    } else if d == 3 {
        '3'
    } else if d == 4 {
        '4'
    } else if d == 5 {
        '5'
    } else if d == 6 {
        '6'
    } else if d == 7 {
        '7'
    } else if d == 8 {
        '8'
    } else {
        '9'
    }
}

/// The decimal digits of `n`, most significant first, without leading zeros
/// (the single digit `0` for zero).
pub open spec fn dec_digits(n: nat) -> Seq<char>
    decreases n,
{
    if n < 10 {
        seq![digit_char_of(n)]
    } else {
        dec_digits(n / 10).push(digit_char_of(n % 10))
    }
}

/// The values of a sequence, joined by single commas, each in decimal.
pub open spec fn comma_join(v: Seq<nat>) -> Seq<char>
    decreases v.len(),
{
    if v.len() == 0 {
        Seq::empty()
    } else if v.len() == 1 {
        dec_digits(v[0])
    } else {
        dec_digits(v[0]) + seq![','] + comma_join(v.drop_first())
    }
}

/// The value of a digit run read left to right onto an accumulator, as the
/// grammar's `parse_num_from` folds it.
pub open spec fn numval_acc(d: Seq<char>, acc: nat) -> nat
    decreases d.len(),
{
    if d.len() == 0 {
        acc
    } else {
        numval_acc(d.drop_first(), acc * 10 + digit_val(d[0]))
    }
}

/// The values of a vector's elements, as mathematical integers.
pub open spec fn nats_of(v: Seq<usize>) -> Seq<nat> {
    v.map_values(|x: usize| x as nat)
}

/// Joining one more value appends a comma and its digits.
pub proof fn lemma_join_snoc(v: Seq<nat>, x: nat)
    requires
        v.len() > 0,
    ensures
        comma_join(v.push(x)) == comma_join(v) + seq![','] + dec_digits(x),
    decreases v.len(),
{
    let w = v.push(x);
    assert(w[0] == v[0]);
    if v.len() == 1 {
        assert(w.drop_first() =~= seq![x]);
        assert(comma_join(seq![x]) == dec_digits(x));
        assert(comma_join(w) =~= comma_join(v) + seq![','] + dec_digits(x));
    } else {
        assert(w.drop_first() =~= v.drop_first().push(x));
        lemma_join_snoc(v.drop_first(), x);
        assert(comma_join(w) =~= comma_join(v) + seq![','] + dec_digits(x));
    }
}

/// A digit's character is a digit character with that digit's value.
pub proof fn lemma_digit_char_of(d: nat)
    requires
        d <= 9,
    ensures
        is_digit(digit_char_of(d)),
        digit_val(digit_char_of(d)) == d,
{
}

/// A number's decimal digits are at least one character, all digits.
pub proof fn lemma_dec_digits_wf(n: nat)
    ensures
        dec_digits(n).len() >= 1,
        forall|k: int| 0 <= k < dec_digits(n).len() ==> is_digit(#[trigger] dec_digits(n)[k]),
    decreases n,
{
    if n < 10 {
        lemma_digit_char_of(n);
    } else {
        lemma_dec_digits_wf(n / 10);
        lemma_digit_char_of(n % 10);
        assert forall|k: int| 0 <= k < dec_digits(n).len() implies is_digit(
            #[trigger] dec_digits(n)[k],
        ) by {
            if k < dec_digits(n / 10).len() {
                assert(dec_digits(n)[k] == dec_digits(n / 10)[k]);
            }
        }
    }
}

/// Folding one more digit onto a run multiplies its value by ten and adds
/// the digit.
pub proof fn lemma_numval_snoc(d: Seq<char>, c: char, acc: nat)
    ensures
        numval_acc(d.push(c), acc) == numval_acc(d, acc) * 10 + digit_val(c),
    decreases d.len(),
{
    if d.len() == 0 {
        reveal_with_fuel(numval_acc, 2);
        assert(d.push(c).drop_first() =~= Seq::<char>::empty());
    } else {
        assert(d.push(c).drop_first() =~= d.drop_first().push(c));
        lemma_numval_snoc(d.drop_first(), c, acc * 10 + digit_val(d[0]));
    }
}

/// Reading a number's decimal digits yields that number back.
pub proof fn lemma_dec_digits_value(n: nat)
    ensures
        numval_acc(dec_digits(n), 0) == n,
    decreases n,
{
    if n < 10 {
        reveal_with_fuel(numval_acc, 2);
        lemma_digit_char_of(n);
        assert(seq![digit_char_of(n)].drop_first() =~= Seq::<char>::empty());
    } else {
        lemma_dec_digits_value(n / 10);
        lemma_numval_snoc(dec_digits(n / 10), digit_char_of(n % 10), 0);
        lemma_digit_char_of(n % 10);
    }
}

/// Appends the character of one decimal digit.
fn push_digit(out: &mut String, d: usize)
    requires
        d <= 9,
    ensures
        final(out)@ == old(out)@ + seq![digit_char_of(d as nat)],
{
    let piece: &str = if d == 0 {
        "0"
    } else if d == 1 {
        "1"
    } else if d == 2 {
        "2"
    } else if d == 3 {
        "3"
    } else if d == 4 {
        "4"
    } else if d == 5 {
        "5"
    } else if d == 6 {
        "6"
    } else if d == 7 {
        "7"
    } else if d == 8 {
        "8"
    } else {
        "9"
    };
    proof {
        reveal_strlit("0");
        reveal_strlit("1");
        reveal_strlit("2");
        reveal_strlit("3");
        reveal_strlit("4");
        reveal_strlit("5");
        reveal_strlit("6");
        reveal_strlit("7");
        reveal_strlit("8");
        reveal_strlit("9");
        assert(piece@ =~= seq![digit_char_of(d as nat)]);
    }
    out.append(piece);
}

/// Appends the decimal digits of `n`, most significant first.
fn append_number(out: &mut String, n: usize)
    ensures
        final(out)@ == old(out)@ + dec_digits(n as nat),
    decreases n,
{
    if n >= 10 {
        append_number(out, n / 10);
        push_digit(out, n % 10);
        proof {
            assert(old(out)@ + dec_digits(n as nat / 10) + seq![
                digit_char_of(n as nat % 10),
            ] =~= old(out)@ + dec_digits(n as nat));
        }
    } else {
        push_digit(out, n);
    }
}

/// Renders a number set in its canonical text: each value in decimal, joined
/// by single commas, exactly as `comma_join` has it.
pub fn to_comma_string(v: &Vec<usize>) -> (r: String)
    ensures
        r@ == comma_join(nats_of(v@)),
{
    let mut out = String::new();
    if v.len() == 0 {
        proof {
            assert(nats_of(v@) =~= Seq::<nat>::empty());
        }
        return out;
    }
    append_number(&mut out, v[0]);
    proof {
        assert(nats_of(v@.subrange(0, 1)) =~= seq![v@[0] as nat]);
        assert(out@ =~= comma_join(nats_of(v@.subrange(0, 1))));
    }
    let mut i: usize = 1;
    while i < v.len()
        invariant
            1 <= i <= v@.len(),
            out@ == comma_join(nats_of(v@.subrange(0, i as int))),
        decreases v@.len() - i,
    {
        out.append(",");
        append_number(&mut out, v[i]);
        proof {
            reveal_strlit(",");
            let w = nats_of(v@.subrange(0, i as int));
            assert(nats_of(v@.subrange(0, i as int + 1)) =~= w.push(v@[i as int] as nat));
            lemma_join_snoc(w, v@[i as int] as nat);
            assert(out@ =~= comma_join(w) + seq![','] + dec_digits(v@[i as int] as nat));
        }
        i = i + 1;
    }
    proof {
        assert(v@.subrange(0, v@.len() as int) =~= v@);
    }
    out
}

} // verus!
