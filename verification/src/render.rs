//! Rendering the counts as text: decimal numbers, and the factor line
//! that joins them with a comma and a space — no separator before the
//! first number and none after the last, so a one-element sequence is a
//! bare number.

use vstd::prelude::*;

verus! {

use vstd::arithmetic::div_mod::lemma_div_is_strictly_smaller;

/// The decimal digit character for a value below ten.
pub open spec fn digit_char(d: int) -> char
    recommends
        0 <= d < 10,
{
    if d == 0 {
        '0'
    } else if d == 1 {
        '1'
    } else if d == 2 {
        '2'
    } else if d == 3 {
        '3'
    } else if d == 4 {
        '4'
    } else if d == 5 {
        '5'
    } else if d == 6 {
        '6'
    } else if d == 7 {
        '7'
    } else if d == 8 {
        '8'
    } else {
        '9'
    }
}

/// The decimal digits of `n`, most significant first, with no sign and
/// no leading zero (except for `n == 0` itself).
pub open spec fn dec_rep(n: nat) -> Seq<char>
    decreases n,
    via dec_rep_decreases
{
    if n < 10 {
        seq![digit_char(n as int)]
    } else {
        dec_rep(n / 10).push(digit_char((n % 10) as int))
    }
}

#[via_fn]
proof fn dec_rep_decreases(n: nat) {
    if n >= 10 {
        lemma_div_is_strictly_smaller(n as int, 10);
    }
}

/// The decimal rendering of a signed value: a minus sign for negative
/// values, then the digits of the magnitude.
pub open spec fn int_rep(n: int) -> Seq<char> {
    if n < 0 {
        seq!['-'] + dec_rep((-n) as nat)
    } else {
        dec_rep(n as nat)
    }
}

/// The factor line for a sequence of numbers: their decimal renderings
/// joined by a comma and a space.
pub open spec fn line_rep(fs: Seq<i64>) -> Seq<char>
    decreases fs.len(),
{
    if fs.len() == 0 {
        Seq::empty()
    } else if fs.len() == 1 {
        int_rep(fs[0] as int)
    } else {
        line_rep(fs.drop_last()) + seq![',', ' '] + int_rep(fs.last() as int)
    }
}

/// The one-character string for a decimal digit.
fn digit_str(d: u64) -> (s: &'static str)
    requires
        d < 10,
    ensures
        s@ == seq![digit_char(d as int)],
{
    proof {
        reveal_strlit("0");
        reveal_strlit("1");
        reveal_strlit("2");
        reveal_strlit("3");
        reveal_strlit("4");
        reveal_strlit("5");
        reveal_strlit("6");
        reveal_strlit("7");
        reveal_strlit("8");
        reveal_strlit("9");
        assert("0"@ =~= seq!['0']);
        assert("1"@ =~= seq!['1']);
        assert("2"@ =~= seq!['2']);
        assert("3"@ =~= seq!['3']);
        assert("4"@ =~= seq!['4']);
        assert("5"@ =~= seq!['5']);
        assert("6"@ =~= seq!['6']);
        assert("7"@ =~= seq!['7']);
        assert("8"@ =~= seq!['8']);
        assert("9"@ =~= seq!['9']);
    }
    if d == 0 {
        "0"
    } else if d == 1 {
        "1"
    } else if d == 2 {
        "2"
    } else if d == 3 {
        "3"
    } else if d == 4 {
        "4"
    } else if d == 5 {
        "5"
    } else if d == 6 {
        "6"
    } else if d == 7 {
        "7"
    } else if d == 8 {
        "8"
    } else {
        "9"
    }
}

/// Append the decimal digits of `n` to `out`, most significant first.
fn push_digits(out: &mut String, n: u64)
    ensures
        final(out)@ == old(out)@ + dec_rep(n as nat),
    decreases n,
{
    if n < 10 {
        out.append(digit_str(n));
        proof {
            assert(out@ =~= old(out)@ + dec_rep(n as nat));
        }
    } else {
        proof {
            lemma_div_is_strictly_smaller(n as int, 10);
        }
        push_digits(out, n / 10);
        out.append(digit_str(n % 10));
        proof {
            assert(out@ =~= old(out)@ + dec_rep(n as nat));
        }
    }
}

/// The decimal rendering of `n`: a minus sign for negative values, then
/// the digits of the magnitude.
pub fn int_string(n: i64) -> (s: String)
    ensures
        s@ == int_rep(n as int),
{
    if n < 0 {
        let mut s = String::from_str("-");
        proof {
            reveal_strlit("-");
            assert(s@ =~= seq!['-']);
        }
        let magnitude: u64 = (-(n + 1)) as u64 + 1;
        assert(magnitude == -(n as int));
        push_digits(&mut s, magnitude);
        proof {
            assert(s@ =~= int_rep(n as int));
        }
        s
    } else {
        let mut s = String::from_str("");
        proof {
            reveal_strlit("");
            assert(s@ =~= Seq::<char>::empty());
        }
        push_digits(&mut s, n as u64);
        proof {
            assert(s@ =~= int_rep(n as int));
        }
        s
    }
}

/// The factor line: every number rendered in decimal, joined by a comma
/// and a space, with no separator around the ends.
pub fn factor_line(factors: &Vec<i64>) -> (line: String)
    requires
        factors@.len() >= 1,
    ensures
        line@ == line_rep(factors@),
{
    let mut line = int_string(factors[0]);
    proof {
        assert(factors@.take(1)[0] == factors@[0]);
        assert(line@ =~= line_rep(factors@.take(1)));
    }
    let mut i: usize = 1;
    while i < factors.len()
        invariant
            1 <= i <= factors@.len(),
            line@ == line_rep(factors@.take(i as int)),
        decreases factors@.len() - i,
    {
        line.append(", ");
        let piece = int_string(factors[i]);
        line.append(piece.as_str());
        proof {
            reveal_strlit(", ");
            assert(", "@ =~= seq![',', ' ']);
            let t = factors@.take(i as int + 1);
            assert(t.drop_last() =~= factors@.take(i as int));
            assert(t.last() == factors@[i as int]);
            assert(line@ =~= line_rep(t));
        }
        i = i + 1;
    }
    proof {
        assert(factors@.take(factors@.len() as int) =~= factors@);
    }
    line
}

} // verus!
