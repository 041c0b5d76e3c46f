//! Prime factorization by trial division, with the presentation rules the
//! countdown uses: `0` factors as `[0]`, a magnitude of `1` as `[1]`, a
//! prime `p` as `[1, p]`, and anything else as its non-decreasing list of
//! prime factors with multiplicity.

use vstd::prelude::*;

verus! {

use vstd::arithmetic::div_mod::lemma_div_by_self;
use vstd::arithmetic::div_mod::lemma_div_is_strictly_smaller;
use vstd::arithmetic::div_mod::lemma_div_pos_is_pos;
use vstd::arithmetic::div_mod::lemma_fundamental_div_mod;
use vstd::arithmetic::div_mod::lemma_mod_multiples_basic;
use vstd::arithmetic::div_mod::lemma_mod_self_0;
use vstd::math::abs;

/// `d` divides `m` evenly.
pub open spec fn divides(d: int, m: int) -> bool
    recommends
        d > 0,
{
    m % d == 0
}

/// `p` is prime: at least 2, and nothing between 2 and `p` divides it.
pub open spec fn is_prime(p: int) -> bool {
    &&& p >= 2
    &&& forall|d: int| 2 <= d < p ==> !(#[trigger] divides(d, p))
}

/// Nothing between 2 and `c` divides `m`.
pub open spec fn no_divisor_below(m: int, c: int) -> bool {
    forall|d: int| 2 <= d < c ==> !(#[trigger] divides(d, m))
}

/// Product of a sequence of integers; 1 for the empty sequence.
pub open spec fn product(s: Seq<int>) -> int
    decreases s.len(),
{
    if s.len() == 0 {
        1
    } else {
        s.first() * product(s.drop_first())
    }
}

/// The sequence never steps down.
pub open spec fn non_decreasing(s: Seq<int>) -> bool {
    forall|i: int, j: int| 0 <= i <= j < s.len() ==> s[i] <= s[j]
}

/// The factors that trial division records when it starts on `m` with the
/// candidate divisor `c`: each time `c` divides the remaining quotient it
/// is divided out and recorded, otherwise the candidate moves up by one,
/// until the quotient reaches 1.
pub open spec fn trial_seq(m: nat, c: nat) -> Seq<int>
    decreases m, m - c,
    via trial_seq_decreases
{
    if m <= 1 || c < 2 || c > m {
        Seq::empty()
    } else if m % c == 0 {
        seq![c as int] + trial_seq(m / c, c)
    } else {
        trial_seq(m, c + 1)
    }
}

#[via_fn]
proof fn trial_seq_decreases(m: nat, c: nat) {
    if !(m <= 1 || c < 2 || c > m) {
        if m % c == 0 {
            lemma_div_is_strictly_smaller(m as int, c as int);
        } else {
            lemma_mod_self_0(m as int);
        }
    }
}

/// The factorization the library presents for `n`, per the rules above.
pub open spec fn factorization(n: int) -> Seq<int> {
    if n == 0 {
        seq![0int]
    } else {
        let f = trial_seq(abs(n), 2);
        if f.len() == 0 {
            seq![1int]
        } else if f.len() == 1 {
            seq![1int] + f
        } else {
            f
        }
    }
}

/// A sequence of machine integers, read as mathematical integers.
pub open spec fn as_ints(s: Seq<i64>) -> Seq<int> {
    s.map_values(|x: i64| x as int)
}

/// Divisibility runs through a middle term: if `d` divides `a` and `a`
/// divides `b`, then `d` divides `b`.
proof fn lemma_divides_transitive(d: int, a: int, b: int)
    requires
        2 <= d,
        1 <= a,
        1 <= b,
        divides(d, a),
        divides(a, b),
    ensures
        divides(d, b),
{
    lemma_fundamental_div_mod(a, d);
    lemma_fundamental_div_mod(b, a);
    let k = (a / d) * (b / a);
    assert(b == k * d) by (nonlinear_arith)
        requires
            a == d * (a / d),
            b == a * (b / a),
            k == (a / d) * (b / a),
    ;
    lemma_mod_multiples_basic(k, d);
}

/// A number above 1 with no divisor below `c` is itself at least `c`.
proof fn lemma_no_divisor_below_bound(m: int, c: int)
    requires
        m > 1,
        no_divisor_below(m, c),
    ensures
        c <= m,
{
    lemma_mod_self_0(m);
    if c > m {
        assert(divides(m, m));
        assert(false);
    }
}

/// Dividing out the first divisor found keeps the quotient clear of
/// divisors below the candidate, and splits `m` as `c * (m / c)`.
proof fn lemma_quotient_no_divisor_below(m: int, c: int)
    requires
        2 <= c <= m,
        divides(c, m),
        no_divisor_below(m, c),
    ensures
        no_divisor_below(m / c, c),
        m == c * (m / c),
        1 <= m / c,
{
    lemma_fundamental_div_mod(m, c);
    lemma_div_pos_is_pos(m, c);
    if m / c == 0 {
        assert(m == c * 0);
        assert(false);
    }
    assert forall|d: int| 2 <= d < c implies !(#[trigger] divides(d, m / c)) by {
        if divides(d, m / c) {
            lemma_fundamental_div_mod(m / c, d);
            let k = (m / c) / d;
            assert(m == (c * k) * d) by (nonlinear_arith)
                requires
                    m == c * (m / c),
                    m / c == d * k,
            ;
            lemma_mod_multiples_basic(c * k, d);
            assert(divides(d, m));
            assert(false);
        }
    }
}

/// The first candidate that divides `m` is prime: any proper divisor of
/// it would be a smaller divisor of `m`.
proof fn lemma_first_divisor_prime(m: int, c: int)
    requires
        2 <= c <= m,
        divides(c, m),
        no_divisor_below(m, c),
    ensures
        is_prime(c),
{
    assert forall|d: int| 2 <= d < c implies !(#[trigger] divides(d, c)) by {
        if divides(d, c) {
            lemma_divides_transitive(d, c, m);
            assert(false);
        }
    }
}

/// What trial division records, started on `m >= 1` with candidate `c`
/// when no divisor below `c` remains: primes, each at least `c`, in
/// non-decreasing order, multiplying back to `m`; empty exactly for
/// `m == 1`.
pub proof fn lemma_trial_seq_props(m: nat, c: nat)
    requires
        1 <= m,
        2 <= c,
        no_divisor_below(m as int, c as int),
    ensures
        product(trial_seq(m, c)) == m,
        forall|i: int|
            0 <= i < trial_seq(m, c).len() ==> is_prime(#[trigger] trial_seq(m, c)[i]),
        forall|i: int| 0 <= i < trial_seq(m, c).len() ==> #[trigger] trial_seq(m, c)[i] >= c,
        non_decreasing(trial_seq(m, c)),
        trial_seq(m, c).len() == 0 <==> m == 1,
    decreases m, m - c,
{
    let s = trial_seq(m, c);
    if m == 1 {
        assert(s =~= Seq::empty());
    } else {
        lemma_no_divisor_below_bound(m as int, c as int);
        if m % c == 0 {
            lemma_div_is_strictly_smaller(m as int, c as int);
            lemma_quotient_no_divisor_below(m as int, c as int);
            lemma_first_divisor_prime(m as int, c as int);
            let q = m / c;
            lemma_trial_seq_props(q, c);
            let rest = trial_seq(q, c);
            assert(s =~= seq![c as int] + rest);
            assert(s.first() == c as int);
            assert(s.drop_first() =~= rest);
            assert(product(s) == (c as int) * product(rest));
            assert(product(s) == m);
            assert forall|i: int, j: int| 0 <= i <= j < s.len() implies s[i] <= s[j] by {
                if i == 0 {
                    if j > 0 {
                        assert(s[j] == rest[j - 1]);
                        assert(rest[j - 1] >= c);
                    }
                } else {
                    assert(s[i] == rest[i - 1] && s[j] == rest[j - 1]);
                }
            }
        } else {
            lemma_mod_self_0(m as int);
            assert(c < m);
            assert(no_divisor_below(m as int, c + 1 as int)) by {
                assert forall|d: int| 2 <= d < c + 1 implies !(#[trigger] divides(d, m as int)) by {
                    if d == c {
                        assert(!divides(c as int, m as int));
                    }
                }
            }
            lemma_trial_seq_props(m, c + 1);
            assert(s =~= trial_seq(m, c + 1));
        }
    }
}

/// Trial division on a prime `m`, started anywhere between 2 and `m` with
/// no divisor yet found, records exactly `[m]`.
proof fn lemma_trial_seq_prime(m: nat, c: nat)
    requires
        is_prime(m as int),
        2 <= c <= m,
    ensures
        trial_seq(m, c) == seq![m as int],
    decreases m - c,
{
    if m % c == 0 {
        if c < m {
            assert(divides(c as int, m as int));
            assert(false);
        }
        lemma_div_by_self(m as int);
        assert(trial_seq(1nat, c) =~= Seq::empty());
        assert(trial_seq(m, c) =~= seq![m as int]);
    } else {
        lemma_mod_self_0(m as int);
        assert(c < m);
        lemma_trial_seq_prime(m, c + 1);
        assert(trial_seq(m, c) =~= trial_seq(m, c + 1));
    }
}

/// Factorize `n` as the countdown presents it: `[0]` for zero, `[1]` for
/// a magnitude of one, `[1, p]` for a prime magnitude `p`, and otherwise
/// the non-decreasing prime factors of `|n|` with multiplicity.
///
/// The sign of `n` is discarded; the one input whose magnitude exceeds
/// the machine range is excluded.
pub fn factorize(n: i64) -> (factors: Vec<i64>)
    requires
        n != i64::MIN,
    ensures
        as_ints(factors@) == factorization(n as int),
        factors@.len() >= 1,
{
    if n == 0 {
        let factors: Vec<i64> = vec![0];
        proof {
            assert(as_ints(factors@) =~= seq![0int]);
        }
        return factors;
    }
    let mut m: u64 = if n < 0 {
        (-n) as u64
    } else {
        n as u64
    };
    let ghost m0: nat = m as nat;
    assert(m0 == abs(n as int));
    let mut factors: Vec<i64> = Vec::new();
    let mut candidate: u64 = 2;
    proof {
        assert(as_ints(factors@) + trial_seq(m as nat, candidate as nat) =~= trial_seq(m0, 2));
    }
    while m > 1
        invariant
            1 <= m <= m0,
            1 <= m0 <= i64::MAX,
            2 <= candidate,
            m > 1 ==> candidate <= m,
            no_divisor_below(m as int, candidate as int),
            as_ints(factors@) + trial_seq(m as nat, candidate as nat) == trial_seq(m0, 2),
        decreases m, m - candidate,
    {
        if m % candidate == 0 {
            proof {
                lemma_quotient_no_divisor_below(m as int, candidate as int);
                lemma_div_is_strictly_smaller(m as int, candidate as int);
                if m / candidate > 1 {
                    lemma_no_divisor_below_bound((m / candidate) as int, candidate as int);
                }
                assert(trial_seq(m as nat, candidate as nat) =~= seq![candidate as int]
                    + trial_seq((m / candidate) as nat, candidate as nat));
            }
            let ghost before = factors@;
            factors.push(candidate as i64);
            m = m / candidate;
            proof {
                assert(as_ints(factors@) =~= as_ints(before).push(candidate as int));
                assert(as_ints(factors@) + trial_seq(m as nat, candidate as nat) =~= trial_seq(
                    m0,
                    2,
                ));
            }
        } else {
            proof {
                lemma_mod_self_0(m as int);
                assert(candidate < m);
                assert forall|d: int| 2 <= d < candidate + 1 implies !(#[trigger] divides(
                    d,
                    m as int,
                )) by {
                    if d == candidate {
                        assert(!divides(candidate as int, m as int));
                    }
                }
                assert(trial_seq(m as nat, candidate as nat) =~= trial_seq(
                    m as nat,
                    (candidate + 1) as nat,
                ));
            }
            candidate = candidate + 1;
        }
    }
    proof {
        assert(trial_seq(m as nat, candidate as nat) =~= Seq::<int>::empty());
        assert(as_ints(factors@) =~= trial_seq(m0, 2));
    }
    if factors.len() == 0 {
        let ones: Vec<i64> = vec![1];
        proof {
            assert(as_ints(ones@) =~= seq![1int]);
        }
        ones
    } else if factors.len() == 1 {
        let x = factors[0];
        let pair: Vec<i64> = vec![1, x];
        proof {
            assert(as_ints(pair@) =~= seq![1int] + trial_seq(m0, 2));
        }
        pair
    } else {
        factors
    }
}

/// The sign plays no part: opposite inputs factor identically.
pub proof fn lemma_factorization_sign(n: int)
    requires
        n != 0,
    ensures
        factorization(-n) == factorization(n),
{
    assert(abs(-n) == abs(n));
}

/// A prime's factorization is `[1, p]`: the recorded list is the single
/// prime itself, and a leading 1 is put in front of it.
pub proof fn lemma_factorization_prime(p: int)
    requires
        is_prime(p),
    ensures
        factorization(p) == seq![1int, p],
{
    lemma_trial_seq_prime(p as nat, 2);
    assert(factorization(p) =~= seq![1int, p]);
}

/// A magnitude of at least 2 that is not prime keeps its recorded list
/// whole: at least two prime factors, in non-decreasing order, whose
/// product is the magnitude, with no leading 1.
pub proof fn lemma_factorization_composite(n: int)
    requires
        abs(n) >= 2,
        !is_prime(abs(n) as int),
    ensures
        factorization(n) == trial_seq(abs(n), 2),
        factorization(n).len() >= 2,
        non_decreasing(factorization(n)),
        product(factorization(n)) == abs(n),
        forall|i: int|
            0 <= i < factorization(n).len() ==> is_prime(#[trigger] factorization(n)[i]),
{
    let m = abs(n);
    lemma_trial_seq_props(m, 2);
    let f = trial_seq(m, 2);
    if f.len() == 0 {
        assert(false);
    }
    if f.len() == 1 {
        assert(f.drop_first() =~= Seq::<int>::empty());
        assert(product(f.drop_first()) == 1);
        assert(product(f) == f.first() * product(f.drop_first()));
        assert(is_prime(f[0]));
        assert(f[0] == m as int);
        assert(false);
    }
}

/// Two runs on the same input yield the identical sequence: the result
/// of `factorize` is pinned to `factorization`, a function of the input
/// alone, with no hidden state.
pub proof fn lemma_factorize_pure(n: int, first_run: Seq<int>, second_run: Seq<int>)
    requires
        first_run == factorization(n),
        second_run == factorization(n),
    ensures
        first_run == second_run,
{
}

} // verus!
