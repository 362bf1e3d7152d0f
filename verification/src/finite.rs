//! The search space of the puzzle is finite: every state reachable by
//! pours rearranges the layers it started with, so each of its layers
//! is drawn from a fixed alphabet, and the number of distinct states
//! of a fixed shape over that alphabet is bounded. The bound drives
//! the termination measure of the breadth-first search.
use vstd::prelude::*;
use vstd::arithmetic::power::lemma_pow1;
use vstd::arithmetic::power::lemma_pow_adds;
use vstd::arithmetic::power::lemma_pow_positive;
use vstd::arithmetic::power::pow;
use vstd::set_lib::lemma_int_range;
use vstd::set_lib::lemma_len_subset;
use vstd::set_lib::set_int_range;
use crate::color::ColorModel;

verus! {

/// The value of a digit string in base `b`, least significant digit
/// first.
pub open spec fn base_encode(digits: Seq<int>, b: int) -> int
    decreases digits.len(),
{
    if digits.len() == 0 {
        0
    } else {
        digits[0] + b * base_encode(digits.skip(1), b)
    }
}

/// All entries are digits in base `b`.
pub open spec fn all_digits(digits: Seq<int>, b: int) -> bool {
    forall|i: int| 0 <= i < digits.len() ==> 0 <= #[trigger] digits[i] < b
}

/// A digit string in base `b` encodes a value below `b` to the power
/// of its length.
pub proof fn lemma_base_encode_bound(digits: Seq<int>, b: int)
    requires
        b >= 1,
        all_digits(digits, b),
    ensures
        0 <= base_encode(digits, b) < pow(b, digits.len() as nat),
    decreases digits.len(),
{
    if digits.len() == 0 {
        vstd::arithmetic::power::lemma_pow0(b);
    } else {
        let rest = digits.skip(1);
        assert forall|i: int| 0 <= i < rest.len() implies 0 <= #[trigger] rest[i] < b by {
            assert(rest[i] == digits[i + 1]);
        }
        lemma_base_encode_bound(rest, b);
        let d = digits[0];
        let e = base_encode(rest, b);
        let p = pow(b, rest.len() as nat);
        assert(0 <= d + b * e < b * p) by (nonlinear_arith)
            requires
                0 <= d < b,
                0 <= e < p,
                b >= 1,
        ;
        lemma_pow1(b);
        lemma_pow_adds(b, 1, rest.len());
        assert(pow(b, digits.len() as nat) == b * p);
    }
}

/// Digit strings of equal length encode equal values in base `b` only
/// when they are equal digit for digit.
pub proof fn lemma_base_encode_injective(d1: Seq<int>, d2: Seq<int>, b: int)
    requires
        b >= 1,
        d1.len() == d2.len(),
        all_digits(d1, b),
        all_digits(d2, b),
        base_encode(d1, b) == base_encode(d2, b),
    ensures
        d1 == d2,
    decreases d1.len(),
{
    if d1.len() == 0 {
        assert(d1 =~= d2);
    } else {
        let r1 = d1.skip(1);
        let r2 = d2.skip(1);
        assert forall|i: int| 0 <= i < r1.len() implies 0 <= #[trigger] r1[i] < b by {
            assert(r1[i] == d1[i + 1]);
        }
        assert forall|i: int| 0 <= i < r2.len() implies 0 <= #[trigger] r2[i] < b by {
            assert(r2[i] == d2[i + 1]);
        }
        let x1 = d1[0];
        let x2 = d2[0];
        let e1 = base_encode(r1, b);
        let e2 = base_encode(r2, b);
        lemma_base_encode_bound(r1, b);
        lemma_base_encode_bound(r2, b);
        assert(x1 == x2 && e1 == e2) by (nonlinear_arith)
            requires
                0 <= x1 < b,
                0 <= x2 < b,
                x1 + b * e1 == x2 + b * e2,
        ;
        lemma_base_encode_injective(r1, r2, b);
        assert forall|i: int| 0 <= i < d1.len() implies d1[i] == d2[i] by {
            if i > 0 {
                assert(r1[i - 1] == d1[i] && r2[i - 1] == d2[i]);
            }
        }
        assert(d1 =~= d2);
    }
}

/// A state of `n` tubes with four layers each.
pub open spec fn state_shape(v: Seq<Seq<ColorModel>>, n: int) -> bool {
    v.len() == n && forall|k: int| 0 <= k < v.len() ==> (#[trigger] v[k]).len() == 4
}

/// Every layer of every tube of the state is drawn from `alpha`.
pub open spec fn state_in_alphabet(v: Seq<Seq<ColorModel>>, alpha: Seq<ColorModel>) -> bool {
    forall|k: int, i: int|
        0 <= k < v.len() && 0 <= i < v[k].len() ==> alpha.contains(#[trigger] v[k][i])
}

/// Some position of `c` in `alpha`.
pub open spec fn digit_of(alpha: Seq<ColorModel>, c: ColorModel) -> int {
    choose|j: int| 0 <= j < alpha.len() && alpha[j] == c
}

/// A tube's layers as digits in base `alpha.len()`.
pub open spec fn tube_digits(t: Seq<ColorModel>, alpha: Seq<ColorModel>) -> Seq<int> {
    t.map_values(|c: ColorModel| digit_of(alpha, c))
}

/// A tube as a single number below `alpha.len()` to the fourth.
pub open spec fn tube_code(t: Seq<ColorModel>, alpha: Seq<ColorModel>) -> int {
    base_encode(tube_digits(t, alpha), alpha.len() as int)
}

/// A state's tubes as digits in base `alpha.len()` to the fourth.
pub open spec fn state_digits(v: Seq<Seq<ColorModel>>, alpha: Seq<ColorModel>) -> Seq<int> {
    v.map_values(|t: Seq<ColorModel>| tube_code(t, alpha))
}

/// A whole state as a single number.
pub open spec fn state_code(v: Seq<Seq<ColorModel>>, alpha: Seq<ColorModel>) -> int {
    base_encode(state_digits(v, alpha), pow(alpha.len() as int, 4))
}

/// The number of distinct states of `n` tubes over an alphabet of `b`
/// colors.
pub open spec fn state_space_size(n: nat, b: int) -> int {
    pow(pow(b, 4), n)
}

/// Tube codes are digits in base `alpha.len()` to the fourth.
proof fn lemma_tube_code_bound(t: Seq<ColorModel>, alpha: Seq<ColorModel>)
    requires
        t.len() == 4,
        forall|i: int| 0 <= i < t.len() ==> alpha.contains(#[trigger] t[i]),
    ensures
        0 <= tube_code(t, alpha) < pow(alpha.len() as int, 4),
{
    let digits = tube_digits(t, alpha);
    assert(alpha.contains(t[0]));
    assert(alpha.len() >= 1);
    assert forall|i: int| 0 <= i < digits.len() implies 0 <= #[trigger] digits[i]
        < alpha.len() as int by {
        assert(alpha.contains(t[i]));
    }
    lemma_base_encode_bound(digits, alpha.len() as int);
}

/// States of the same shape over the alphabet with equal codes are
/// equal.
proof fn lemma_state_code_injective(
    v1: Seq<Seq<ColorModel>>,
    v2: Seq<Seq<ColorModel>>,
    alpha: Seq<ColorModel>,
    n: int,
)
    requires
        alpha.len() >= 1,
        state_shape(v1, n),
        state_shape(v2, n),
        state_in_alphabet(v1, alpha),
        state_in_alphabet(v2, alpha),
        state_code(v1, alpha) == state_code(v2, alpha),
    ensures
        v1 == v2,
{
    let b = alpha.len() as int;
    let big = pow(b, 4);
    lemma_pow_positive(b, 4);
    let s1 = state_digits(v1, alpha);
    let s2 = state_digits(v2, alpha);
    assert forall|k: int| 0 <= k < s1.len() implies 0 <= #[trigger] s1[k] < big by {
        lemma_tube_code_bound(v1[k], alpha);
    }
    assert forall|k: int| 0 <= k < s2.len() implies 0 <= #[trigger] s2[k] < big by {
        lemma_tube_code_bound(v2[k], alpha);
    }
    lemma_base_encode_injective(s1, s2, big);
    assert forall|k: int| 0 <= k < v1.len() implies v1[k] == v2[k] by {
        let t1 = v1[k];
        let t2 = v2[k];
        assert(tube_code(t1, alpha) == s1[k] && tube_code(t2, alpha) == s2[k]);
        let g1 = tube_digits(t1, alpha);
        let g2 = tube_digits(t2, alpha);
        assert forall|i: int| 0 <= i < g1.len() implies 0 <= #[trigger] g1[i] < b && 0 <= g2[i]
            < b by {
            assert(alpha.contains(t1[i]));
            assert(alpha.contains(t2[i]));
        }
        lemma_base_encode_injective(g1, g2, b);
        assert forall|i: int| 0 <= i < t1.len() implies t1[i] == t2[i] by {
            assert(alpha.contains(t1[i]));
            assert(alpha.contains(t2[i]));
            assert(g1[i] == digit_of(alpha, t1[i]));
            assert(g2[i] == digit_of(alpha, t2[i]));
            assert(alpha[digit_of(alpha, t1[i])] == t1[i]);
            assert(alpha[digit_of(alpha, t2[i])] == t2[i]);
        }
        assert(t1 =~= t2);
    }
    assert(v1 =~= v2);
}

/// A list of pairwise distinct states of one shape over one alphabet
/// cannot outgrow the state space: its length is at most the number
/// of distinct states.
pub proof fn lemma_distinct_states_bounded(
    views: Seq<Seq<Seq<ColorModel>>>,
    alpha: Seq<ColorModel>,
    n: int,
)
    requires
        n >= 0,
        alpha.len() >= 1,
        views.no_duplicates(),
        forall|k: int| 0 <= k < views.len() ==> state_shape(#[trigger] views[k], n),
        forall|k: int| 0 <= k < views.len() ==> state_in_alphabet(#[trigger] views[k], alpha),
    ensures
        views.len() <= state_space_size(n as nat, alpha.len() as int),
{
    let b = alpha.len() as int;
    let m = state_space_size(n as nat, b);
    lemma_pow_positive(b, 4);
    lemma_pow_positive(pow(b, 4), n as nat);
    let codes = views.map_values(|v: Seq<Seq<ColorModel>>| state_code(v, alpha));
    assert forall|k1: int, k2: int|
        0 <= k1 < codes.len() && 0 <= k2 < codes.len() && k1 != k2 implies codes[k1]
        != codes[k2] by {
        if codes[k1] == codes[k2] {
            lemma_state_code_injective(views[k1], views[k2], alpha, n);
        }
    }
    assert(codes.no_duplicates());
    assert forall|k: int| 0 <= k < codes.len() implies 0 <= #[trigger] codes[k] < m by {
        let v = views[k];
        let digits = state_digits(v, alpha);
        assert forall|j: int| 0 <= j < digits.len() implies 0 <= #[trigger] digits[j] < pow(
            b,
            4,
        ) by {
            lemma_tube_code_bound(v[j], alpha);
        }
        lemma_base_encode_bound(digits, pow(b, 4));
    }
    codes.unique_seq_to_set();
    lemma_int_range(0, m);
    assert(codes.to_set().subset_of(set_int_range(0, m))) by {
        assert forall|x: int| codes.to_set().contains(x) implies set_int_range(0, m).contains(
            x,
        ) by {
            let k = choose|k: int| 0 <= k < codes.len() && codes[k] == x;
            assert(0 <= codes[k] < m);
        }
    }
    lemma_len_subset(codes.to_set(), set_int_range(0, m));
}

} // verus!
