//! Counting in base `n` with a fixed number of digits: the order in which
//! combinations are enumerated.
use vstd::arithmetic::div_mod::{
    lemma_fundamental_div_mod, lemma_fundamental_div_mod_converse, lemma_mod_bound,
};
use vstd::prelude::*;

verus! {

/// `n` to the power of `k`.
pub open spec fn power(n: nat, k: nat) -> nat
    decreases k,
{
    if k == 0 {
        1
    } else {
        n * power(n, (k - 1) as nat)
    }
}

/// The `k` last digits of `r` written in base `n`, the most significant
/// first.
pub open spec fn digits(n: nat, k: nat, r: nat) -> Seq<nat>
    decreases k,
{
    if k == 0 {
        Seq::empty()
    } else {
        digits(n, (k - 1) as nat, (r / n) as nat).push((r % n) as nat)
    }
}

/// One step of an odometer in base `n`: the rightmost digit that is not
/// `n - 1` goes up by one and all digits to its right go back to 0. Where all
/// digits are `n - 1`, all go back to 0.
pub open spec fn advance(n: nat, d: Seq<nat>) -> Seq<nat>
    decreases d.len(),
{
    if d.len() == 0 {
        d
    } else if d.last() + 1 < n {
        d.drop_last().push(d.last() + 1)
    } else {
        advance(n, d.drop_last()).push(0)
    }
}

/// Every digit is `n - 1`.
pub open spec fn all_top(n: nat, d: Seq<nat>) -> bool {
    forall|j: int| 0 <= j < d.len() ==> #[trigger] d[j] + 1 == n
}

/// There are `k` digits, each below `n`.
pub proof fn lemma_digits_shape(n: nat, k: nat, r: nat)
    requires
        n > 0,
    ensures
        digits(n, k, r).len() == k,
        forall|j: int| 0 <= j < k ==> #[trigger] digits(n, k, r)[j] < n,
    decreases k,
{
    if k > 0 {
        lemma_digits_shape(n, (k - 1) as nat, (r / n) as nat);
        lemma_mod_bound(r as int, n as int);
    }
}

/// The digits of 0 are all 0.
pub proof fn lemma_digits_of_zero(n: nat, k: nat)
    requires
        n > 0,
    ensures
        digits(n, k, 0).len() == k,
        forall|j: int| 0 <= j < k ==> #[trigger] digits(n, k, 0)[j] == 0,
    decreases k,
{
    if k > 0 {
        lemma_fundamental_div_mod_converse(0, n as int, 0, 0);
        lemma_digits_of_zero(n, (k - 1) as nat);
    }
}

/// A positive base has positive powers.
pub proof fn lemma_power_positive(n: nat, k: nat)
    requires
        n > 0,
    ensures
        power(n, k) > 0,
    decreases k,
{
    if k > 0 {
        lemma_power_positive(n, (k - 1) as nat);
        assert(n * power(n, (k - 1) as nat) > 0) by (nonlinear_arith)
            requires
                n > 0,
                power(n, (k - 1) as nat) > 0,
        ;
    }
}

/// Where the digits from place `i` on are all `n - 1`, a step sets them to 0
/// and is a step of the digits before them.
pub proof fn lemma_advance_carries(n: nat, d: Seq<nat>, i: int)
    requires
        0 <= i <= d.len(),
        forall|j: int| i <= j < d.len() ==> #[trigger] d[j] + 1 == n,
    ensures
        advance(n, d) == advance(n, d.take(i)) + Seq::new((d.len() - i) as nat, |j: int| 0nat),
    decreases d.len(),
{
    if i == d.len() {
        assert(d.take(i) == d);
        assert(advance(n, d) =~= advance(n, d) + Seq::new(0, |j: int| 0nat));
    } else {
        let front = d.drop_last();
        lemma_advance_carries(n, front, i);
        assert(front.take(i) == d.take(i));
        assert(advance(n, front).push(0) =~= advance(n, d.take(i)) + Seq::new(
            (d.len() - i) as nat,
            |j: int| 0nat,
        ));
    }
}

/// Counting up by one is one step of the odometer: below the last number
/// that `k` digits can hold, the digits of `r + 1` are a step from the digits
/// of `r`; and the digits are all `n - 1` only at that last number.
pub proof fn lemma_successor(n: nat, k: nat, r: nat)
    requires
        n > 0,
        r < power(n, k),
    ensures
        all_top(n, digits(n, k, r)) <==> r + 1 == power(n, k),
        r + 1 < power(n, k) ==> digits(n, k, r + 1) == advance(n, digits(n, k, r)),
    decreases k,
{
    let d = digits(n, k, r);
    lemma_digits_shape(n, k, r);
    if k > 0 {
        let m = (k - 1) as nat;
        let q = (r / n) as nat;
        let last = (r % n) as nat;
        lemma_fundamental_div_mod(r as int, n as int);
        lemma_mod_bound(r as int, n as int);
        lemma_power_positive(n, m);
        assert(q < power(n, m)) by (nonlinear_arith)
            requires
                n > 0,
                r == n * q + last,
                r < n * power(n, m),
        ;
        lemma_successor(n, m, q);
        lemma_digits_shape(n, m, q);
        assert(d.drop_last() == digits(n, m, q));
        assert(d.last() == last);
        if last + 1 < n {
            lemma_fundamental_div_mod_converse(r as int + 1, n as int, q as int, last as int + 1);
            assert(r + 1 != n * power(n, m)) by (nonlinear_arith)
                requires
                    r + 1 == n * q + (last + 1),
                    0 < last + 1 < n,
            ;
            assert(!all_top(n, d)) by {
                assert(d[k - 1] + 1 != n);
            }
        } else {
            assert(r + 1 == n * (q + 1)) by (nonlinear_arith)
                requires
                    r == n * q + last,
                    last + 1 == n,
            ;
            lemma_fundamental_div_mod_converse(r as int + 1, n as int, q as int + 1, 0);
            if all_top(n, digits(n, m, q)) {
                assert(all_top(n, d)) by {
                    assert forall|j: int| 0 <= j < d.len() implies #[trigger] d[j] + 1 == n by {
                        if j < m {
                            assert(d[j] == digits(n, m, q)[j]);
                        }
                    }
                }
                assert(r + 1 == power(n, k));
            } else {
                assert(!all_top(n, d)) by {
                    let j = choose|j: int|
                        0 <= j < m && #[trigger] digits(n, m, q)[j] + 1 != n;
                    assert(d[j] == digits(n, m, q)[j]);
                }
                assert(r + 1 < power(n, k)) by (nonlinear_arith)
                    requires
                        r + 1 == n * (q + 1),
                        q + 1 < power(n, m),
                        power(n, k) == n * power(n, m),
                        n > 0,
                ;
            }
        }
    } else {
        assert(all_top(n, d));
    }
}

/// The number that the digits `d` spell in base `n`, the most significant
/// first.
pub open spec fn number(n: nat, d: Seq<nat>) -> nat
    decreases d.len(),
{
    if d.len() == 0 {
        0
    } else {
        number(n, d.drop_last()) * n + d.last()
    }
}

/// Digits below `n` spell a number that `d.len()` digits can hold, and they
/// are the digits of that number.
pub proof fn lemma_number_digits(n: nat, d: Seq<nat>)
    requires
        n > 0,
        forall|j: int| 0 <= j < d.len() ==> #[trigger] d[j] < n,
    ensures
        number(n, d) < power(n, d.len()),
        digits(n, d.len(), number(n, d)) == d,
    decreases d.len(),
{
    if d.len() > 0 {
        let front = d.drop_last();
        let k = d.len();
        lemma_number_digits(n, front);
        let q = number(n, front);
        let r = number(n, d);
        lemma_fundamental_div_mod_converse(r as int, n as int, q as int, d.last() as int);
        assert(r < n * power(n, (k - 1) as nat)) by (nonlinear_arith)
            requires
                r == q * n + d.last(),
                d.last() < n,
                q < power(n, (k - 1) as nat),
        ;
        assert(digits(n, k, r) =~= d);
    } else {
        assert(digits(n, 0, 0) =~= d);
    }
}

/// The digits of a number that `k` digits can hold spell that number.
pub proof fn lemma_digits_number(n: nat, k: nat, r: nat)
    requires
        n > 0,
        r < power(n, k),
    ensures
        number(n, digits(n, k, r)) == r,
    decreases k,
{
    if k > 0 {
        let m = (k - 1) as nat;
        let q = (r / n) as nat;
        let last = (r % n) as nat;
        lemma_fundamental_div_mod(r as int, n as int);
        lemma_mod_bound(r as int, n as int);
        assert(q < power(n, m)) by (nonlinear_arith)
            requires
                n > 0,
                r == n * q + last,
                r < n * power(n, m),
        ;
        lemma_digits_number(n, m, q);
        assert(digits(n, k, r).drop_last() == digits(n, m, q));
        assert(q * n + last == r) by (nonlinear_arith)
            requires
                r == n * q + last,
        ;
    }
}

} // verus!
