//! Counting positions and summing over classes: the arithmetic that scoring
//! and deduction are stated in.
use vstd::prelude::*;

verus! {

/// How many `i` in `0..n` satisfy `f`.
pub open spec fn count_where(n: nat, f: spec_fn(int) -> bool) -> nat
    decreases n,
{
    if n == 0 {
        0
    } else {
        count_where((n - 1) as nat, f) + if f(n - 1) {
            1nat
        } else {
            0nat
        }
    }
}

/// The sum of `f(i)` over `i` in `0..n`.
pub open spec fn sum_upto(n: nat, f: spec_fn(int) -> nat) -> nat
    decreases n,
{
    if n == 0 {
        0
    } else {
        sum_upto((n - 1) as nat, f) + f(n - 1)
    }
}

/// A count over `0..n` is at most `n`.
pub proof fn lemma_count_bound(n: nat, f: spec_fn(int) -> bool)
    ensures
        count_where(n, f) <= n,
    decreases n,
{
    if n > 0 {
        lemma_count_bound((n - 1) as nat, f);
    }
}

/// A count over a longer range is at least the count over a shorter one.
pub proof fn lemma_count_grows(m: nat, n: nat, f: spec_fn(int) -> bool)
    requires
        m <= n,
    ensures
        count_where(m, f) <= count_where(n, f),
    decreases n,
{
    if m < n {
        lemma_count_grows(m, (n - 1) as nat, f);
    }
}

/// Predicates that agree on `0..n` have the same count there.
pub proof fn lemma_count_same(n: nat, f: spec_fn(int) -> bool, g: spec_fn(int) -> bool)
    requires
        forall|i: int| 0 <= i < n ==> #[trigger] f(i) == g(i),
    ensures
        count_where(n, f) == count_where(n, g),
    decreases n,
{
    if n > 0 {
        lemma_count_same((n - 1) as nat, f, g);
    }
}

/// A predicate that implies another has at most its count.
pub proof fn lemma_count_implies(n: nat, f: spec_fn(int) -> bool, g: spec_fn(int) -> bool)
    requires
        forall|i: int| 0 <= i < n && #[trigger] f(i) ==> g(i),
    ensures
        count_where(n, f) <= count_where(n, g),
    decreases n,
{
    if n > 0 {
        lemma_count_implies((n - 1) as nat, f, g);
    }
}

/// A predicate that implies another and fails where the other holds has a
/// strictly smaller count.
pub proof fn lemma_count_strict(
    n: nat,
    f: spec_fn(int) -> bool,
    g: spec_fn(int) -> bool,
    j: int,
)
    requires
        forall|i: int| 0 <= i < n && #[trigger] f(i) ==> g(i),
        0 <= j < n,
        !f(j),
        g(j),
    ensures
        count_where(n, f) < count_where(n, g),
    decreases n,
{
    if j == n - 1 {
        lemma_count_implies((n - 1) as nat, f, g);
    } else {
        lemma_count_strict((n - 1) as nat, f, g, j);
    }
}

/// Making a predicate true at one more position raises its count by one.
pub proof fn lemma_count_one_more(
    n: nat,
    f: spec_fn(int) -> bool,
    g: spec_fn(int) -> bool,
    j: int,
)
    requires
        forall|i: int| 0 <= i < n && i != j ==> #[trigger] f(i) == g(i),
        0 <= j < n,
        !f(j),
        g(j),
    ensures
        count_where(n, g) == count_where(n, f) + 1,
    decreases n,
{
    if j == n - 1 {
        lemma_count_same((n - 1) as nat, f, g);
    } else {
        lemma_count_one_more((n - 1) as nat, f, g, j);
    }
}

/// A predicate that holds nowhere on `0..n` has count zero.
pub proof fn lemma_count_none(n: nat, f: spec_fn(int) -> bool)
    requires
        forall|i: int| 0 <= i < n ==> !#[trigger] f(i),
    ensures
        count_where(n, f) == 0,
    decreases n,
{
    if n > 0 {
        lemma_count_none((n - 1) as nat, f);
    }
}

/// The count reaches `n` exactly when the predicate holds everywhere.
pub proof fn lemma_count_full(n: nat, f: spec_fn(int) -> bool)
    ensures
        count_where(n, f) == n <==> forall|i: int| 0 <= i < n ==> #[trigger] f(i),
    decreases n,
{
    if n > 0 {
        lemma_count_full((n - 1) as nat, f);
        lemma_count_bound((n - 1) as nat, f);
    }
}

/// The predicate that holds where both `f` and `h` hold.
pub open spec fn both(f: spec_fn(int) -> bool, h: spec_fn(int) -> bool) -> spec_fn(int) -> bool {
    |i: int| f(i) && h(i)
}

/// The predicate that holds where `f` holds and `h` does not.
pub open spec fn but_not(f: spec_fn(int) -> bool, h: spec_fn(int) -> bool) -> spec_fn(
    int,
) -> bool {
    |i: int| f(i) && !h(i)
}

/// A count splits in two by any second predicate.
pub proof fn lemma_count_split(n: nat, f: spec_fn(int) -> bool, h: spec_fn(int) -> bool)
    ensures
        count_where(n, f) == count_where(n, both(f, h)) + count_where(n, but_not(f, h)),
    decreases n,
{
    if n > 0 {
        lemma_count_split((n - 1) as nat, f, h);
    }
}

/// A sum over a longer range is at least the sum over a shorter one.
pub proof fn lemma_sum_grows(m: nat, n: nat, f: spec_fn(int) -> nat)
    requires
        m <= n,
    ensures
        sum_upto(m, f) <= sum_upto(n, f),
    decreases n,
{
    if m < n {
        lemma_sum_grows(m, (n - 1) as nat, f);
    }
}

/// Where a function stays below another and both have the same sum, they
/// agree everywhere.
pub proof fn lemma_sum_tight(n: nat, f: spec_fn(int) -> nat, g: spec_fn(int) -> nat)
    requires
        forall|i: int| 0 <= i < n ==> #[trigger] f(i) <= g(i),
        sum_upto(n, f) == sum_upto(n, g),
    ensures
        forall|i: int| 0 <= i < n ==> #[trigger] f(i) == g(i),
    decreases n,
{
    if n > 0 {
        lemma_sum_le((n - 1) as nat, f, g);
        lemma_sum_tight((n - 1) as nat, f, g);
    }
}

/// Functions that agree on `0..n` have the same sum there.
pub proof fn lemma_sum_same(n: nat, f: spec_fn(int) -> nat, g: spec_fn(int) -> nat)
    requires
        forall|i: int| 0 <= i < n ==> #[trigger] f(i) == g(i),
    ensures
        sum_upto(n, f) == sum_upto(n, g),
    decreases n,
{
    if n > 0 {
        lemma_sum_same((n - 1) as nat, f, g);
    }
}

/// A function that stays below another has at most its sum.
pub proof fn lemma_sum_le(n: nat, f: spec_fn(int) -> nat, g: spec_fn(int) -> nat)
    requires
        forall|i: int| 0 <= i < n ==> #[trigger] f(i) <= g(i),
    ensures
        sum_upto(n, f) <= sum_upto(n, g),
    decreases n,
{
    if n > 0 {
        lemma_sum_le((n - 1) as nat, f, g);
    }
}

/// The function whose value at each place is the sum of those of `f` and `g`.
pub open spec fn pointwise_sum(f: spec_fn(int) -> nat, g: spec_fn(int) -> nat) -> spec_fn(
    int,
) -> nat {
    |i: int| f(i) + g(i)
}

/// The sum of a pointwise sum is the sum of the sums.
pub proof fn lemma_sum_add(n: nat, f: spec_fn(int) -> nat, g: spec_fn(int) -> nat)
    ensures
        sum_upto(n, pointwise_sum(f, g)) == sum_upto(n, f) + sum_upto(n, g),
    decreases n,
{
    if n > 0 {
        lemma_sum_add((n - 1) as nat, f, g);
    }
}

/// A function that is zero on `0..n` sums to zero.
pub proof fn lemma_sum_zero(n: nat, f: spec_fn(int) -> nat)
    requires
        forall|i: int| 0 <= i < n ==> #[trigger] f(i) == 0,
    ensures
        sum_upto(n, f) == 0,
    decreases n,
{
    if n > 0 {
        lemma_sum_zero((n - 1) as nat, f);
    }
}

/// Raising a function by one at a single place raises its sum by one.
pub proof fn lemma_sum_one_more(
    n: nat,
    f: spec_fn(int) -> nat,
    g: spec_fn(int) -> nat,
    q: int,
)
    requires
        forall|i: int| 0 <= i < n && i != q ==> #[trigger] f(i) == g(i),
        0 <= q < n,
        g(q) == f(q) + 1,
    ensures
        sum_upto(n, g) == sum_upto(n, f) + 1,
    decreases n,
{
    if q == n - 1 {
        lemma_sum_same((n - 1) as nat, f, g);
    } else {
        lemma_sum_one_more((n - 1) as nat, f, g, q);
    }
}

/// The predicate that holds where `f` holds and the class is `p`.
pub open spec fn in_class(f: spec_fn(int) -> bool, class: spec_fn(int) -> int, p: int) -> spec_fn(
    int,
) -> bool {
    |i: int| f(i) && class(i) == p
}

/// For each class, how many `i` in `0..n` of that class satisfy `f`.
pub open spec fn class_counts(n: nat, f: spec_fn(int) -> bool, class: spec_fn(int) -> int)
    -> spec_fn(int) -> nat {
    |p: int| count_where(n, in_class(f, class, p))
}

/// Counting by class: where every position falls in one of `k` classes, the
/// count of a predicate is the sum over the classes of its count within each.
pub proof fn lemma_count_by_class(
    n: nat,
    f: spec_fn(int) -> bool,
    class: spec_fn(int) -> int,
    k: nat,
)
    requires
        forall|i: int| 0 <= i < n ==> 0 <= #[trigger] class(i) < k,
    ensures
        count_where(n, f) == sum_upto(k, class_counts(n, f, class)),
    decreases n,
{
    let now = class_counts(n, f, class);
    if n == 0 {
        lemma_sum_zero(k, now);
    } else {
        let m = (n - 1) as nat;
        let before = class_counts(m, f, class);
        lemma_count_by_class(m, f, class, k);
        if f(n - 1) {
            lemma_sum_one_more(k, before, now, class(n - 1));
        } else {
            lemma_sum_same(k, before, now);
        }
    }
}

} // verus!
