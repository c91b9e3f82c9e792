//! What the score of a guess against a clue is, stated by counting.
use crate::counting::{
    class_counts, count_where, in_class, lemma_count_by_class, lemma_count_full,
    lemma_count_implies, lemma_count_same, lemma_sum_le, lemma_sum_same, sum_upto,
};
use crate::{ClueView, Peg};
use vstd::prelude::*;

verus! {

/// Holds of the slots of `pegs` in which the peg `p` stands.
pub open spec fn is_peg(pegs: Seq<Peg>, p: Peg) -> spec_fn(int) -> bool {
    |i: int| pegs[i] == p
}

/// Holds of the slots in which `a` and `b` hold the same peg.
pub open spec fn same_peg(a: Seq<Peg>, b: Seq<Peg>) -> spec_fn(int) -> bool {
    |i: int| a[i] == b[i]
}

/// How often the peg `p` occurs in `pegs`.
pub open spec fn occurrences(pegs: Seq<Peg>, p: Peg) -> nat {
    count_where(pegs.len(), is_peg(pegs, p))
}

/// The number of slots in which guess and clue hold the same peg.
pub open spec fn exact_matches(guess: Seq<Peg>, clue: Seq<Peg>) -> nat {
    count_where(guess.len(), same_peg(guess, clue))
}

/// How many pegs of color `p` guess and clue have in common, wherever they
/// stand: the smaller of the two numbers of occurrences.
pub open spec fn shared_of(guess: Seq<Peg>, clue: Seq<Peg>, p: Peg) -> nat {
    if occurrences(guess, p) <= occurrences(clue, p) {
        occurrences(guess, p)
    } else {
        occurrences(clue, p)
    }
}

/// `shared_of` as a function of the color, taken as a number.
pub open spec fn shared_by_color(guess: Seq<Peg>, clue: Seq<Peg>) -> spec_fn(int) -> nat {
    |p: int| shared_of(guess, clue, p as Peg)
}

/// How many pegs guess and clue have in common, wherever they stand, each
/// peg of either counted at most once.
pub open spec fn shared_pegs(guess: Seq<Peg>, clue: Seq<Peg>) -> nat {
    sum_upto(256, shared_by_color(guess, clue))
}

/// The number of pegs that guess and clue have in common but not in the same
/// slot.
pub open spec fn partial_matches(guess: Seq<Peg>, clue: Seq<Peg>) -> nat {
    (shared_pegs(guess, clue) - exact_matches(guess, clue)) as nat
}

/// Whether scoring `guess` against the pegs of `clue` gives the indicator of
/// `clue`, in both counts.
pub open spec fn agrees_with(guess: Seq<Peg>, clue: ClueView) -> bool {
    &&& clue.indicator.hearts == exact_matches(guess, clue.pegs)
    &&& clue.indicator.dots == partial_matches(guess, clue.pegs)
}

/// The color of each slot of `pegs`, as a number.
pub open spec fn color_at(pegs: Seq<Peg>) -> spec_fn(int) -> int {
    |i: int| pegs[i] as int
}

/// `occurrences` as a function of the color, taken as a number.
pub open spec fn occurrences_by_color(pegs: Seq<Peg>) -> spec_fn(int) -> nat {
    |p: int| occurrences(pegs, p as Peg)
}

/// The occurrences of all colors add up to the number of slots.
pub proof fn lemma_occurrences_total(pegs: Seq<Peg>)
    ensures
        sum_upto(256, occurrences_by_color(pegs)) == pegs.len(),
{
    let n = pegs.len();
    let all = |i: int| true;
    let by_class = class_counts(n, all, color_at(pegs));
    lemma_count_by_class(n, all, color_at(pegs), 256);
    lemma_count_full(n, all);
    assert forall|p: int| 0 <= p < 256 implies #[trigger] by_class(p) == occurrences_by_color(
        pegs,
    )(p) by {
        lemma_count_same(n, in_class(all, color_at(pegs), p), is_peg(pegs, p as Peg));
    }
    lemma_sum_same(256, by_class, occurrences_by_color(pegs));
}

/// A score never counts more markers than there are slots, and the exact
/// matches are part of the pegs in common:
/// `exact_matches <= shared_pegs <= length`, so that hearts and dots together
/// are at most the length.
pub proof fn lemma_score_bounds(guess: Seq<Peg>, clue: Seq<Peg>)
    requires
        guess.len() == clue.len(),
    ensures
        exact_matches(guess, clue) <= shared_pegs(guess, clue) <= guess.len(),
        exact_matches(guess, clue) + partial_matches(guess, clue) <= guess.len(),
{
    let n = guess.len();
    let shared = shared_by_color(guess, clue);
    // The pegs in common cannot be more than the pegs of the guess.
    lemma_occurrences_total(guess);
    lemma_sum_le(256, shared, occurrences_by_color(guess));
    // The exact matches of each color are among the pegs in common of that color.
    let same = same_peg(guess, clue);
    let exact = class_counts(n, same, color_at(guess));
    lemma_count_by_class(n, same, color_at(guess), 256);
    assert forall|p: int| 0 <= p < 256 implies #[trigger] exact(p) <= shared(p) by {
        let here = in_class(same, color_at(guess), p);
        lemma_count_implies(n, here, is_peg(guess, p as Peg));
        lemma_count_implies(n, here, is_peg(clue, p as Peg));
    }
    lemma_sum_le(256, exact, shared);
}

/// All slots are exact matches if and only if guess and clue are the same
/// sequence.
pub proof fn lemma_all_hearts_iff_equal(guess: Seq<Peg>, clue: Seq<Peg>)
    requires
        guess.len() == clue.len(),
    ensures
        exact_matches(guess, clue) == guess.len() <==> guess == clue,
{
    let same = same_peg(guess, clue);
    lemma_count_full(guess.len(), same);
    if exact_matches(guess, clue) == guess.len() {
        assert forall|i: int| 0 <= i < guess.len() implies guess[i] == clue[i] by {
            assert(same(i));
        }
        assert(guess =~= clue);
    }
    if guess == clue {
        assert forall|i: int| 0 <= i < guess.len() implies #[trigger] same(i) by {}
    }
}

} // verus!
