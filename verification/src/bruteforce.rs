//! This strategy is brute-force: It generates guesses of all possible
//! combinations of pegs, and checks each against all clues. If a generated guess doesn't contradict
//! any clue, it is a valid solution.
use crate::counting::{
    both, but_not, class_counts, count_where, in_class, lemma_count_by_class,
    lemma_count_implies, lemma_count_none, lemma_count_one_more, lemma_count_same,
    lemma_count_split, lemma_count_strict, lemma_sum_add, lemma_sum_same, pointwise_sum,
};
use crate::combinations::{combinations, SliceCombo};
use crate::score::{
    agrees_with, color_at, exact_matches, is_peg, lemma_score_bounds, partial_matches, same_peg,
    shared_by_color, shared_pegs,
};
use crate::solution::{
    alphabet_of, any_neighbouring_same, ascii_pegs, clue_pegs, distinct, first_solution_text,
    is_solution, neighbouring, solutions, solutions_among, solvable_input, uniform,
};
use crate::{Clue, ClueView, Indicator, Marker, Peg, Pegs};
use std::string::FromUtf8Error;
use vstd::pervasive::unreached;
use vstd::prelude::*;
use vstd::utf8::{encode_utf8, encode_utf8_decode_utf8, valid_utf8};

verus! {

/// Holds of the slots that carry the marker `kind`.
spec fn marked_as(markers: Seq<Marker>, kind: Marker) -> spec_fn(int) -> bool {
    |j: int| markers[j] == kind
}

/// Holds of the clue slots of color `p` that are marked as a dot.
spec fn dot_of_color(markers: Seq<Marker>, clue: Seq<Peg>, p: Peg) -> spec_fn(int) -> bool {
    |j: int| markers[j] == Marker::Dot && clue[j] == p
}

/// Holds of the slots in which `a` holds the peg `p` and `b` another one.
spec fn loose_of_color(a: Seq<Peg>, b: Seq<Peg>, p: Peg) -> spec_fn(int) -> bool {
    |k: int| a[k] != b[k] && a[k] == p
}

/// The number of clue slots of color `p` that are marked as a dot.
spec fn dots_of(markers: Seq<Marker>, clue: Seq<Peg>, p: Peg) -> nat {
    count_where(markers.len(), dot_of_color(markers, clue, p))
}

/// Among the first `n` slots, how many hold the peg `p` in `a` and another
/// one in `b`.
spec fn loose(a: Seq<Peg>, b: Seq<Peg>, p: Peg, n: nat) -> nat {
    count_where(n, loose_of_color(a, b, p))
}

spec fn smaller(a: nat, b: nat) -> nat {
    if a <= b {
        a
    } else {
        b
    }
}

/// The heart markers stand exactly where guess and clue hold the same peg.
spec fn hearts_marked(markers: Seq<Marker>, guess: Seq<Peg>, clue: Seq<Peg>) -> bool {
    forall|j: int|
        0 <= j < markers.len() ==> (#[trigger] markers[j] == Marker::Heart <==> guess[j]
            == clue[j])
}

/// The dot markers are what the first `i` guess slots have claimed: of each
/// color, as many clue slots as there are loose guess pegs of that color
/// among them, as far as the loose clue slots of that color go.
spec fn dots_settled(markers: Seq<Marker>, guess: Seq<Peg>, clue: Seq<Peg>, i: nat) -> bool {
    forall|p: Peg| #[trigger]
        dots_of(markers, clue, p) == smaller(
            loose(guess, clue, p, i),
            loose(clue, guess, p, clue.len()),
        )
}

/// A guess slot that is a heart claims no dot.
proof fn lemma_heart_claims_nothing(
    markers: Seq<Marker>,
    guess: Seq<Peg>,
    clue: Seq<Peg>,
    i: nat,
)
    requires
        i < guess.len(),
        guess[i as int] == clue[i as int],
        dots_settled(markers, guess, clue, i),
    ensures
        dots_settled(markers, guess, clue, i + 1),
{
    assert forall|p: Peg| #[trigger]
        dots_of(markers, clue, p) == smaller(
            loose(guess, clue, p, i + 1),
            loose(clue, guess, p, clue.len()),
        ) by {
        assert(!loose_of_color(guess, clue, p)(i as int));
        assert(loose(guess, clue, p, i + 1) == loose(guess, clue, p, i));
    }
}

/// A loose guess slot that finds an unmarked clue slot of its color claims it.
proof fn lemma_dot_claimed(
    markers: Seq<Marker>,
    guess: Seq<Peg>,
    clue: Seq<Peg>,
    i: nat,
    j: int,
)
    requires
        markers.len() == clue.len() == guess.len(),
        i < guess.len(),
        guess[i as int] != clue[i as int],
        hearts_marked(markers, guess, clue),
        dots_settled(markers, guess, clue, i),
        0 <= j < clue.len(),
        clue[j] == guess[i as int],
        markers[j] == Marker::Unmarked,
    ensures
        hearts_marked(markers.update(j, Marker::Dot), guess, clue),
        dots_settled(markers.update(j, Marker::Dot), guess, clue, i + 1),
{
    let n = clue.len();
    let after = markers.update(j, Marker::Dot);
    let mine = guess[i as int];
    assert(markers[j] != Marker::Heart);
    assert forall|p: Peg| #[trigger]
        dots_of(after, clue, p) == smaller(
            loose(guess, clue, p, i + 1),
            loose(clue, guess, p, n),
        ) by {
        let was = dot_of_color(markers, clue, p);
        let is = dot_of_color(after, clue, p);
        assert(dots_of(markers, clue, p) == smaller(
            loose(guess, clue, p, i),
            loose(clue, guess, p, n),
        ));
        if p == mine {
            lemma_count_one_more(n, was, is, j);
            assert(loose_of_color(guess, clue, p)(i as int));
            assert(loose(guess, clue, p, i + 1) == loose(guess, clue, p, i) + 1);
            let open = loose_of_color(clue, guess, p);
            assert forall|k: int| 0 <= k < n && #[trigger] was(k) implies open(k) by {
                assert(markers[k] != Marker::Heart);
            }
            lemma_count_strict(n, was, open, j);
        } else {
            lemma_count_same(n, was, is);
            assert(!loose_of_color(guess, clue, p)(i as int));
            assert(loose(guess, clue, p, i + 1) == loose(guess, clue, p, i));
        }
    }
    assert forall|k: int| 0 <= k < after.len() implies (#[trigger] after[k] == Marker::Heart
        <==> guess[k] == clue[k]) by {
        assert(markers[k] == Marker::Heart <==> guess[k] == clue[k]);
    }
}

/// A loose guess slot that finds no unmarked clue slot of its color claims
/// nothing: all loose clue slots of that color are taken.
proof fn lemma_dot_unclaimed(markers: Seq<Marker>, guess: Seq<Peg>, clue: Seq<Peg>, i: nat)
    requires
        markers.len() == clue.len() == guess.len(),
        i < guess.len(),
        guess[i as int] != clue[i as int],
        hearts_marked(markers, guess, clue),
        dots_settled(markers, guess, clue, i),
        forall|k: int|
            0 <= k < clue.len() ==> !(clue[k] == guess[i as int] && #[trigger] markers[k]
                == Marker::Unmarked),
    ensures
        dots_settled(markers, guess, clue, i + 1),
{
    let n = clue.len();
    let mine = guess[i as int];
    assert forall|p: Peg| #[trigger]
        dots_of(markers, clue, p) == smaller(
            loose(guess, clue, p, i + 1),
            loose(clue, guess, p, n),
        ) by {
        assert(dots_of(markers, clue, p) == smaller(
            loose(guess, clue, p, i),
            loose(clue, guess, p, n),
        ));
        if p == mine {
            let taken = dot_of_color(markers, clue, p);
            let open = loose_of_color(clue, guess, p);
            assert forall|k: int| 0 <= k < n && #[trigger] open(k) implies taken(k) by {
                assert(markers[k] != Marker::Heart);
                assert(markers[k] != Marker::Unmarked);
            }
            lemma_count_implies(n, open, taken);
            assert(loose_of_color(guess, clue, p)(i as int));
            assert(loose(guess, clue, p, i + 1) == loose(guess, clue, p, i) + 1);
        } else {
            assert(!loose_of_color(guess, clue, p)(i as int));
            assert(loose(guess, clue, p, i + 1) == loose(guess, clue, p, i));
        }
    }
}

/// Once every guess slot has had its turn, the markers hold the score.
proof fn lemma_markers_hold_score(markers: Seq<Marker>, guess: Seq<Peg>, clue: Seq<Peg>)
    requires
        markers.len() == clue.len() == guess.len(),
        hearts_marked(markers, guess, clue),
        dots_settled(markers, guess, clue, guess.len()),
    ensures
        count_where(markers.len(), marked_as(markers, Marker::Heart)) == exact_matches(
            guess,
            clue,
        ),
        count_where(markers.len(), marked_as(markers, Marker::Dot)) == partial_matches(
            guess,
            clue,
        ),
{
    let n = guess.len();
    let same = same_peg(guess, clue);
    lemma_count_same(n, marked_as(markers, Marker::Heart), same);
    let dot = marked_as(markers, Marker::Dot);
    let dots = class_counts(n, dot, color_at(clue));
    let exact = class_counts(n, same, color_at(guess));
    lemma_count_by_class(n, dot, color_at(clue), 256);
    lemma_count_by_class(n, same, color_at(guess), 256);
    let shared = shared_by_color(guess, clue);
    let total = pointwise_sum(exact, dots);
    assert forall|p: int| 0 <= p < 256 implies #[trigger] shared(p) == total(p) by {
        let q = p as Peg;
        let here = in_class(same, color_at(guess), p);
        lemma_count_same(n, in_class(dot, color_at(clue), p), dot_of_color(markers, clue, q));
        assert(dots(p) == dots_of(markers, clue, q));
        lemma_count_split(n, is_peg(guess, q), same);
        lemma_count_same(n, both(is_peg(guess, q), same), here);
        lemma_count_same(n, but_not(is_peg(guess, q), same), loose_of_color(guess, clue, q));
        lemma_count_split(n, is_peg(clue, q), same);
        lemma_count_same(n, both(is_peg(clue, q), same), here);
        lemma_count_same(n, but_not(is_peg(clue, q), same), loose_of_color(clue, guess, q));
    }
    lemma_sum_same(256, shared, total);
    lemma_sum_add(256, exact, dots);
    lemma_score_bounds(guess, clue);
}

/// The leftmost clue slot that holds `peg` and is not marked yet.
fn first_unmarked(clue: &Pegs, markers: &Vec<Marker>, peg: Peg) -> (found: Option<usize>)
    requires
        markers@.len() == clue@.len(),
    ensures
        match found {
            Some(j) => {
                &&& j < clue@.len()
                &&& clue@[j as int] == peg
                &&& markers@[j as int] == Marker::Unmarked
                &&& forall|k: int|
                    0 <= k < j ==> !(clue@[k] == peg && #[trigger] markers@[k]
                        == Marker::Unmarked)
            },
            None => forall|k: int|
                0 <= k < clue@.len() ==> !(clue@[k] == peg && #[trigger] markers@[k]
                    == Marker::Unmarked),
        },
{
    let len = clue.len();
    let mut j: usize = 0;
    while j < len
        invariant
            len == clue@.len(),
            markers@.len() == clue@.len(),
            j <= len,
            forall|k: int|
                0 <= k < j ==> !(clue@[k] == peg && #[trigger] markers@[k] == Marker::Unmarked),
        decreases len - j,
    {
        if clue[j] == peg && markers[j] == Marker::Unmarked {
            return Some(j);
        }
        j += 1;
    }
    None
}

/// Compares `guess` against `clue`, and returns the resulting indicator.
///
/// Hearts are the slots in which both hold the same peg. Dots are the pegs
/// that both have in common beyond those: a peg counts once, as a heart or
/// as a dot, and a clue slot is used once.
pub fn compare(guess: &Pegs, clue: &Pegs) -> (indicator: Indicator)
    requires
        guess@.len() == clue@.len(),
        guess@.len() <= u8::MAX,
    ensures
        indicator.hearts == exact_matches(guess@, clue@),
        indicator.dots == partial_matches(guess@, clue@),
        indicator.hearts + indicator.dots == shared_pegs(guess@, clue@),
        indicator.hearts + indicator.dots <= guess@.len(),
{
    let len = guess.len();
    let mut markers = vec![Marker::Unmarked; len];
    // First determine hearts
    for i in 0..len
        invariant
            len == guess@.len() == clue@.len() == markers@.len(),
            forall|j: int|
                0 <= j < i ==> (#[trigger] markers@[j] == Marker::Heart <==> guess@[j]
                    == clue@[j]),
            forall|j: int| 0 <= j < len ==> #[trigger] markers@[j] != Marker::Dot,
            forall|j: int| i <= j < len ==> #[trigger] markers@[j] == Marker::Unmarked,
    {
        if clue[i] == guess[i] {
            markers[i] = Marker::Heart;
        }
    }
    proof {
        assert forall|p: Peg| #[trigger]
            dots_of(markers@, clue@, p) == smaller(
                loose(guess@, clue@, p, 0),
                loose(clue@, guess@, p, clue@.len()),
            ) by {
            lemma_count_none(len as nat, dot_of_color(markers@, clue@, p));
        }
    }
    // Then determine dots
    for i in 0..len
        invariant
            len == guess@.len() == clue@.len() == markers@.len(),
            hearts_marked(markers@, guess@, clue@),
            dots_settled(markers@, guess@, clue@, i as nat),
    {
        if markers[i] == Marker::Heart {
            // A peg used for a heart can't be used for being a dot.
            proof {
                lemma_heart_claims_nothing(markers@, guess@, clue@, i as nat);
            }
        } else {
            // A single guess peg can only ever count as one dot.
            match first_unmarked(clue, &markers, guess[i]) {
                Some(j) => {
                    proof {
                        lemma_dot_claimed(markers@, guess@, clue@, i as nat, j as int);
                    }
                    markers[j] = Marker::Dot;
                },
                None => {
                    proof {
                        lemma_dot_unclaimed(markers@, guess@, clue@, i as nat);
                    }
                },
            }
        }
    }
    let mut dots: u8 = 0;
    let mut hearts: u8 = 0;
    for k in 0..len
        invariant
            len == markers@.len(),
            len <= u8::MAX,
            dots == count_where(k as nat, marked_as(markers@, Marker::Dot)),
            hearts == count_where(k as nat, marked_as(markers@, Marker::Heart)),
            dots + hearts <= k,
    {
        if markers[k] == Marker::Dot {
            dots += 1;
        } else if markers[k] == Marker::Heart {
            hearts += 1;
        }
    }
    proof {
        lemma_markers_hold_score(markers@, guess@, clue@);
        lemma_score_bounds(guess@, clue@);
    }
    Indicator { dots, hearts }
}

/// Whether two slots of the seven that touch hold the same peg.
pub fn seven_peg_any_neighbouring_same(pegs: &Pegs) -> (same: bool)
    requires
        pegs@.len() == 7,
    ensures
        same == any_neighbouring_same(pegs@),
{
    let top_left = pegs[0];
    let top_right = pegs[1];
    let left = pegs[2];
    let hub = pegs[3];
    let right = pegs[4];
    let bottom_left = pegs[5];
    let bottom_right = pegs[6];
    let same = top_left == top_right || top_left == left || top_left == hub || top_right == hub
        || top_right == right || left == hub || left == bottom_left || hub == right || hub
        == bottom_left || hub == bottom_right || right == bottom_right || bottom_left
        == bottom_right;
    proof {
        let s = pegs@;
        if same {
            if top_left == top_right {
                assert(neighbouring(0, 1) && s[0] == s[1]);
            } else if top_left == left {
                assert(neighbouring(0, 2) && s[0] == s[2]);
            } else if top_left == hub {
                assert(neighbouring(0, 3) && s[0] == s[3]);
            } else if top_right == hub {
                assert(neighbouring(1, 3) && s[1] == s[3]);
            } else if top_right == right {
                assert(neighbouring(1, 4) && s[1] == s[4]);
            } else if left == hub {
                assert(neighbouring(2, 3) && s[2] == s[3]);
            } else if left == bottom_left {
                assert(neighbouring(2, 5) && s[2] == s[5]);
            } else if hub == right {
                assert(neighbouring(3, 4) && s[3] == s[4]);
            } else if hub == bottom_left {
                assert(neighbouring(3, 5) && s[3] == s[5]);
            } else if hub == bottom_right {
                assert(neighbouring(3, 6) && s[3] == s[6]);
            } else if right == bottom_right {
                assert(neighbouring(4, 6) && s[4] == s[6]);
            } else {
                assert(neighbouring(5, 6) && s[5] == s[6]);
            }
        }
    }
    same
}

/// Whether `guess` contradicts none of `clues`.
pub fn validate_guess(guess: &Pegs, clues: &[Clue]) -> (valid: bool)
    requires
        guess@.len() <= u8::MAX,
        forall|i: int|
            0 <= i < clues@.len() ==> (#[trigger] clues.deep_view()[i]).pegs.len() == guess@.len(),
    ensures
        valid == is_solution(guess@, clues.deep_view()),
{
    if guess.len() == 7 && seven_peg_any_neighbouring_same(guess) {
        return false;
    }
    for i in 0..clues.len()
        invariant
            guess@.len() <= u8::MAX,
            forall|j: int|
                0 <= j < clues@.len() ==> (#[trigger] clues.deep_view()[j]).pegs.len()
                    == guess@.len(),
            forall|j: int| 0 <= j < i ==> agrees_with(guess@, #[trigger] clues.deep_view()[j]),
    {
        let clue = &clues[i];
        assert(clues.deep_view()[i as int] == clue@);
        if clue.indicator != compare(guess, clue.pegs.as_slice()) {
            return false;
        }
    }
    true
}

/// Adds `peg` to `alphabet` unless it is there.
fn add_peg(alphabet: &mut Vec<Peg>, peg: Peg)
    ensures
        final(alphabet)@ == if old(alphabet)@.contains(peg) {
            old(alphabet)@
        } else {
            old(alphabet)@.push(peg)
        },
{
    let len = alphabet.len();
    for i in 0..len
        invariant
            len == alphabet@.len(),
            alphabet@ == old(alphabet)@,
            forall|j: int| 0 <= j < i ==> alphabet@[j] != peg,
    {
        if alphabet[i] == peg {
            return ;
        }
    }
    alphabet.push(peg);
}

/// The alphabet of a puzzle.
fn collect_alphabet(free_pegs: &Pegs, clues: &[Clue]) -> (alphabet: Vec<Peg>)
    ensures
        alphabet@ == alphabet_of(free_pegs@, clues.deep_view()),
{
    let ghost all = clues.deep_view();
    let mut alphabet: Vec<Peg> = Vec::new();
    for i in 0..clues.len()
        invariant
            all == clues.deep_view(),
            alphabet@ == distinct(clue_pegs(all.take(i as int))),
    {
        let pegs = &clues[i].pegs;
        let ghost seen = clue_pegs(all.take(i as int));
        for j in 0..pegs.len()
            invariant
                i < all.len(),
                pegs@ == all[i as int].pegs,
                seen == clue_pegs(all.take(i as int)),
                alphabet@ == distinct(seen + pegs@.take(j as int)),
        {
            proof {
                let more = seen + pegs@.take(j + 1);
                assert(more.drop_last() == seen + pegs@.take(j as int));
            }
            add_peg(&mut alphabet, pegs[j]);
        }
        proof {
            assert(pegs@.take(pegs@.len() as int) == pegs@);
            assert(all.take(i + 1).drop_last() == all.take(i as int));
        }
    }
    let ghost seen = clue_pegs(all);
    assert(all.take(all.len() as int) == all);
    for j in 0..free_pegs.len()
        invariant
            seen == clue_pegs(all),
            alphabet@ == distinct(seen + free_pegs@.take(j as int)),
    {
        proof {
            let more = seen + free_pegs@.take(j + 1);
            assert(more.drop_last() == seen + free_pegs@.take(j as int));
        }
        add_peg(&mut alphabet, free_pegs[j]);
    }
    assert(free_pegs@.take(free_pegs@.len() as int) == free_pegs@);
    alphabet
}

/// The solutions of a puzzle, handed out one at a time in odometer order.
pub struct Solutions<'a> {
    clues: &'a [Clue],
    combos: SliceCombo<Peg>,
}

impl<'a> Solutions<'a> {
    /// The clues that a solution must not contradict.
    pub closed spec fn clues(&self) -> Seq<ClueView> {
        self.clues.deep_view()
    }

    /// The candidates that have not been tried yet, in their order.
    pub closed spec fn candidates(&self) -> Seq<Seq<Peg>> {
        self.combos.remaining()
    }

    /// The candidates are as long as each clue.
    pub closed spec fn wf(&self) -> bool {
        &&& self.combos.wf()
        &&& self.combos.slots() <= u8::MAX
        &&& forall|i: int|
            0 <= i < self.clues@.len() ==> (#[trigger] self.clues.deep_view()[i]).pegs.len()
                == self.combos.slots()
    }

    /// The solutions that are still to come, in their order.
    pub open spec fn remaining(&self) -> Seq<Seq<Peg>> {
        solutions_among(self.candidates(), self.clues())
    }

    /// Hands out the next solution, or `None` once there is no more.
    pub fn next(&mut self) -> (item: Option<Vec<Peg>>)
        requires
            old(self).wf(),
        ensures
            final(self).wf(),
            final(self).clues() == old(self).clues(),
            match item {
                Some(guess) => {
                    &&& old(self).remaining().len() > 0
                    &&& guess@ == old(self).remaining().first()
                    &&& is_solution(guess@, old(self).clues())
                    &&& final(self).remaining() == old(self).remaining().drop_first()
                },
                None => {
                    &&& old(self).remaining().len() == 0
                    &&& final(self).remaining().len() == 0
                },
            },
    {
        loop
            invariant
                self.wf(),
                self.clues == old(self).clues,
                self.combos.alphabet() == old(self).combos.alphabet(),
                self.combos.slots() == old(self).combos.slots(),
                solutions_among(self.combos.remaining(), self.clues.deep_view()) == old(
                    self,
                ).remaining(),
            decreases self.combos.total() - self.combos.yielded(),
        {
            let ghost before = self.combos.remaining();
            proof {
                self.combos.lemma_yielded_bound();
            }
            match self.combos.next() {
                Some(guess) => {
                    assert(before.first() == guess@);
                    assert(self.combos.remaining() == before.drop_first());
                    if validate_guess(guess.as_slice(), self.clues) {
                        return Some(guess);
                    }
                },
                None => {
                    assert(before.len() == 0);
                    return None;
                },
            }
        }
    }

    /// Hands out the solutions that come next, up to `limit` of them.
    pub fn take(&mut self, limit: usize) -> (taken: Vec<Vec<Peg>>)
        requires
            old(self).wf(),
        ensures
            final(self).wf(),
            final(self).clues() == old(self).clues(),
            taken@.len() == if limit <= old(self).remaining().len() {
                limit as nat
            } else {
                old(self).remaining().len()
            },
            forall|i: int|
                0 <= i < taken@.len() ==> (#[trigger] taken@[i])@ == old(self).remaining()[i],
            final(self).remaining() == old(self).remaining().skip(taken@.len() as int),
    {
        let mut taken: Vec<Vec<Peg>> = Vec::new();
        assert(self.remaining().skip(0) == self.remaining());
        while taken.len() < limit
            invariant
                self.wf(),
                self.clues() == old(self).clues(),
                taken@.len() <= limit,
                taken@.len() <= old(self).remaining().len(),
                forall|i: int|
                    0 <= i < taken@.len() ==> (#[trigger] taken@[i])@ == old(self).remaining()[i],
                self.remaining() == old(self).remaining().skip(taken@.len() as int),
            decreases limit - taken@.len(),
        {
            let ghost left = self.remaining();
            match self.next() {
                Some(guess) => {
                    taken.push(guess);
                    assert(left.drop_first() == old(self).remaining().skip(taken@.len() as int));
                },
                None => {
                    return taken;
                },
            }
        }
        taken
    }
}

/// All solutions of the puzzle given by `clues`, over the pegs of the clues
/// and `free_pegs`, to be taken one at a time.
pub fn solve_bruteforce_raw<'a>(free_pegs: &'a Pegs, clues: &'a [Clue]) -> (found: Solutions<'a>)
    requires
        solvable_input(clues.deep_view()),
    ensures
        found.wf(),
        found.clues() == clues.deep_view(),
        found.remaining() == solutions(free_pegs@, clues.deep_view()),
{
    let first_clue = &clues[0];
    assert(clues.deep_view()[0] == first_clue@);
    let set = collect_alphabet(free_pegs, clues);
    let combos = SliceCombo::new(set, first_clue.pegs.len());
    assert(combos.remaining() == combinations(set@, first_clue.pegs@.len()));
    Solutions { clues, combos }
}

/// Whether all of `clues` have the same length, and one that an indicator
/// can count.
pub fn uniform_clues(clues: &[Clue]) -> (all: bool)
    ensures
        all == uniform(clues.deep_view()),
{
    if clues.len() == 0 {
        return true;
    }
    let len = clues[0].pegs.len();
    assert(clues.deep_view()[0] == clues@[0]@);
    if len > 255 {
        return false;
    }
    for i in 0..clues.len()
        invariant
            0 < clues@.len(),
            len == clues.deep_view()[0].pegs.len(),
            len <= u8::MAX,
            forall|j: int| 0 <= j < i ==> (#[trigger] clues.deep_view()[j]).pegs.len() == len,
    {
        assert(clues.deep_view()[i as int] == clues@[i as int]@);
        if clues[i].pegs.len() != len {
            assert(clues.deep_view()[i as int].pegs.len() != clues.deep_view()[0].pegs.len());
            return false;
        }
    }
    true
}

/// Whether every peg of `clues` and every free peg is a byte of ASCII.
pub fn pegs_are_ascii(free_pegs: &Pegs, clues: &[Clue]) -> (all: bool)
    ensures
        all == ascii_pegs(free_pegs@, clues.deep_view()),
{
    for k in 0..free_pegs.len()
        invariant
            forall|m: int| 0 <= m < k ==> #[trigger] free_pegs@[m] < 128,
    {
        if free_pegs[k] >= 128 {
            return false;
        }
    }
    for i in 0..clues.len()
        invariant
            forall|m: int| 0 <= m < free_pegs@.len() ==> #[trigger] free_pegs@[m] < 128,
            forall|j: int, m: int|
                0 <= j < i && 0 <= m < clues.deep_view()[j].pegs.len()
                    ==> #[trigger] clues.deep_view()[j].pegs[m] < 128,
    {
        let pegs = &clues[i].pegs;
        assert(clues.deep_view()[i as int] == clues@[i as int]@);
        for k in 0..pegs.len()
            invariant
                i < clues@.len(),
                pegs@ == clues.deep_view()[i as int].pegs,
                forall|m: int| 0 <= m < k ==> #[trigger] pegs@[m] < 128,
        {
            if pegs[k] >= 128 {
                assert(!(clues.deep_view()[i as int].pegs[k as int] < 128));
                return false;
            }
        }
    }
    true
}

/// The error of `String::from_utf8`, which says why bytes are no UTF-8.
#[verifier::external_type_specification]
#[verifier::external_body]
pub struct ExFromUtf8Error(FromUtf8Error);

/// `String::from_utf8` of the standard library: it succeeds exactly on bytes
/// that are valid UTF-8, and the string that it then gives is made of those
/// bytes.
pub assume_specification[ String::from_utf8 ](vec: Vec<u8>) -> (text: Result<
    String,
    FromUtf8Error,
>)
    ensures
        text is Ok <==> valid_utf8(vec@),
        text matches Ok(s) ==> encode_utf8(s@) == vec@,
;

/// The first solution of the puzzle given by `clues`, over the pegs of the
/// clues and `free_pegs`, as a string with one letter for each peg; `None`
/// where there is no solution. The answer depends on nothing but the pegs and
/// what the clues say: asked again, it is the same.
///
/// The pegs are taken as the bytes of the string, so those of the first
/// solution must be UTF-8, as pegs that are letters are.
pub fn solve_bruteforce(free_pegs: &Pegs, clues: &[Clue]) -> (text: Option<String>)
    requires
        solvable_input(clues.deep_view()),
        solutions(free_pegs@, clues.deep_view()).len() > 0 ==> valid_utf8(
            solutions(free_pegs@, clues.deep_view()).first(),
        ),
    ensures
        text.deep_view() == first_solution_text(free_pegs@, clues.deep_view()),
{
    let mut raw = solve_bruteforce_raw(free_pegs, clues);
    match raw.next() {
        Some(guess) => match String::from_utf8(guess) {
            Ok(s) => {
                proof {
                    encode_utf8_decode_utf8(s@);
                }
                Some(s)
            },
            Err(_) => unreached(),
        },
        None => None,
    }
}

} // verus!
