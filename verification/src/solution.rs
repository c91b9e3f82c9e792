//! What a solution of a puzzle is, and which solutions a puzzle has, in what
//! order.
use crate::combinations::{combination, combinations, lemma_every_sequence_comes};
use crate::odometer::lemma_digits_shape;
use crate::score::agrees_with;
use crate::{ClueView, Peg};
use vstd::prelude::*;
use vstd::utf8::{
    decode_utf8, encode_utf8, encode_utf8_valid_utf8, is_ascii_chars, is_ascii_chars_encode_utf8,
    valid_utf8,
};

verus! {

/// Whether the slots `a` and `b` touch in the layout of the seven peg
/// puzzle, two rows around a center hub:
///
/// ```text
///  [0][1]
/// [2][3][4]
///  [5][6]
/// ```
pub open spec fn neighbouring(a: int, b: int) -> bool {
    ||| a == 0 && (b == 1 || b == 2 || b == 3)
    ||| a == 1 && (b == 3 || b == 4)
    ||| a == 2 && (b == 3 || b == 5)
    ||| a == 3 && (b == 4 || b == 5 || b == 6)
    ||| a == 4 && b == 6
    ||| a == 5 && b == 6
}

/// Whether two slots that touch hold the same peg.
pub open spec fn any_neighbouring_same(pegs: Seq<Peg>) -> bool {
    exists|a: int, b: int| neighbouring(a, b) && #[trigger] pegs[a] == #[trigger] pegs[b]
}

/// Whether `guess` contradicts none of `clues`: scored against each clue it
/// gives exactly that clue's indicator, and, where it has seven slots, no two
/// slots that touch hold the same peg.
pub open spec fn is_solution(guess: Seq<Peg>, clues: Seq<ClueView>) -> bool {
    &&& forall|i: int| 0 <= i < clues.len() ==> agrees_with(guess, #[trigger] clues[i])
    &&& !(guess.len() == 7 && any_neighbouring_same(guess))
}

/// A guess of seven slots with the same peg in two slots that touch is no
/// solution, whatever the clues say.
pub proof fn lemma_neighbours_exclude(guess: Seq<Peg>, clues: Seq<ClueView>, a: int, b: int)
    requires
        guess.len() == 7,
        neighbouring(a, b),
        guess[a] == guess[b],
    ensures
        !is_solution(guess, clues),
{
}

/// The pegs of all clues in one run, clue after clue.
pub open spec fn clue_pegs(clues: Seq<ClueView>) -> Seq<Peg>
    decreases clues.len(),
{
    if clues.len() == 0 {
        Seq::empty()
    } else {
        clue_pegs(clues.drop_last()) + clues.last().pegs
    }
}

/// The pegs of `pegs` without repetition, each where it occurs first.
pub open spec fn distinct(pegs: Seq<Peg>) -> Seq<Peg>
    decreases pegs.len(),
{
    if pegs.len() == 0 {
        Seq::empty()
    } else {
        let front = distinct(pegs.drop_last());
        if front.contains(pegs.last()) {
            front
        } else {
            front.push(pegs.last())
        }
    }
}

/// The pegs that a solution may be made of: every peg that stands in a clue,
/// then the free pegs that stand in none, each once, in the order in which
/// they first occur.
pub open spec fn alphabet_of(free_pegs: Seq<Peg>, clues: Seq<ClueView>) -> Seq<Peg> {
    distinct(clue_pegs(clues) + free_pegs)
}

/// Those of `candidates` that are solutions, in their order.
pub open spec fn solutions_among(candidates: Seq<Seq<Peg>>, clues: Seq<ClueView>) -> Seq<Seq<Peg>>
    decreases candidates.len(),
{
    if candidates.len() == 0 {
        Seq::empty()
    } else if is_solution(candidates.first(), clues) {
        seq![candidates.first()] + solutions_among(candidates.drop_first(), clues)
    } else {
        solutions_among(candidates.drop_first(), clues)
    }
}

/// All solutions of a puzzle: the sequences over its alphabet, of the length
/// of the first clue, that contradict no clue, in odometer order.
pub open spec fn solutions(free_pegs: Seq<Peg>, clues: Seq<ClueView>) -> Seq<Seq<Peg>>
    recommends
        clues.len() > 0,
{
    solutions_among(
        combinations(alphabet_of(free_pegs, clues), clues.first().pegs.len()),
        clues,
    )
}

/// All clues have the same length, and one that a count can hold.
pub open spec fn uniform(clues: Seq<ClueView>) -> bool {
    &&& forall|i: int| 0 <= i < clues.len() ==> (#[trigger] clues[i]).pegs.len() <= u8::MAX
    &&& forall|i: int, j: int|
        0 <= i < clues.len() && 0 <= j < clues.len() ==> (#[trigger] clues[i]).pegs.len() == (
        #[trigger] clues[j]).pegs.len()
}

/// Whether `clues` can be solved for: there is a first clue, and all clues
/// have the same length, one that an indicator can count.
pub open spec fn solvable_input(clues: Seq<ClueView>) -> bool {
    clues.len() > 0 && uniform(clues)
}

/// A distinct run of pegs holds no peg twice, and holds the pegs of the run
/// it was made from.
pub proof fn lemma_distinct(pegs: Seq<Peg>)
    ensures
        distinct(pegs).no_duplicates(),
        forall|p: Peg| #[trigger] distinct(pegs).contains(p) <==> pegs.contains(p),
    decreases pegs.len(),
{
    if pegs.len() > 0 {
        let front = pegs.drop_last();
        let last = pegs.last();
        let before = distinct(front);
        let now = distinct(pegs);
        lemma_distinct(front);
        assert forall|p: Peg| #[trigger] now.contains(p) <==> pegs.contains(p) by {
            assert(before.contains(p) <==> front.contains(p));
            if pegs.contains(p) {
                let i = choose|i: int| 0 <= i < pegs.len() && pegs[i] == p;
                if i < front.len() {
                    assert(front[i] == p);
                }
            }
            if front.contains(p) {
                let i = choose|i: int| 0 <= i < front.len() && front[i] == p;
                assert(pegs[i] == p);
            }
            if p == last {
                assert(pegs[pegs.len() - 1] == p);
            }
            assert(pegs.contains(p) <==> front.contains(p) || p == last);
            if !before.contains(last) {
                if before.contains(p) {
                    let j = choose|j: int| 0 <= j < before.len() && before[j] == p;
                    assert(now[j] == p);
                }
                if p == last {
                    assert(now[before.len() as int] == p);
                }
                if now.contains(p) {
                    let j = choose|j: int| 0 <= j < now.len() && now[j] == p;
                    if j < before.len() {
                        assert(before[j] == p);
                    }
                }
            }
        }
        if !before.contains(last) {
            assert forall|i: int, j: int| 0 <= i < now.len() && 0 <= j < now.len() && i != j
                implies now[i] != now[j] by {
                if i < before.len() && j < before.len() {
                    assert(before[i] != before[j]);
                } else if i < before.len() {
                    assert(before[i] != last);
                } else {
                    assert(before[j] != last);
                }
            }
        }
    }
}

/// The solutions among some candidates are solutions.
pub proof fn lemma_solutions_are_solutions(candidates: Seq<Seq<Peg>>, clues: Seq<ClueView>)
    ensures
        forall|i: int|
            0 <= i < solutions_among(candidates, clues).len() ==> is_solution(
                #[trigger] solutions_among(candidates, clues)[i],
                clues,
            ),
    decreases candidates.len(),
{
    if candidates.len() > 0 {
        let found = solutions_among(candidates, clues);
        let rest = solutions_among(candidates.drop_first(), clues);
        lemma_solutions_are_solutions(candidates.drop_first(), clues);
        assert forall|i: int| 0 <= i < found.len() implies is_solution(
            #[trigger] found[i],
            clues,
        ) by {
            if is_solution(candidates.first(), clues) && i > 0 {
                assert(found[i] == rest[i - 1]);
            }
        }
    }
}

/// A candidate that is a solution is among the solutions.
pub proof fn lemma_solutions_keep_solutions(
    candidates: Seq<Seq<Peg>>,
    clues: Seq<ClueView>,
    guess: Seq<Peg>,
)
    requires
        candidates.contains(guess),
        is_solution(guess, clues),
    ensures
        solutions_among(candidates, clues).contains(guess),
    decreases candidates.len(),
{
    let found = solutions_among(candidates, clues);
    let rest = candidates.drop_first();
    let i = choose|i: int| 0 <= i < candidates.len() && candidates[i] == guess;
    if i == 0 {
        assert(found[0] == guess);
    } else {
        assert(rest[i - 1] == guess);
        lemma_solutions_keep_solutions(rest, clues, guess);
        let later = solutions_among(rest, clues);
        let j = choose|j: int| 0 <= j < later.len() && later[j] == guess;
        if is_solution(candidates.first(), clues) {
            assert(found[j + 1] == guess);
        } else {
            assert(found[j] == guess);
        }
    }
}

/// Brute force misses nothing: each guess of the length of the first clue,
/// made of pegs of the clues and of free pegs, that contradicts no clue is
/// among the solutions.
pub proof fn lemma_every_solution_is_found(
    free_pegs: Seq<Peg>,
    clues: Seq<ClueView>,
    guess: Seq<Peg>,
)
    requires
        clues.len() > 0,
        guess.len() == clues.first().pegs.len(),
        guess.len() > 0,
        forall|j: int|
            0 <= j < guess.len() ==> (clue_pegs(clues) + free_pegs).contains(#[trigger] guess[j]),
        is_solution(guess, clues),
    ensures
        solutions(free_pegs, clues).contains(guess),
{
    let alphabet = alphabet_of(free_pegs, clues);
    lemma_distinct(clue_pegs(clues) + free_pegs);
    assert(alphabet.contains(guess[0]));
    assert forall|j: int| 0 <= j < guess.len() implies alphabet.contains(#[trigger] guess[j]) by {
        assert((clue_pegs(clues) + free_pegs).contains(guess[j]));
    }
    lemma_every_sequence_comes(alphabet, guess);
    lemma_solutions_keep_solutions(combinations(alphabet, guess.len()), clues, guess);
}

/// No solution of a puzzle holds, in seven slots, the same peg in two slots
/// that touch.
pub proof fn lemma_solutions_never_touch(
    free_pegs: Seq<Peg>,
    clues: Seq<ClueView>,
    i: int,
    a: int,
    b: int,
)
    requires
        0 <= i < solutions(free_pegs, clues).len(),
        solutions(free_pegs, clues)[i].len() == 7,
        neighbouring(a, b),
    ensures
        solutions(free_pegs, clues)[i][a] != solutions(free_pegs, clues)[i][b],
{
    lemma_solutions_are_solutions(
        combinations(alphabet_of(free_pegs, clues), clues.first().pegs.len()),
        clues,
    );
    let found = solutions(free_pegs, clues)[i];
    assert(is_solution(found, clues));
    if found[a] == found[b] {
        lemma_neighbours_exclude(found, clues, a, b);
    }
}

/// The first solution of a puzzle as text, each peg the byte of a letter; or
/// `None` where the puzzle has no solution.
pub open spec fn first_solution_text(free_pegs: Seq<Peg>, clues: Seq<ClueView>) -> Option<
    Seq<char>,
> {
    if solutions(free_pegs, clues).len() > 0 {
        Some(decode_utf8(solutions(free_pegs, clues).first()))
    } else {
        None
    }
}

/// What holds of all candidates holds of the solutions among them.
pub proof fn lemma_solutions_are_candidates(
    candidates: Seq<Seq<Peg>>,
    clues: Seq<ClueView>,
    holds: spec_fn(Seq<Peg>) -> bool,
)
    requires
        forall|j: int| 0 <= j < candidates.len() ==> holds(#[trigger] candidates[j]),
    ensures
        forall|i: int|
            0 <= i < solutions_among(candidates, clues).len() ==> holds(
                #[trigger] solutions_among(candidates, clues)[i],
            ),
    decreases candidates.len(),
{
    if candidates.len() > 0 {
        let found = solutions_among(candidates, clues);
        let rest = candidates.drop_first();
        assert forall|j: int| 0 <= j < rest.len() implies holds(#[trigger] rest[j]) by {
            assert(rest[j] == candidates[j + 1]);
        }
        lemma_solutions_are_candidates(rest, clues, holds);
        assert forall|i: int| 0 <= i < found.len() implies holds(#[trigger] found[i]) by {
            if is_solution(candidates.first(), clues) {
                if i > 0 {
                    assert(found[i] == solutions_among(rest, clues)[i - 1]);
                } else {
                    assert(found[i] == candidates[0]);
                }
            } else {
                assert(found[i] == solutions_among(rest, clues)[i]);
            }
        }
    }
}

/// Bytes of ASCII are UTF-8.
pub proof fn lemma_ascii_is_utf8(bytes: Seq<u8>)
    requires
        forall|i: int| 0 <= i < bytes.len() ==> #[trigger] bytes[i] < 128,
    ensures
        valid_utf8(bytes),
{
    let chars = Seq::new(bytes.len(), |i: int| bytes[i] as char);
    assert(is_ascii_chars(chars));
    is_ascii_chars_encode_utf8(chars);
    assert(encode_utf8(chars) =~= bytes);
    encode_utf8_valid_utf8(chars);
}

/// Whether every peg of the clues and every free peg is a byte of ASCII, as a
/// letter is.
pub open spec fn ascii_pegs(free_pegs: Seq<Peg>, clues: Seq<ClueView>) -> bool {
    &&& forall|k: int| 0 <= k < free_pegs.len() ==> #[trigger] free_pegs[k] < 128
    &&& forall|i: int, k: int|
        0 <= i < clues.len() && 0 <= k < clues[i].pegs.len() ==> #[trigger] clues[i].pegs[k] < 128
}

/// Where the pegs of each clue are bytes of ASCII, so are the pegs of all
/// clues in one run.
pub proof fn lemma_clue_pegs_ascii(clues: Seq<ClueView>)
    requires
        forall|i: int, k: int|
            0 <= i < clues.len() && 0 <= k < clues[i].pegs.len() ==> #[trigger] clues[i].pegs[k]
                < 128,
    ensures
        forall|j: int| 0 <= j < clue_pegs(clues).len() ==> #[trigger] clue_pegs(clues)[j] < 128,
    decreases clues.len(),
{
    if clues.len() > 0 {
        let front = clues.drop_last();
        assert forall|i: int, k: int|
            0 <= i < front.len() && 0 <= k < front[i].pegs.len() implies #[trigger] front[i].pegs[k]
            < 128 by {
            assert(front[i] == clues[i]);
        }
        lemma_clue_pegs_ascii(front);
        let last = clues.last().pegs;
        assert forall|j: int| 0 <= j < clue_pegs(clues).len() implies #[trigger] clue_pegs(
            clues,
        )[j] < 128 by {
            if j >= clue_pegs(front).len() {
                assert(clue_pegs(clues)[j] == clues[clues.len() - 1].pegs[j - clue_pegs(
                    front,
                ).len()]);
            }
        }
    }
}

/// Where every peg of the clues and every free peg is a byte of ASCII, as a
/// letter is, each solution can be given as text.
pub proof fn lemma_letters_make_text(free_pegs: Seq<Peg>, clues: Seq<ClueView>)
    requires
        clues.len() > 0,
        ascii_pegs(free_pegs, clues),
    ensures
        forall|i: int|
            0 <= i < solutions(free_pegs, clues).len() ==> valid_utf8(
                #[trigger] solutions(free_pegs, clues)[i],
            ),
{
    let pegs = clue_pegs(clues) + free_pegs;
    let alphabet = alphabet_of(free_pegs, clues);
    let k = clues.first().pegs.len();
    let candidates = combinations(alphabet, k);
    lemma_distinct(pegs);
    lemma_clue_pegs_ascii(clues);
    assert forall|d: int| 0 <= d < alphabet.len() implies #[trigger] alphabet[d] < 128 by {
        assert(alphabet.contains(alphabet[d]));
        assert(pegs.contains(alphabet[d]));
        let j = choose|j: int| 0 <= j < pegs.len() && pegs[j] == alphabet[d];
        if j < clue_pegs(clues).len() {
            assert(pegs[j] == clue_pegs(clues)[j]);
        } else {
            assert(pegs[j] == free_pegs[j - clue_pegs(clues).len()]);
        }
    }
    let holds = |guess: Seq<Peg>| valid_utf8(guess);
    assert forall|r: int| 0 <= r < candidates.len() implies holds(#[trigger] candidates[r]) by {
        let guess = combination(alphabet, k, r as nat);
        lemma_digits_shape(alphabet.len(), k, r as nat);
        lemma_ascii_is_utf8(guess);
    }
    lemma_solutions_are_candidates(candidates, clues, holds);
    assert forall|i: int| 0 <= i < solutions(free_pegs, clues).len() implies valid_utf8(
        #[trigger] solutions(free_pegs, clues)[i],
    ) by {
        assert(holds(solutions_among(candidates, clues)[i]));
    }
}

} // verus!
