//! The short form of a puzzle: a run of letters, one for each peg of a clue,
//! then the digit of its hearts and the digit of its dots, clue after clue.
use crate::{Clue, ClueView, Indicator, Peg};
use vstd::prelude::*;
use vstd::string::StringSliceAdditionalSpecFns;

verus! {

/// Where the parser stands between two bytes.
pub enum ParseState {
    /// Taking the letters of a clue.
    Init,
    /// The digit of the hearts has been read, that of the dots is to come.
    HeartsParsed,
}

/// What the parser has read so far.
pub struct Progress {
    pub state: ParseState,
    /// The clues that are complete.
    pub clues: Seq<ClueView>,
    /// The pegs of the clue that is being read.
    pub pegs: Seq<Peg>,
    /// The hearts that were read last.
    pub hearts: u8,
}

/// Whether `b` is a letter of ASCII.
pub open spec fn is_letter(b: u8) -> bool {
    (0x41 <= b <= 0x5a) || (0x61 <= b <= 0x7a)
}

/// Whether `b` is a digit of ASCII.
pub open spec fn is_digit(b: u8) -> bool {
    0x30 <= b <= 0x39
}

/// The number that the digit `b` stands for.
pub open spec fn digit_value(b: u8) -> u8 {
    (b - 0x30) as u8
}

/// The parser before the first byte.
pub open spec fn start() -> Progress {
    Progress { state: ParseState::Init, clues: Seq::empty(), pegs: Seq::empty(), hearts: 0 }
}

/// The parser after one more byte. A letter is one more peg of the clue that
/// is being read. The first digit after that is the hearts, and the next digit
/// is the dots and ends the clue. Any other byte is passed over, and so is a
/// letter between the two digits.
pub open spec fn step(p: Progress, b: u8) -> Progress {
    match p.state {
        ParseState::Init => {
            if is_letter(b) {
                Progress { pegs: p.pegs.push(b), ..p }
            } else if is_digit(b) {
                Progress { hearts: digit_value(b), state: ParseState::HeartsParsed, ..p }
            } else {
                p
            }
        },
        ParseState::HeartsParsed => {
            if is_digit(b) {
                let clue = ClueView {
                    pegs: p.pegs,
                    indicator: Indicator { dots: digit_value(b), hearts: p.hearts },
                };
                Progress {
                    state: ParseState::Init,
                    clues: p.clues.push(clue),
                    pegs: Seq::empty(),
                    hearts: p.hearts,
                }
            } else {
                p
            }
        },
    }
}

/// The parser after the bytes of `bytes`, one after the other, from `p`.
pub open spec fn run(p: Progress, bytes: Seq<u8>) -> Progress
    decreases bytes.len(),
{
    if bytes.len() == 0 {
        p
    } else {
        run(step(p, bytes.first()), bytes.drop_first())
    }
}

/// The clues that `bytes` spell. A run of pegs that no two digits follow is
/// left out.
pub open spec fn parsed_clues(bytes: Seq<u8>) -> Seq<ClueView> {
    run(start(), bytes).clues
}

/// Reading two runs of bytes one after the other is reading the second from
/// where the first ended.
pub proof fn lemma_run_concat(p: Progress, a: Seq<u8>, b: Seq<u8>)
    ensures
        run(p, a + b) == run(run(p, a), b),
    decreases a.len(),
{
    if a.len() == 0 {
        assert(a + b == b);
    } else {
        assert((a + b).first() == a.first());
        assert((a + b).drop_first() == a.drop_first() + b);
        lemma_run_concat(step(p, a.first()), a.drop_first(), b);
    }
}

/// Letters make no clue by themselves: between two clues they are the pegs
/// of the next one, and between its two digits they are lost.
pub proof fn lemma_letters_wait(p: Progress, letters: Seq<u8>)
    requires
        forall|i: int| 0 <= i < letters.len() ==> is_letter(#[trigger] letters[i]),
    ensures
        run(p, letters).clues == p.clues,
        run(p, letters).state == p.state,
        run(p, letters).hearts == p.hearts,
        run(p, letters).pegs == if p.state is Init {
            p.pegs + letters
        } else {
            p.pegs
        },
    decreases letters.len(),
{
    if letters.len() == 0 {
        assert(p.pegs + letters == p.pegs);
    } else {
        let rest = letters.drop_first();
        assert(is_letter(letters[0]));
        assert forall|i: int| 0 <= i < rest.len() implies is_letter(#[trigger] rest[i]) by {
            assert(rest[i] == letters[i + 1]);
        }
        lemma_letters_wait(step(p, letters.first()), rest);
        if p.state is Init {
            assert(p.pegs.push(letters.first()) + rest == p.pegs + letters);
        }
    }
}

/// `p` has read what `q` has read, after the clues `done`: both go on alike.
pub open spec fn runs_ahead(p: Progress, q: Progress, done: Seq<ClueView>) -> bool {
    &&& p.state == q.state
    &&& p.pegs == q.pegs
    &&& p.clues == done + q.clues
    &&& p.state is HeartsParsed ==> p.hearts == q.hearts
}

/// What has been read before does not change what the next bytes spell.
pub proof fn lemma_runs_ahead(p: Progress, q: Progress, done: Seq<ClueView>, bytes: Seq<u8>)
    requires
        runs_ahead(p, q, done),
    ensures
        runs_ahead(run(p, bytes), run(q, bytes), done),
    decreases bytes.len(),
{
    if bytes.len() > 0 {
        let b = bytes.first();
        let next_p = step(p, b);
        let next_q = step(q, b);
        assert(next_p.clues == done + next_q.clues);
        lemma_runs_ahead(next_p, next_q, done, bytes.drop_first());
    }
}

/// A byte that is neither a letter nor a digit is passed over, wherever it
/// stands.
pub proof fn lemma_other_bytes_ignored(front: Seq<u8>, b: u8, back: Seq<u8>)
    requires
        !is_letter(b),
        !is_digit(b),
    ensures
        parsed_clues(front + seq![b] + back) == parsed_clues(front + back),
{
    let here = run(start(), front);
    lemma_run_concat(start(), front + seq![b], back);
    lemma_run_concat(start(), front, seq![b]);
    lemma_run_concat(start(), front, back);
    let one = seq![b];
    assert(one.drop_first().len() == 0);
    assert(run(here, one) == run(step(here, b), one.drop_first()));
}

/// Letters at the end that no digits follow spell no clue.
pub proof fn lemma_trailing_letters_dropped(bytes: Seq<u8>, letters: Seq<u8>)
    requires
        forall|i: int| 0 <= i < letters.len() ==> is_letter(#[trigger] letters[i]),
    ensures
        parsed_clues(bytes + letters) == parsed_clues(bytes),
{
    lemma_run_concat(start(), bytes, letters);
    lemma_letters_wait(run(start(), bytes), letters);
}

/// Letters, then a digit and one more digit, spell one clue: the letters are
/// its pegs, the first digit its hearts and the second its dots. What follows
/// spells the clues after it.
pub proof fn lemma_clue_then_rest(letters: Seq<u8>, hearts: u8, dots: u8, rest: Seq<u8>)
    requires
        forall|i: int| 0 <= i < letters.len() ==> is_letter(#[trigger] letters[i]),
        is_digit(hearts),
        is_digit(dots),
    ensures
        parsed_clues(letters + seq![hearts, dots] + rest) == seq![
            ClueView {
                pegs: letters,
                indicator: Indicator { dots: digit_value(dots), hearts: digit_value(hearts) },
            },
        ] + parsed_clues(rest),
{
    let clue = ClueView {
        pegs: letters,
        indicator: Indicator { dots: digit_value(dots), hearts: digit_value(hearts) },
    };
    let digits = seq![hearts, dots];
    lemma_run_concat(start(), letters + digits, rest);
    lemma_run_concat(start(), letters, digits);
    lemma_letters_wait(start(), letters);
    let read = run(start(), letters);
    assert(read.pegs == letters) by {
        assert(Seq::<Peg>::empty() + letters == letters);
    }
    let after_hearts = step(read, hearts);
    let after_dots = step(after_hearts, dots);
    assert(run(read, digits) == after_dots) by {
        assert(digits.drop_first().first() == dots);
        assert(digits.drop_first().drop_first().len() == 0);
        assert(run(read, digits) == run(after_hearts, digits.drop_first()));
        assert(run(after_hearts, digits.drop_first()) == run(
            after_dots,
            digits.drop_first().drop_first(),
        ));
    }
    assert(after_dots.clues == seq![clue]) by {
        assert(Seq::<ClueView>::empty().push(clue) == seq![clue]);
    }
    assert(runs_ahead(after_dots, start(), seq![clue])) by {
        assert(seq![clue] + Seq::<ClueView>::empty() == seq![clue]);
    }
    lemma_runs_ahead(after_dots, start(), seq![clue], rest);
}

/// The clues that the short form `arg` spells, in their order.
#[must_use]
pub fn parse(arg: &str) -> (clues: Vec<Clue>)
    ensures
        clues.deep_view() == parsed_clues(arg.spec_bytes()),
{
    let bytes = arg.as_bytes();
    let mut state = ParseState::Init;
    let mut clues: Vec<Clue> = Vec::new();
    let mut pegs: Vec<Peg> = Vec::new();
    let mut hearts: u8 = 0;
    assert(clues.deep_view() =~= Seq::<ClueView>::empty());
    assert(bytes@.skip(0) == bytes@);
    for i in 0..bytes.len()
        invariant
            bytes@ == arg.spec_bytes(),
            run(start(), bytes@) == run(
                Progress { state, clues: clues.deep_view(), pegs: pegs@, hearts },
                bytes@.skip(i as int),
            ),
    {
        let b = bytes[i];
        let ghost before = Progress { state, clues: clues.deep_view(), pegs: pegs@, hearts };
        proof {
            let rest = bytes@.skip(i as int);
            assert(rest.first() == b);
            assert(rest.drop_first() == bytes@.skip(i + 1));
        }
        match state {
            ParseState::Init => {
                if (0x41 <= b && b <= 0x5a) || (0x61 <= b && b <= 0x7a) {
                    pegs.push(b);
                } else if 0x30 <= b && b <= 0x39 {
                    // Parsing hearts
                    hearts = b - 0x30;
                    state = ParseState::HeartsParsed;
                }
            },
            ParseState::HeartsParsed => {
                if 0x30 <= b && b <= 0x39 {
                    // Parsing dots
                    let dots = b - 0x30;
                    let ghost done = clues.deep_view();
                    let clue = Clue { pegs, indicator: Indicator { dots, hearts } };
                    clues.push(clue);
                    pegs = Vec::new();
                    state = ParseState::Init;
                    assert(clues.deep_view() =~= done.push(clue@));
                }
            },
        }
        assert(Progress { state, clues: clues.deep_view(), pegs: pegs@, hearts } == step(
            before,
            b,
        ));
    }
    assert(bytes@.skip(bytes@.len() as int).len() == 0);
    clues
}

} // verus!
