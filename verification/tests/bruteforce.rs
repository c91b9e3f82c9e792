use mmsolv::bruteforce::{
    compare, pegs_are_ascii, seven_peg_any_neighbouring_same, solve_bruteforce,
    solve_bruteforce_raw, uniform_clues, validate_guess,
};
use mmsolv::{parse_shortform, Clue, Indicator};

fn clue(pegs: &[u8], hearts: u8, dots: u8) -> Clue {
    Clue { indicator: Indicator { dots, hearts }, pegs: pegs.to_vec() }
}

#[test]
fn test_compare() {
    assert_eq!(
        compare(b"wpgrc", b"rwcrg"),
        Indicator { dots: 3, hearts: 1 }
    );
    assert_eq!(
        compare(b"gwgcg", b"rwcrg"),
        Indicator { dots: 1, hearts: 2 }
    );
    assert_eq!(
        compare(b"wwwgr", b"rwcrg"),
        Indicator { dots: 2, hearts: 1 }
    );
    assert_eq!(
        compare(b"brbrr", b"ggbgb"),
        Indicator { dots: 1, hearts: 1 }
    );
}

#[test]
fn test_solve() {
    assert_eq!(
        solve_bruteforce(
            &[],
            &parse_shortform("ccprg12 cyppc11 crycg13 rccgg13 yrccc03")
        )
        .as_deref(),
        Some("cgrgy")
    );
}

#[test]
fn compare_of_nothing_is_nothing() {
    assert_eq!(compare(b"", b""), Indicator { dots: 0, hearts: 0 });
}

#[test]
fn compare_counts_each_peg_once() {
    // One `a` in the clue: the second `a` of the guess finds nothing left.
    assert_eq!(compare(b"aab", b"cca"), Indicator { dots: 1, hearts: 0 });
    // The heart takes the only `a` of the clue.
    assert_eq!(compare(b"aa", b"ab"), Indicator { dots: 0, hearts: 1 });
    // A full swap: all pegs shared, none in place.
    assert_eq!(compare(b"aabb", b"bbaa"), Indicator { dots: 4, hearts: 0 });
}

#[test]
fn compare_never_counts_more_than_the_length() {
    let pegs: [&[u8; 4]; 6] = [b"aaaa", b"abab", b"baba", b"abcd", b"dcba", b"aabb"];
    for guess in pegs {
        for other in pegs {
            let indicator = compare(guess, other);
            assert!(indicator.hearts as usize + indicator.dots as usize <= 4);
        }
    }
}

#[test]
fn compare_is_all_hearts_only_of_equal_pegs() {
    let pegs: [&[u8; 3]; 5] = [b"abc", b"abd", b"cba", b"aaa", b"bca"];
    for guess in pegs {
        for other in pegs {
            assert_eq!(compare(guess, other).hearts == 3, guess == other);
        }
    }
}

#[test]
fn compare_takes_the_longest_pegs() {
    let pegs = [7u8; 255];
    assert_eq!(compare(&pegs, &pegs), Indicator { dots: 0, hearts: 255 });
}

#[test]
fn seven_pegs_touch_as_laid_out() {
    assert!(!seven_peg_any_neighbouring_same(b"bccdbbc"));
    // Each of the twelve pairs that touch, alone.
    assert!(seven_peg_any_neighbouring_same(b"aa23456"));
    assert!(seven_peg_any_neighbouring_same(b"a1a3456"));
    assert!(seven_peg_any_neighbouring_same(b"a12a456"));
    assert!(seven_peg_any_neighbouring_same(b"0a2a456"));
    assert!(seven_peg_any_neighbouring_same(b"0a23a56"));
    assert!(seven_peg_any_neighbouring_same(b"01aa456"));
    assert!(seven_peg_any_neighbouring_same(b"01a34a6"));
    assert!(seven_peg_any_neighbouring_same(b"012aa56"));
    assert!(seven_peg_any_neighbouring_same(b"012a4a6"));
    assert!(seven_peg_any_neighbouring_same(b"012a45a"));
    assert!(seven_peg_any_neighbouring_same(b"0123a5a"));
    assert!(seven_peg_any_neighbouring_same(b"01234aa"));
    // Slots that do not touch may hold the same peg.
    assert!(!seven_peg_any_neighbouring_same(b"a1234a6"));
    assert!(!seven_peg_any_neighbouring_same(b"0a2345a"));
    assert!(!seven_peg_any_neighbouring_same(b"01a3a56"));
}

#[test]
fn validate_guess_asks_for_the_exact_indicator() {
    let clues = [clue(b"ab", 1, 0)];
    assert!(validate_guess(b"aa", &clues));
    assert!(validate_guess(b"bb", &clues));
    assert!(!validate_guess(b"ab", &clues));
    assert!(!validate_guess(b"ba", &clues));
    // One clue that disagrees is enough.
    let clues = [clue(b"ab", 1, 0), clue(b"aa", 0, 0)];
    assert!(!validate_guess(b"aa", &clues));
    assert!(validate_guess(b"bb", &clues));
}

#[test]
fn validate_guess_refuses_seven_pegs_that_touch() {
    // The guess agrees with the clue in every slot, but slots 3 and 4 touch.
    let clues = [clue(b"abcddef", 7, 0)];
    assert_eq!(compare(b"abcddef", b"abcddef"), Indicator { dots: 0, hearts: 7 });
    assert!(!validate_guess(b"abcddef", &clues));
    let clues = [clue(b"abcdefg", 7, 0)];
    assert!(validate_guess(b"abcdefg", &clues));
    // Without any clue the layout still counts.
    assert!(!validate_guess(b"abcddef", &[]));
    assert!(validate_guess(b"abcdefg", &[]));
    // Six pegs are not laid out that way.
    assert!(validate_guess(b"abcdde", &[clue(b"abcdde", 6, 0)]));
}

#[test]
fn solutions_come_in_odometer_order() {
    let clues = [clue(b"ab", 1, 0)];
    let mut found = solve_bruteforce_raw(&[], &clues);
    assert_eq!(found.next(), Some(b"aa".to_vec()));
    assert_eq!(found.next(), Some(b"bb".to_vec()));
    assert_eq!(found.next(), None);
    assert_eq!(found.next(), None);
}

#[test]
fn free_pegs_join_the_alphabet_after_the_pegs_of_the_clues() {
    let clues = [clue(b"ab", 1, 0)];
    // `a` and `b` are there already, `c` is new.
    let mut found = solve_bruteforce_raw(b"bca", &clues);
    assert_eq!(found.next(), Some(b"aa".to_vec()));
    assert_eq!(found.next(), Some(b"ac".to_vec()));
    assert_eq!(found.next(), Some(b"bb".to_vec()));
    assert_eq!(found.next(), Some(b"cb".to_vec()));
    assert_eq!(found.next(), None);
}

#[test]
fn no_solution_is_no_error() {
    let clues = [clue(b"ab", 0, 0)];
    assert_eq!(solve_bruteforce_raw(&[], &clues).next(), None);
    assert_eq!(solve_bruteforce(&[], &clues), None);
    assert_eq!(solve_bruteforce(b"c", &clues).as_deref(), Some("cc"));
}

#[test]
fn solving_again_gives_the_same() {
    let clues = parse_shortform("ab10 ca01");
    let first = solve_bruteforce(b"d", &clues);
    let second = solve_bruteforce(b"d", &clues);
    assert_eq!(first, second);
    assert_eq!(first.as_deref(), Some("ad"));
    // Clues that say the same, built anew.
    let again = parse_shortform("ab10 ca01");
    assert_eq!(solve_bruteforce(b"d", &again), first);
}

#[test]
fn every_solution_agrees_with_every_clue() {
    let clues = parse_shortform("ccprg12 cyppc11 crycg13 rccgg13 yrccc03");
    let mut found = solve_bruteforce_raw(&[], &clues);
    let mut count = 0;
    while let Some(guess) = found.next() {
        for clue in &clues {
            assert_eq!(compare(&guess, &clue.pegs), clue.indicator);
        }
        assert!(validate_guess(&guess, &clues));
        count += 1;
    }
    assert_eq!(count, 1);
}

#[test]
fn seven_peg_solutions_never_touch() {
    // No `a` at all: the solutions are the ways to lay out `b`, `c` and `d`
    // so that no two that touch are the same.
    let clues = [clue(b"aaaaaaa", 0, 0)];
    let mut found = solve_bruteforce_raw(b"bcd", &clues);
    let mut all = Vec::new();
    while let Some(guess) = found.next() {
        assert!(!seven_peg_any_neighbouring_same(&guess));
        assert!(guess[3] != guess[4]);
        all.push(guess);
    }
    assert_eq!(all.len(), 6);
    assert_eq!(all[0], b"bccdbbc".to_vec());
}

#[test]
fn take_hands_out_no_more_than_asked_for() {
    let clues = [clue(b"ab", 1, 0)];
    let mut found = solve_bruteforce_raw(b"c", &clues);
    assert_eq!(found.take(0), Vec::<Vec<u8>>::new());
    assert_eq!(found.take(3), vec![b"aa".to_vec(), b"ac".to_vec(), b"bb".to_vec()]);
    assert_eq!(found.take(99), vec![b"cb".to_vec()]);
    assert_eq!(found.take(99), Vec::<Vec<u8>>::new());
    assert_eq!(found.next(), None);
}

#[test]
fn take_and_next_share_one_cursor() {
    let clues = [clue(b"ab", 1, 0)];
    let mut found = solve_bruteforce_raw(b"c", &clues);
    assert_eq!(found.next(), Some(b"aa".to_vec()));
    assert_eq!(found.take(2), vec![b"ac".to_vec(), b"bb".to_vec()]);
    assert_eq!(found.next(), Some(b"cb".to_vec()));
}

#[test]
fn clues_of_one_length_are_uniform() {
    assert!(uniform_clues(&[]));
    assert!(uniform_clues(&[clue(b"abc", 0, 0)]));
    assert!(uniform_clues(&[clue(b"abc", 0, 0), clue(b"cba", 1, 1)]));
    assert!(uniform_clues(&[clue(b"", 0, 0), clue(b"", 1, 1)]));
    assert!(!uniform_clues(&[clue(b"abc", 0, 0), clue(b"ab", 1, 1)]));
    assert!(!uniform_clues(&[clue(b"ab", 0, 0), clue(b"ab", 1, 1), clue(b"abc", 0, 0)]));
    assert!(uniform_clues(&[clue(&[1; 255], 0, 0)]));
    assert!(!uniform_clues(&[clue(&[1; 256], 0, 0)]));
}

#[test]
fn letters_are_ascii() {
    assert!(pegs_are_ascii(&[], &[]));
    assert!(pegs_are_ascii(b"xyz", &parse_shortform("ccprg12 cyppc11")));
    assert!(pegs_are_ascii(&[0, 127], &[clue(&[127, 0], 0, 0)]));
    assert!(!pegs_are_ascii(&[128], &[clue(b"ab", 0, 0)]));
    assert!(!pegs_are_ascii(b"a", &[clue(b"ab", 0, 0), clue(&[b'a', 200], 0, 0)]));
}
