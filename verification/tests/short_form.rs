use mmsolv::parse_shortform;
use mmsolv::short_form::parse;

#[test]
fn a_clue_is_letters_then_hearts_then_dots() {
    let clues = parse_shortform("ccprg12 cyppc11 crycg13 rccgg13 yrccc03");
    assert_eq!(clues.len(), 5);
    let pegs: Vec<&[u8]> = clues.iter().map(|clue| clue.pegs.as_slice()).collect();
    let expected: Vec<&[u8]> = vec![b"ccprg", b"cyppc", b"crycg", b"rccgg", b"yrccc"];
    assert_eq!(pegs, expected);
    let hearts: Vec<u8> = clues.iter().map(|clue| clue.indicator.hearts).collect();
    assert_eq!(hearts, vec![1, 1, 1, 1, 0]);
    let dots: Vec<u8> = clues.iter().map(|clue| clue.indicator.dots).collect();
    assert_eq!(dots, vec![2, 1, 3, 3, 3]);
}

#[test]
fn nothing_gives_no_clue() {
    assert!(parse("").is_empty());
    assert!(parse("   ").is_empty());
    assert!(parse("abc").is_empty());
    assert!(parse("abc1").is_empty());
}

#[test]
fn a_run_without_its_digits_is_dropped() {
    let clues = parse("ab12cd");
    assert_eq!(clues.len(), 1);
    assert_eq!(clues[0].pegs, b"ab".to_vec());
    let clues = parse("ab12cd3");
    assert_eq!(clues.len(), 1);
}

#[test]
fn other_bytes_are_passed_over() {
    let clues = parse("a-b, 1 \t 2\n");
    assert_eq!(clues.len(), 1);
    assert_eq!(clues[0].pegs, b"ab".to_vec());
    assert_eq!(clues[0].indicator.hearts, 1);
    assert_eq!(clues[0].indicator.dots, 2);
    // Bytes beyond ASCII are neither letters nor digits.
    let clues = parse("é a ü b ٣ 0 9");
    assert_eq!(clues.len(), 1);
    assert_eq!(clues[0].pegs, b"ab".to_vec());
    assert_eq!(clues[0].indicator.hearts, 0);
    assert_eq!(clues[0].indicator.dots, 9);
}

#[test]
fn a_letter_between_the_digits_is_lost() {
    let clues = parse("ab1x2cd34");
    assert_eq!(clues.len(), 2);
    assert_eq!(clues[0].pegs, b"ab".to_vec());
    assert_eq!(clues[0].indicator.hearts, 1);
    assert_eq!(clues[0].indicator.dots, 2);
    assert_eq!(clues[1].pegs, b"cd".to_vec());
    assert_eq!(clues[1].indicator.hearts, 3);
    assert_eq!(clues[1].indicator.dots, 4);
}

#[test]
fn digits_alone_make_a_clue_without_pegs() {
    let clues = parse("1234");
    assert_eq!(clues.len(), 2);
    assert!(clues[0].pegs.is_empty());
    assert_eq!(clues[0].indicator.hearts, 1);
    assert_eq!(clues[0].indicator.dots, 2);
    assert!(clues[1].pegs.is_empty());
    assert_eq!(clues[1].indicator.hearts, 3);
    assert_eq!(clues[1].indicator.dots, 4);
}

#[test]
fn letters_of_both_cases_are_pegs() {
    let clues = parse("AzZa@[`{/:00");
    assert_eq!(clues.len(), 1);
    assert_eq!(clues[0].pegs, b"AzZa".to_vec());
}
