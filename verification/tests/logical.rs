use mmsolv::logical::{
    adds, count, get_pegs_difference, pegmap_count_total, removes, solve_logical, Desc,
    PegCountMap, PegsDifference,
};
use mmsolv::{parse_shortform, Clue, Indicator};

fn countmap(entries: &[(u8, u8)]) -> PegCountMap {
    let mut map = PegCountMap::default();
    for &(peg, times) in entries {
        map.insert(peg, times);
    }
    map
}

fn clue(pegs: &[u8], hearts: u8, dots: u8) -> Clue {
    Clue { indicator: Indicator { dots, hearts }, pegs: pegs.to_vec() }
}

fn text(words: &str) -> Desc {
    Desc::Text(words.to_string())
}

#[test]
fn test_adds_removes() {
    let pegs1 = countmap(&[(99, 2), (114, 1), (103, 1), (112, 1)]);
    let pegs2 = countmap(&[(121, 1), (112, 2), (99, 2)]);
    assert_eq!(adds(&pegs1, &pegs2), countmap(&[(121, 1), (112, 1)]));
    assert_eq!(removes(&pegs1, &pegs2), countmap(&[(114, 1), (103, 1)]));
}

#[test]
fn count_counts_each_peg() {
    assert_eq!(count(b"ccprg"), countmap(&[(b'c', 2), (b'p', 1), (b'r', 1), (b'g', 1)]));
    assert_eq!(count(b""), PegCountMap::default());
    assert_eq!(count(&[0, 255, 0, 255, 0]), countmap(&[(0, 3), (255, 2)]));
    assert_eq!(count(&[9u8; 255]), countmap(&[(9, 255)]));
}

#[test]
fn totals_add_all_counts() {
    assert_eq!(pegmap_count_total(&PegCountMap::default()), 0);
    assert_eq!(pegmap_count_total(&countmap(&[(1, 2), (200, 3), (255, 250)])), 255);
}

#[test]
fn adds_and_removes_mirror_each_other() {
    let one = count(b"ccprg");
    let other = count(b"cyppc");
    assert_eq!(adds(&one, &other), removes(&other, &one));
    assert_eq!(removes(&one, &other), adds(&other, &one));
    assert_eq!(adds(&one, &one), PegCountMap::default());
    assert_eq!(removes(&one, &one), PegCountMap::default());
}

#[test]
fn the_difference_of_pegs_counts_what_was_replaced() {
    let difference = get_pegs_difference(b"ccprg", b"cyppc");
    assert_eq!(difference.added, countmap(&[(b'y', 1), (b'p', 1)]));
    assert_eq!(difference.removed, countmap(&[(b'r', 1), (b'g', 1)]));
    assert_eq!(difference.count(), 2);
    let same = get_pegs_difference(b"abc", b"cab");
    assert_eq!(same.count(), 0);
    let all = PegsDifference { added: countmap(&[(1, 255)]), removed: countmap(&[(2, 255)]) };
    assert_eq!(all.count(), 255);
}

#[test]
fn the_difference_of_indicators_has_a_sign() {
    let low = Indicator { dots: 1, hearts: 0 };
    let high = Indicator { dots: 2, hearts: 2 };
    assert_eq!(low.difference(&high), 3);
    assert_eq!(high.difference(&low), -3);
    assert_eq!(low.difference(&low), 0);
    let most = Indicator { dots: 255, hearts: 255 };
    let none = Indicator { dots: 0, hearts: 0 };
    assert_eq!(none.difference(&most), 510);
    assert_eq!(most.difference(&none), -510);
}

#[test]
fn the_rule_gives_what_was_added_and_removed() {
    let clues = [clue(b"ab", 0, 0), clue(b"ac", 1, 0)];
    let (solution, steps) = solve_logical(&[], &clues);
    assert_eq!(solution, None);
    assert_eq!(
        steps,
        vec![
            text("First, we try the replacement rule."),
            text("Applying the replacement rule for rows 1 and 2, we can deduce that:"),
            Desc::AtLeastMustBe { peg: b'c', times: 1 },
            Desc::AtLeastCantBe { peg: b'b', times: 1 },
        ]
    );
}

#[test]
fn no_deduction_where_the_numbers_differ() {
    // One peg replaced, but two markers more.
    let clues = [clue(b"ab", 0, 0), clue(b"ac", 1, 1)];
    let (solution, steps) = solve_logical(&[], &clues);
    assert_eq!(solution, None);
    assert_eq!(steps, vec![text("First, we try the replacement rule.")]);
    // One peg replaced, and one marker less.
    let clues = [clue(b"ac", 1, 0), clue(b"ab", 0, 0)];
    let (_, steps) = solve_logical(&[], &clues);
    assert_eq!(steps, vec![text("First, we try the replacement rule.")]);
}

#[test]
fn no_clues_give_the_opening_alone() {
    let (solution, steps) = solve_logical(b"abc", &[]);
    assert_eq!(solution, None);
    assert_eq!(steps, vec![text("First, we try the replacement rule.")]);
    let (_, steps) = solve_logical(&[], &[clue(b"abc", 1, 1)]);
    assert_eq!(steps, vec![text("First, we try the replacement rule.")]);
}

#[test]
fn the_same_pegs_with_the_same_markers_give_an_empty_step() {
    let clues = [clue(b"abc", 1, 1), clue(b"cab", 0, 2)];
    let (_, steps) = solve_logical(&[], &clues);
    assert_eq!(
        steps,
        vec![
            text("First, we try the replacement rule."),
            text("Applying the replacement rule for rows 1 and 2, we can deduce that:"),
        ]
    );
}

#[test]
fn pegs_come_in_their_order_and_pairs_by_rows() {
    let clues = parse_shortform("zzaa00 zzmb11 qmbb04");
    let (_, steps) = solve_logical(&[], &clues);
    assert_eq!(
        steps,
        vec![
            text("First, we try the replacement rule."),
            text("Applying the replacement rule for rows 1 and 2, we can deduce that:"),
            Desc::AtLeastMustBe { peg: b'b', times: 1 },
            Desc::AtLeastMustBe { peg: b'm', times: 1 },
            Desc::AtLeastCantBe { peg: b'a', times: 2 },
            text("Applying the replacement rule for rows 1 and 3, we can deduce that:"),
            Desc::AtLeastMustBe { peg: b'b', times: 2 },
            Desc::AtLeastMustBe { peg: b'm', times: 1 },
            Desc::AtLeastMustBe { peg: b'q', times: 1 },
            Desc::AtLeastCantBe { peg: b'a', times: 2 },
            Desc::AtLeastCantBe { peg: b'z', times: 2 },
            text("Applying the replacement rule for rows 2 and 3, we can deduce that:"),
            Desc::AtLeastMustBe { peg: b'b', times: 1 },
            Desc::AtLeastMustBe { peg: b'q', times: 1 },
            Desc::AtLeastCantBe { peg: b'z', times: 2 },
        ]
    );
}

#[test]
fn rows_are_counted_from_one_in_decimal() {
    let mut clues = Vec::new();
    for i in 0..10 {
        clues.push(clue(b"ab", 20 - i, 0));
    }
    clues.push(clue(b"ab", 0, 0));
    clues.push(clue(b"ac", 1, 0));
    let (_, steps) = solve_logical(&[], &clues);
    assert_eq!(
        steps,
        vec![
            text("First, we try the replacement rule."),
            text("Applying the replacement rule for rows 11 and 12, we can deduce that:"),
            Desc::AtLeastMustBe { peg: b'c', times: 1 },
            Desc::AtLeastCantBe { peg: b'b', times: 1 },
        ]
    );
}

#[test]
fn rows_past_a_hundred_are_written_out() {
    let mut clues = Vec::new();
    for i in 0..104 {
        clues.push(clue(b"ab", 200 - i, 0));
    }
    clues.push(clue(b"ab", 0, 0));
    clues.push(clue(b"ab", 9, 9));
    clues.push(clue(b"ac", 1, 0));
    let (_, steps) = solve_logical(&[], &clues);
    assert_eq!(
        steps,
        vec![
            text("First, we try the replacement rule."),
            text("Applying the replacement rule for rows 105 and 107, we can deduce that:"),
            Desc::AtLeastMustBe { peg: b'c', times: 1 },
            Desc::AtLeastCantBe { peg: b'b', times: 1 },
        ]
    );
}

#[test]
fn what_the_rule_gives_holds_of_the_solution() {
    let clues = parse_shortform("ccprg12 cyppc11 crycg13 rccgg13 yrccc03");
    let solution = b"cgrgy";
    let (_, steps) = solve_logical(&[], &clues);
    for step in steps {
        match step {
            Desc::Text(_) => {}
            Desc::AtLeastMustBe { peg, times } => {
                let held = solution.iter().filter(|&&p| p == peg).count();
                assert!(held >= times as usize);
            }
            Desc::AtLeastCantBe { peg, times } => {
                let held = solution.iter().filter(|&&p| p == peg).count();
                assert!(held + (times as usize) <= 5);
            }
        }
    }
}
