use mmsolv::board::{conv_mmsolv, Board, ClueRow, Event, MAX_FREE_PEGS, MAX_SOLUTIONS};

fn slots_of(board: &Board) -> Vec<Vec<Option<u8>>> {
    board.rows().iter().map(|row| row.slots.clone()).collect()
}

/// Picks `id` from the supply and drops it in the slot.
fn place(board: &mut Board, id: u8, row: usize, col: usize) {
    board.apply(Event::PickPeg(id));
    board.apply(Event::Drop { slot: Some((row, col)), on_free: false });
}

#[test]
fn a_new_row_is_empty() {
    let row = ClueRow::new(5);
    assert_eq!(row.slots, vec![None; 5]);
    assert_eq!(row.hearts, 0);
    assert_eq!(row.dots, 0);
    assert!(ClueRow::new(0).slots.is_empty());
    assert_eq!(ClueRow::new(255).slots.len(), 255);
}

#[test]
fn full_rows_make_clues() {
    let rows = [
        ClueRow { slots: vec![Some(2), Some(0), Some(2)], hearts: 1, dots: 2 },
        ClueRow { slots: vec![Some(7), Some(7), Some(1)], hearts: 0, dots: 3 },
    ];
    let clues = conv_mmsolv(&rows).unwrap();
    assert_eq!(clues.len(), 2);
    assert_eq!(clues[0].pegs, vec![2, 0, 2]);
    assert_eq!(clues[0].indicator.hearts, 1);
    assert_eq!(clues[0].indicator.dots, 2);
    assert_eq!(clues[1].pegs, vec![7, 7, 1]);
    assert_eq!(clues[1].indicator.hearts, 0);
    assert_eq!(clues[1].indicator.dots, 3);
}

#[test]
fn an_empty_slot_fails() {
    let rows = [
        ClueRow { slots: vec![Some(2), Some(0)], hearts: 1, dots: 0 },
        ClueRow { slots: vec![Some(7), None], hearts: 0, dots: 0 },
    ];
    assert_eq!(conv_mmsolv(&rows).err().as_deref(), Some("Empty slot somewhere"));
    assert_eq!(conv_mmsolv(&[ClueRow::new(3)]).err().as_deref(), Some("Empty slot somewhere"));
}

#[test]
fn no_rows_make_no_clues() {
    assert!(conv_mmsolv(&[]).unwrap().is_empty());
    // A row without slots has no empty slot.
    let clues = conv_mmsolv(&[ClueRow::new(0)]).unwrap();
    assert_eq!(clues.len(), 1);
    assert!(clues[0].pegs.is_empty());
}

#[test]
fn a_new_board_has_one_empty_row() {
    let board = Board::new(4);
    assert_eq!(board.slots(), 4);
    assert_eq!(slots_of(&board), vec![vec![None; 4]]);
    assert!(board.free_pegs().is_empty());
    assert_eq!(board.picked(), None);
    assert!(board.solutions().is_empty());
    assert_eq!(board.message(), "");
}

#[test]
fn rows_come_and_go_but_one_stays() {
    let mut board = Board::new(3);
    board.apply(Event::AddRow);
    board.apply(Event::AddRow);
    assert_eq!(slots_of(&board), vec![vec![None; 3]; 3]);
    board.apply(Event::RemoveRow);
    board.apply(Event::RemoveRow);
    assert_eq!(board.rows().len(), 1);
    board.apply(Event::RemoveRow);
    assert_eq!(board.rows().len(), 1);
}

#[test]
fn markers_stay_between_none_and_the_slots() {
    let mut board = Board::new(3);
    board.apply(Event::RemoveDot(0));
    board.apply(Event::RemoveHeart(0));
    assert_eq!((board.rows()[0].dots, board.rows()[0].hearts), (0, 0));
    for _ in 0..5 {
        board.apply(Event::AddDot(0));
    }
    board.apply(Event::AddHeart(0));
    assert_eq!((board.rows()[0].dots, board.rows()[0].hearts), (3, 1));
    board.apply(Event::RemoveDot(0));
    assert_eq!((board.rows()[0].dots, board.rows()[0].hearts), (2, 1));
    board.apply(Event::RemoveHeart(0));
    assert_eq!((board.rows()[0].dots, board.rows()[0].hearts), (2, 0));
    // There is no second row.
    board.apply(Event::AddDot(1));
    board.apply(Event::AddHeart(7));
    assert_eq!(board.rows().len(), 1);
    assert_eq!((board.rows()[0].dots, board.rows()[0].hearts), (2, 0));
}

#[test]
fn a_peg_goes_from_the_supply_into_a_slot() {
    let mut board = Board::new(3);
    board.apply(Event::PickPeg(4));
    assert_eq!(board.picked(), Some(4));
    // A second pick waits until the first peg is let go.
    board.apply(Event::PickPeg(5));
    assert_eq!(board.picked(), Some(4));
    board.apply(Event::Drop { slot: Some((0, 1)), on_free: false });
    assert_eq!(board.picked(), None);
    assert_eq!(slots_of(&board), vec![vec![None, Some(4), None]]);
    // Let go over nothing, the peg is gone.
    board.apply(Event::PickPeg(5));
    board.apply(Event::Drop { slot: None, on_free: false });
    assert_eq!(board.picked(), None);
    assert_eq!(slots_of(&board), vec![vec![None, Some(4), None]]);
    // A slot that is not there takes nothing.
    board.apply(Event::PickPeg(5));
    board.apply(Event::Drop { slot: Some((0, 3)), on_free: false });
    board.apply(Event::PickPeg(5));
    board.apply(Event::Drop { slot: Some((1, 0)), on_free: false });
    assert_eq!(slots_of(&board), vec![vec![None, Some(4), None]]);
    // Nothing taken up, nothing let go.
    board.apply(Event::Drop { slot: Some((0, 0)), on_free: true });
    assert_eq!(slots_of(&board), vec![vec![None, Some(4), None]]);
    assert!(board.free_pegs().is_empty());
}

#[test]
fn a_peg_is_taken_from_its_slot_or_copied() {
    let mut board = Board::new(2);
    place(&mut board, 9, 0, 0);
    // An empty slot gives nothing.
    board.apply(Event::PickSlot { row: 0, col: 1, keep: false });
    assert_eq!(board.picked(), None);
    board.apply(Event::PickSlot { row: 0, col: 0, keep: true });
    assert_eq!(board.picked(), Some(9));
    assert_eq!(slots_of(&board), vec![vec![Some(9), None]]);
    board.apply(Event::Drop { slot: Some((0, 1)), on_free: false });
    assert_eq!(slots_of(&board), vec![vec![Some(9), Some(9)]]);
    board.apply(Event::PickSlot { row: 0, col: 0, keep: false });
    assert_eq!(board.picked(), Some(9));
    assert_eq!(slots_of(&board), vec![vec![None, Some(9)]]);
    board.apply(Event::Drop { slot: None, on_free: false });
    board.apply(Event::PickSlot { row: 3, col: 0, keep: false });
    board.apply(Event::PickSlot { row: 0, col: 2, keep: false });
    assert_eq!(board.picked(), None);
}

#[test]
fn free_pegs_are_new_and_few() {
    let mut board = Board::new(2);
    place(&mut board, 1, 0, 0);
    // A peg of the board cannot be free.
    board.apply(Event::PickPeg(1));
    assert!(!board.can_drop_free(1));
    board.apply(Event::Drop { slot: None, on_free: true });
    assert!(board.free_pegs().is_empty());
    for id in 2..10 {
        board.apply(Event::PickPeg(id));
        board.apply(Event::Drop { slot: None, on_free: true });
    }
    assert_eq!(board.free_pegs(), &vec![2, 3, 4, 5, 6, 7]);
    assert_eq!(board.free_pegs().len(), MAX_FREE_PEGS);
    // A free peg is not in the supply.
    board.apply(Event::PickPeg(3));
    assert_eq!(board.picked(), None);
    // It is taken from among the free pegs, and can go back. It is not free
    // while it is held.
    board.apply(Event::PickFree(1));
    assert_eq!(board.picked(), Some(3));
    assert_eq!(board.free_pegs(), &vec![2, 4, 5, 6, 7]);
    assert!(board.can_drop_free(3));
    assert!(!board.can_drop_free(4));
    board.apply(Event::Drop { slot: None, on_free: false });
    assert_eq!(board.free_pegs(), &vec![2, 4, 5, 6, 7]);
    board.apply(Event::PickFree(5));
    assert_eq!(board.picked(), None);
    // Dropped on a slot and on the free pegs at once, it goes to both.
    board.apply(Event::PickPeg(3));
    board.apply(Event::Drop { slot: Some((0, 1)), on_free: true });
    assert_eq!(slots_of(&board), vec![vec![Some(1), Some(3)]]);
    assert_eq!(board.free_pegs(), &vec![2, 4, 5, 6, 7, 3]);
}

#[test]
fn the_slots_of_all_rows_follow_the_board() {
    let mut board = Board::new(3);
    board.apply(Event::AddRow);
    place(&mut board, 1, 0, 0);
    place(&mut board, 2, 0, 2);
    place(&mut board, 3, 1, 1);
    board.apply(Event::AddDot(0));
    board.apply(Event::SetSlots(5));
    assert_eq!(board.slots(), 5);
    assert_eq!(
        slots_of(&board),
        vec![
            vec![Some(1), None, Some(2), None, None],
            vec![None, Some(3), None, None, None],
        ]
    );
    assert_eq!(board.rows()[0].dots, 1);
    board.apply(Event::SetSlots(2));
    assert_eq!(slots_of(&board), vec![vec![Some(1), None], vec![None, Some(3)]]);
    board.apply(Event::AddRow);
    assert_eq!(board.rows()[2].slots, vec![None, None]);
}

#[test]
fn solving_needs_full_rows() {
    let mut board = Board::new(2);
    place(&mut board, 1, 0, 0);
    board.apply(Event::Solve);
    assert!(board.solutions().is_empty());
    assert_eq!(board.message(), "Empty slot somewhere");
}

#[test]
fn solving_shows_the_solutions_and_their_number() {
    let mut board = Board::new(2);
    place(&mut board, 1, 0, 0);
    place(&mut board, 2, 0, 1);
    board.apply(Event::AddHeart(0));
    // One heart, no dot: `1 1` and `2 2`.
    board.apply(Event::Solve);
    assert_eq!(board.solutions(), &vec![vec![1, 1], vec![2, 2]]);
    assert_eq!(board.message(), "2 solutions");
    // A free peg can stand where there is no heart.
    board.apply(Event::PickPeg(3));
    board.apply(Event::Drop { slot: None, on_free: true });
    board.apply(Event::Solve);
    assert_eq!(
        board.solutions(),
        &vec![vec![1, 1], vec![1, 3], vec![2, 2], vec![3, 2]]
    );
    assert_eq!(board.message(), "4 solutions");
    // Two hearts: the row itself.
    board.apply(Event::AddHeart(0));
    board.apply(Event::Solve);
    assert_eq!(board.solutions(), &vec![vec![1, 2]]);
    assert_eq!(board.message(), "1 solution");
    // Two hearts and a dot: nothing.
    board.apply(Event::AddDot(0));
    board.apply(Event::Solve);
    assert!(board.solutions().is_empty());
    assert_eq!(board.message(), "No solution");
}

#[test]
fn no_more_solutions_are_shown_than_the_most() {
    // Three slots without any marker, and five free pegs: 125 solutions.
    let mut board = Board::new(3);
    place(&mut board, 0, 0, 0);
    place(&mut board, 0, 0, 1);
    place(&mut board, 0, 0, 2);
    for id in 1..6 {
        board.apply(Event::PickPeg(id));
        board.apply(Event::Drop { slot: None, on_free: true });
    }
    board.apply(Event::Solve);
    assert_eq!(board.solutions().len(), MAX_SOLUTIONS);
    assert_eq!(board.solutions()[0], vec![1, 1, 1]);
    assert_eq!(board.solutions()[98], vec![4, 5, 4]);
    assert_eq!(board.message(), "99(+) solutions");
}

#[test]
fn clearing_leaves_one_empty_row() {
    let mut board = Board::new(2);
    board.apply(Event::AddRow);
    place(&mut board, 1, 0, 0);
    place(&mut board, 2, 0, 1);
    place(&mut board, 1, 1, 0);
    place(&mut board, 2, 1, 1);
    board.apply(Event::AddDot(0));
    board.apply(Event::AddHeart(0));
    board.apply(Event::PickPeg(3));
    board.apply(Event::Drop { slot: None, on_free: true });
    board.apply(Event::Solve);
    assert_eq!(board.message(), "No solution");
    board.apply(Event::PickPeg(8));
    board.apply(Event::Clear);
    assert_eq!(slots_of(&board), vec![vec![None, None]]);
    assert_eq!((board.rows()[0].dots, board.rows()[0].hearts), (0, 0));
    assert!(board.free_pegs().is_empty());
    assert!(board.solutions().is_empty());
    assert_eq!(board.message(), "");
    assert_eq!(board.slots(), 2);
    // The peg in the hand stays there.
    assert_eq!(board.picked(), Some(8));
}

#[test]
fn new_slots_forget_the_last_search() {
    let mut board = Board::new(2);
    place(&mut board, 1, 0, 0);
    place(&mut board, 2, 0, 1);
    board.apply(Event::AddHeart(0));
    board.apply(Event::Solve);
    assert_eq!(board.message(), "2 solutions");
    board.apply(Event::SetSlots(3));
    assert!(board.solutions().is_empty());
    assert_eq!(board.message(), "");
}
