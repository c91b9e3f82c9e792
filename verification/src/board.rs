//! The board of a puzzle as a player works on it: the rows of clues, filled in
//! peg by peg, the free pegs, and the solutions found. What the player does
//! comes in as events, and each event has one outcome.
use crate::bruteforce::solve_bruteforce_raw;
use crate::logical::{append_decimal, decimal_text};
use crate::solution::{solutions, solvable_input};
use crate::{Clue, ClueView, Indicator, Peg};
use vstd::prelude::*;
use vstd::string::StringExecFns;

verus! {

/// No more solutions than this are shown.
pub const MAX_SOLUTIONS: usize = 99;

/// No more free pegs than this are taken.
pub const MAX_FREE_PEGS: usize = 6;

/// One row of the board: its slots, each empty or holding a peg, and the
/// markers that the player has set beside it.
#[derive(Debug)]
pub struct ClueRow {
    pub slots: Vec<Option<Peg>>,
    pub hearts: u8,
    pub dots: u8,
}

/// What a row shows.
pub struct RowView {
    pub slots: Seq<Option<Peg>>,
    pub hearts: u8,
    pub dots: u8,
}

impl View for ClueRow {
    type V = RowView;

    open spec fn view(&self) -> RowView {
        RowView { slots: self.slots@, hearts: self.hearts, dots: self.dots }
    }
}

impl DeepView for ClueRow {
    type V = RowView;

    open spec fn deep_view(&self) -> RowView {
        self.view()
    }
}

/// Whether every slot holds a peg.
pub open spec fn filled(slots: Seq<Option<Peg>>) -> bool {
    forall|k: int| 0 <= k < slots.len() ==> (#[trigger] slots[k]) is Some
}

/// Whether every slot of every row holds a peg.
pub open spec fn all_filled(rows: Seq<RowView>) -> bool {
    forall|i: int| 0 <= i < rows.len() ==> filled((#[trigger] rows[i]).slots)
}

/// The pegs that the slots hold, slot by slot.
pub open spec fn pegs_of(slots: Seq<Option<Peg>>) -> Seq<Peg> {
    Seq::new(slots.len(), |k: int| slots[k]->0)
}

/// The clue that a row makes.
pub open spec fn clue_of(row: RowView) -> ClueView {
    ClueView {
        indicator: Indicator { dots: row.dots, hearts: row.hearts },
        pegs: pegs_of(row.slots),
    }
}

/// The clues that the rows make, row by row.
pub open spec fn clues_of(rows: Seq<RowView>) -> Seq<ClueView> {
    Seq::new(rows.len(), |i: int| clue_of(rows[i]))
}

/// A row of `slots` empty slots, with no markers.
pub open spec fn blank_row(slots: u8) -> RowView {
    RowView { slots: Seq::new(slots as nat, |k: int| None), hearts: 0, dots: 0 }
}

/// The row cut or filled up with empty slots to `slots` slots.
pub open spec fn fit(row: RowView, slots: u8) -> RowView {
    RowView {
        slots: Seq::new(
            slots as nat,
            |k: int|
                if k < row.slots.len() {
                    row.slots[k]
                } else {
                    None
                },
        ),
        ..row
    }
}

/// Whether a slot of a row holds the peg `id`.
pub open spec fn on_board(rows: Seq<RowView>, id: Peg) -> bool {
    exists|r: int, c: int|
        0 <= r < rows.len() && 0 <= c < rows[r].slots.len() && #[trigger] rows[r].slots[c] == Some(
            id,
        )
}

/// What is said of `count` solutions found: their number, marked where it
/// is the most that are shown.
pub open spec fn solved_text(count: nat) -> Seq<char> {
    let number = if count == 0 {
        "No"@
    } else if count == MAX_SOLUTIONS {
        decimal_text(count) + "(+)"@
    } else {
        decimal_text(count)
    };
    let end = if count > 1 {
        "s"@
    } else {
        Seq::empty()
    };
    number + " solution"@ + end
}

/// What is said where a slot is empty.
pub open spec fn empty_slot_text() -> Seq<char> {
    "Empty slot somewhere"@
}

impl ClueRow {
    /// A row of `slots` empty slots, with no markers.
    pub fn new(slots: u8) -> (row: Self)
        ensures
            row@ == blank_row(slots),
    {
        let mut empty: Vec<Option<Peg>> = Vec::new();
        for k in 0..slots
            invariant
                empty@.len() == k,
                forall|m: int| 0 <= m < k ==> (#[trigger] empty@[m]) is None,
        {
            empty.push(None);
        }
        assert(empty@ =~= blank_row(slots).slots);
        Self { slots: empty, hearts: 0, dots: 0 }
    }
}

/// The pegs of a row, or `None` where a slot is empty.
fn row_pegs(slots: &Vec<Option<Peg>>) -> (pegs: Option<Vec<Peg>>)
    ensures
        pegs is Some <==> filled(slots@),
        pegs matches Some(found) ==> found@ == pegs_of(slots@),
{
    let mut pegs: Vec<Peg> = Vec::new();
    for k in 0..slots.len()
        invariant
            pegs@.len() == k,
            forall|m: int| 0 <= m < k ==> (#[trigger] slots@[m]) is Some,
            forall|m: int| 0 <= m < k ==> #[trigger] pegs@[m] == slots@[m]->0,
    {
        match slots[k] {
            Some(id) => {
                pegs.push(id);
            },
            None => {
                return None;
            },
        }
    }
    assert(pegs@ =~= pegs_of(slots@));
    Some(pegs)
}

/// The clues that the rows of a board make: one for each row, in their order.
/// Fails where a slot of any row is empty.
pub fn conv_mmsolv(rows: &[ClueRow]) -> (converted: Result<Vec<Clue>, String>)
    ensures
        match converted {
            Ok(clues) => {
                &&& all_filled(rows.deep_view())
                &&& clues.deep_view() == clues_of(rows.deep_view())
            },
            Err(message) => {
                &&& !all_filled(rows.deep_view())
                &&& message@ == empty_slot_text()
            },
        },
{
    let mut clues: Vec<Clue> = Vec::new();
    for i in 0..rows.len()
        invariant
            clues@.len() == i,
            forall|m: int| 0 <= m < i ==> filled((#[trigger] rows.deep_view()[m]).slots),
            forall|m: int| 0 <= m < i ==> (#[trigger] clues@[m])@ == clue_of(rows.deep_view()[m]),
    {
        let row = &rows[i];
        assert(rows.deep_view()[i as int] == row@);
        match row_pegs(&row.slots) {
            Some(pegs) => {
                let clue = Clue {
                    indicator: Indicator { dots: row.dots, hearts: row.hearts },
                    pegs,
                };
                clues.push(clue);
            },
            None => {
                return Err("Empty slot somewhere".to_owned());
            },
        }
    }
    assert(clues.deep_view() =~= clues_of(rows.deep_view()));
    Ok(clues)
}

/// What the player does.
#[derive(Debug, Clone, Copy)]
pub enum Event {
    /// Clues get this many slots from now on.
    SetSlots(u8),
    /// One more row at the end.
    AddRow,
    /// The last row goes, unless it is the only one.
    RemoveRow,
    /// Back to one empty row and no free pegs.
    Clear,
    /// The solutions of the rows as they stand are looked for.
    Solve,
    /// One more dot beside the row, as long as there are fewer than slots.
    AddDot(usize),
    /// One more heart beside the row, as long as there are fewer than slots.
    AddHeart(usize),
    /// One dot less beside the row, if there is one.
    RemoveDot(usize),
    /// One heart less beside the row, if there is one.
    RemoveHeart(usize),
    /// A peg is taken up from the supply.
    PickPeg(Peg),
    /// The peg in a slot is taken up; it stays in the slot too where `keep`
    /// is set.
    PickSlot { row: usize, col: usize, keep: bool },
    /// A free peg is taken up, and is free no more.
    PickFree(usize),
    /// The peg that was taken up is let go: into a slot, among the free pegs,
    /// or nowhere.
    Drop { slot: Option<(usize, usize)>, on_free: bool },
}

/// What a board shows.
pub struct BoardView {
    /// The number of slots of each row.
    pub slots: u8,
    pub rows: Seq<RowView>,
    pub free_pegs: Seq<Peg>,
    /// The peg that the player has taken up.
    pub picked: Option<Peg>,
    /// The solutions that were found last.
    pub solutions: Seq<Seq<Peg>>,
    /// What is said of the last search.
    pub message: Seq<char>,
}

impl BoardView {
    /// There is a row, and each row has as many slots as the board says.
    pub open spec fn wf(self) -> bool {
        &&& self.rows.len() >= 1
        &&& forall|i: int| 0 <= i < self.rows.len() ==> (#[trigger] self.rows[i]).slots.len()
            == self.slots
    }

    /// Whether the peg `id` may join the free pegs: there is room, and it is
    /// neither free already nor in any slot.
    pub open spec fn can_drop_free(self, id: Peg) -> bool {
        &&& self.free_pegs.len() < MAX_FREE_PEGS
        &&& !self.free_pegs.contains(id)
        &&& !on_board(self.rows, id)
    }

    /// The board with the row `i` replaced.
    pub open spec fn with_row(self, i: int, row: RowView) -> BoardView {
        BoardView { rows: self.rows.update(i, row), ..self }
    }

    /// The board after a search: the first solutions of its rows and the free
    /// pegs with what is said of them, or no solution and the complaint where
    /// a slot is empty.
    pub open spec fn solved(self) -> BoardView {
        if all_filled(self.rows) {
            let all = solutions(self.free_pegs, clues_of(self.rows));
            let shown = if all.len() <= MAX_SOLUTIONS {
                all
            } else {
                all.take(MAX_SOLUTIONS as int)
            };
            BoardView { solutions: shown, message: solved_text(shown.len()), ..self }
        } else {
            BoardView { solutions: Seq::empty(), message: empty_slot_text(), ..self }
        }
    }

    /// The board after the peg that was taken up is let go.
    pub open spec fn dropped(self, slot: Option<(usize, usize)>, on_free: bool) -> BoardView {
        match self.picked {
            Some(id) => {
                let rows = match slot {
                    Some((r, c)) => if r < self.rows.len() && c < self.rows[r as int].slots.len() {
                        self.rows.update(
                            r as int,
                            RowView {
                                slots: self.rows[r as int].slots.update(c as int, Some(id)),
                                ..self.rows[r as int]
                            },
                        )
                    } else {
                        self.rows
                    },
                    None => self.rows,
                };
                let free_pegs = if on_free && self.can_drop_free(id) {
                    self.free_pegs.push(id)
                } else {
                    self.free_pegs
                };
                BoardView { rows, free_pegs, picked: None, ..self }
            },
            None => self,
        }
    }

    /// The board after `event`.
    pub open spec fn after(self, event: Event) -> BoardView {
        match event {
            Event::SetSlots(slots) => BoardView {
                slots,
                rows: Seq::new(self.rows.len(), |i: int| fit(self.rows[i], slots)),
                solutions: Seq::empty(),
                message: Seq::empty(),
                ..self
            },
            Event::AddRow => BoardView { rows: self.rows.push(blank_row(self.slots)), ..self },
            Event::RemoveRow => if self.rows.len() > 1 {
                BoardView { rows: self.rows.drop_last(), ..self }
            } else {
                self
            },
            Event::Clear => BoardView {
                rows: seq![blank_row(self.slots)],
                free_pegs: Seq::empty(),
                solutions: Seq::empty(),
                message: Seq::empty(),
                ..self
            },
            Event::Solve => self.solved(),
            Event::AddDot(i) => if i < self.rows.len() && self.rows[i as int].dots < self.slots {
                self.with_row(
                    i as int,
                    RowView { dots: (self.rows[i as int].dots + 1) as u8, ..self.rows[i as int] },
                )
            } else {
                self
            },
            Event::AddHeart(i) => if i < self.rows.len() && self.rows[i as int].hearts
                < self.slots {
                self.with_row(
                    i as int,
                    RowView {
                        hearts: (self.rows[i as int].hearts + 1) as u8,
                        ..self.rows[i as int]
                    },
                )
            } else {
                self
            },
            Event::RemoveDot(i) => if i < self.rows.len() && self.rows[i as int].dots > 0 {
                self.with_row(
                    i as int,
                    RowView { dots: (self.rows[i as int].dots - 1) as u8, ..self.rows[i as int] },
                )
            } else {
                self
            },
            Event::RemoveHeart(i) => if i < self.rows.len() && self.rows[i as int].hearts > 0 {
                self.with_row(
                    i as int,
                    RowView {
                        hearts: (self.rows[i as int].hearts - 1) as u8,
                        ..self.rows[i as int]
                    },
                )
            } else {
                self
            },
            Event::PickPeg(id) => if self.picked is None && !self.free_pegs.contains(id) {
                BoardView { picked: Some(id), ..self }
            } else {
                self
            },
            Event::PickSlot { row, col, keep } => if self.picked is None && row < self.rows.len()
                && col < self.rows[row as int].slots.len()
                && self.rows[row as int].slots[col as int] is Some {
                let taken = BoardView { picked: self.rows[row as int].slots[col as int], ..self };
                if keep {
                    taken
                } else {
                    taken.with_row(
                        row as int,
                        RowView {
                            slots: self.rows[row as int].slots.update(col as int, None),
                            ..self.rows[row as int]
                        },
                    )
                }
            } else {
                self
            },
            Event::PickFree(i) => if self.picked is None && i < self.free_pegs.len() {
                BoardView {
                    picked: Some(self.free_pegs[i as int]),
                    free_pegs: self.free_pegs.remove(i as int),
                    ..self
                }
            } else {
                self
            },
            Event::Drop { slot, on_free } => self.dropped(slot, on_free),
        }
    }
}

/// The board of a puzzle as a player works on it.
#[derive(Debug)]
pub struct Board {
    slots: u8,
    rows: Vec<ClueRow>,
    free_pegs: Vec<Peg>,
    picked: Option<Peg>,
    solutions: Vec<Vec<Peg>>,
    message: String,
}

impl View for Board {
    type V = BoardView;

    closed spec fn view(&self) -> BoardView {
        BoardView {
            slots: self.slots,
            rows: self.rows.deep_view(),
            free_pegs: self.free_pegs@,
            picked: self.picked,
            solutions: self.solutions.deep_view(),
            message: self.message@,
        }
    }
}

/// What is said of `count` solutions found.
fn solved_message(count: usize) -> (text: String)
    ensures
        text@ == solved_text(count as nat),
{
    let mut text = String::new();
    if count == 0 {
        text.append("No");
    } else {
        append_decimal(&mut text, count);
        if count == MAX_SOLUTIONS {
            text.append("(+)");
        }
    }
    text.append(" solution");
    if count > 1 {
        text.append("s");
    }
    assert(text@ =~= solved_text(count as nat));
    text
}

impl Board {
    /// A board of one empty row of `slots` slots.
    pub fn new(slots: u8) -> (board: Self)
        ensures
            board@.wf(),
            board@ == (BoardView {
                slots,
                rows: seq![blank_row(slots)],
                free_pegs: Seq::empty(),
                picked: None,
                solutions: Seq::empty(),
                message: Seq::empty(),
            }),
    {
        let mut rows: Vec<ClueRow> = Vec::new();
        rows.push(ClueRow::new(slots));
        let board = Board {
            slots,
            rows,
            free_pegs: Vec::new(),
            picked: None,
            solutions: Vec::new(),
            message: String::new(),
        };
        assert(board@.rows =~= seq![blank_row(slots)]);
        assert(board@.solutions =~= Seq::empty());
        board
    }

    /// The number of slots of each row.
    pub fn slots(&self) -> (slots: u8)
        ensures
            slots == self@.slots,
    {
        self.slots
    }

    /// The rows.
    pub fn rows(&self) -> (rows: &Vec<ClueRow>)
        ensures
            rows.deep_view() == self@.rows,
    {
        &self.rows
    }

    /// The free pegs.
    pub fn free_pegs(&self) -> (free_pegs: &Vec<Peg>)
        ensures
            free_pegs@ == self@.free_pegs,
    {
        &self.free_pegs
    }

    /// The peg that the player has taken up.
    pub fn picked(&self) -> (picked: Option<Peg>)
        ensures
            picked == self@.picked,
    {
        self.picked
    }

    /// The solutions that were found last.
    pub fn solutions(&self) -> (found: &Vec<Vec<Peg>>)
        ensures
            found.deep_view() == self@.solutions,
    {
        &self.solutions
    }

    /// What is said of the last search.
    pub fn message(&self) -> (message: &String)
        ensures
            message@ == self@.message,
    {
        &self.message
    }

    /// Whether a slot of a row holds the peg `id`.
    fn holds(&self, id: Peg) -> (found: bool)
        ensures
            found == on_board(self@.rows, id),
    {
        let ghost rows = self@.rows;
        for r in 0..self.rows.len()
            invariant
                rows == self@.rows,
                rows == self.rows.deep_view(),
                forall|i: int, c: int|
                    0 <= i < r && 0 <= c < rows[i].slots.len() ==> #[trigger] rows[i].slots[c]
                        != Some(id),
        {
            let row = &self.rows[r];
            assert(rows[r as int] == row@);
            for c in 0..row.slots.len()
                invariant
                    r < rows.len(),
                    rows == self@.rows,
                    rows[r as int] == row@,
                    forall|k: int| 0 <= k < c ==> #[trigger] row.slots@[k] != Some(id),
            {
                match row.slots[c] {
                    Some(peg) => {
                        if peg == id {
                            assert(rows[r as int].slots[c as int] == Some(id));
                            return true;
                        }
                    },
                    None => {},
                }
            }
        }
        false
    }

    /// Whether `id` is one of the free pegs.
    fn is_free(&self, id: Peg) -> (found: bool)
        ensures
            found == self@.free_pegs.contains(id),
    {
        for k in 0..self.free_pegs.len()
            invariant
                forall|m: int| 0 <= m < k ==> self.free_pegs@[m] != id,
        {
            if self.free_pegs[k] == id {
                return true;
            }
        }
        false
    }

    /// Whether the peg `id` may join the free pegs.
    pub fn can_drop_free(&self, id: Peg) -> (can: bool)
        ensures
            can == self@.can_drop_free(id),
    {
        self.free_pegs.len() < MAX_FREE_PEGS && !self.is_free(id) && !self.holds(id)
    }

    /// Every row gets `slots` slots: a longer row loses its last slots, a
    /// shorter one gets empty slots at its end.
    fn set_slots(&mut self, slots: u8)
        ensures
            final(self)@ == old(self)@.after(Event::SetSlots(slots)),
    {
        let ghost before = self@.rows;
        let len = self.rows.len();
        for i in 0..len
            invariant
                len == before.len(),
                self.rows@.len() == before.len(),
                self.free_pegs == old(self).free_pegs,
                self.picked == old(self).picked,
                before == old(self)@.rows,
                forall|m: int| 0 <= m < i ==> (#[trigger] self.rows@[m])@ == fit(before[m], slots),
                forall|m: int| i <= m < len ==> (#[trigger] self.rows@[m])@ == before[m],
        {
            fit_row(&mut self.rows[i], slots);
        }
        self.slots = slots;
        self.solutions = Vec::new();
        self.message = String::new();
        assert(self@.rows =~= old(self)@.after(Event::SetSlots(slots)).rows);
        assert(self@.solutions =~= Seq::empty());
    }

    /// One more row at the end.
    fn add_row(&mut self)
        ensures
            final(self)@ == old(self)@.after(Event::AddRow),
    {
        let row = ClueRow::new(self.slots);
        self.rows.push(row);
        assert(self@.rows =~= old(self)@.rows.push(blank_row(self.slots)));
    }

    /// The last row goes, unless it is the only one.
    fn remove_row(&mut self)
        ensures
            final(self)@ == old(self)@.after(Event::RemoveRow),
    {
        if self.rows.len() > 1 {
            self.rows.pop();
            assert(self@.rows =~= old(self)@.rows.drop_last());
        }
    }

    /// Back to one empty row and no free pegs.
    fn clear(&mut self)
        requires
            old(self)@.wf(),
        ensures
            final(self)@ == old(self)@.after(Event::Clear),
    {
        self.rows.truncate(1);
        blank_out(&mut self.rows[0]);
        self.solutions = Vec::new();
        self.free_pegs.clear();
        self.message = String::new();
        assert(self@.rows[0].slots =~= blank_row(self.slots).slots);
        assert(self@.rows =~= seq![blank_row(self.slots)]);
        assert(self@.solutions =~= Seq::empty());
    }

    /// Looks for the solutions of the rows as they stand.
    fn solve(&mut self)
        requires
            old(self)@.wf(),
        ensures
            final(self)@ == old(self)@.after(Event::Solve),
    {
        let ghost rows = self@.rows;
        let all_rows = self.rows.as_slice();
        assert(all_rows.deep_view() =~= rows);
        match conv_mmsolv(all_rows) {
            Ok(clues) => {
                assert(solvable_input(clues.deep_view())) by {
                    assert forall|i: int| 0 <= i < rows.len() implies (
                    #[trigger] clues.deep_view()[i]).pegs.len() == self.slots by {
                        assert(rows[i].slots.len() == self.slots);
                    }
                }
                let all_clues = clues.as_slice();
                assert(all_clues.deep_view() =~= clues.deep_view());
                let mut found = solve_bruteforce_raw(self.free_pegs.as_slice(), all_clues);
                let ghost all = found.remaining();
                let list = found.take(MAX_SOLUTIONS);
                self.message = solved_message(list.len());
                self.solutions = list;
                assert forall|i: int|
                    0 <= i < self.solutions@.len() implies #[trigger] self@.solutions[i]
                    == all[i] by {
                    assert(self.solutions@[i].deep_view() =~= self.solutions@[i]@);
                }
                assert(self@.solutions =~= old(self)@.solved().solutions);
            },
            Err(message) => {
                self.message = message;
                self.solutions = Vec::new();
                assert(self@.solutions =~= Seq::empty());
            },
        }
    }

    /// One more dot beside the row `i`, as long as there are fewer than slots.
    fn add_dot(&mut self, i: usize)
        ensures
            final(self)@ == old(self)@.after(Event::AddDot(i)),
    {
        if i < self.rows.len() && self.rows[i].dots < self.slots {
            self.rows[i].dots += 1;
            assert(self@.rows =~= old(self)@.after(Event::AddDot(i)).rows);
        }
    }

    /// One more heart beside the row `i`, as long as there are fewer than
    /// slots.
    fn add_heart(&mut self, i: usize)
        ensures
            final(self)@ == old(self)@.after(Event::AddHeart(i)),
    {
        if i < self.rows.len() && self.rows[i].hearts < self.slots {
            self.rows[i].hearts += 1;
            assert(self@.rows =~= old(self)@.after(Event::AddHeart(i)).rows);
        }
    }

    /// One dot less beside the row `i`, if there is one.
    fn remove_dot(&mut self, i: usize)
        ensures
            final(self)@ == old(self)@.after(Event::RemoveDot(i)),
    {
        if i < self.rows.len() && self.rows[i].dots > 0 {
            self.rows[i].dots -= 1;
            assert(self@.rows =~= old(self)@.after(Event::RemoveDot(i)).rows);
        }
    }

    /// One heart less beside the row `i`, if there is one.
    fn remove_heart(&mut self, i: usize)
        ensures
            final(self)@ == old(self)@.after(Event::RemoveHeart(i)),
    {
        if i < self.rows.len() && self.rows[i].hearts > 0 {
            self.rows[i].hearts -= 1;
            assert(self@.rows =~= old(self)@.after(Event::RemoveHeart(i)).rows);
        }
    }

    /// Takes up a peg from the supply, which holds no free peg.
    fn pick_peg(&mut self, id: Peg)
        ensures
            final(self)@ == old(self)@.after(Event::PickPeg(id)),
    {
        if self.picked.is_none() && !self.is_free(id) {
            self.picked = Some(id);
        }
    }

    /// Takes up the peg in a slot.
    fn pick_slot(&mut self, row: usize, col: usize, keep: bool)
        ensures
            final(self)@ == old(self)@.after(Event::PickSlot { row, col, keep }),
    {
        if self.picked.is_none() && row < self.rows.len() && col < self.rows[row].slots.len() {
            match self.rows[row].slots[col] {
                Some(id) => {
                    self.picked = Some(id);
                    if !keep {
                        self.rows[row].slots[col] = None;
                        assert(self@.rows =~= old(self)@.after(
                            Event::PickSlot { row, col, keep },
                        ).rows);
                    }
                },
                None => {},
            }
        }
    }

    /// Takes up a free peg.
    fn pick_free(&mut self, i: usize)
        ensures
            final(self)@ == old(self)@.after(Event::PickFree(i)),
    {
        if self.picked.is_none() && i < self.free_pegs.len() {
            let id = self.free_pegs.remove(i);
            self.picked = Some(id);
        }
    }

    /// Lets go of the peg that was taken up.
    fn drop_peg(&mut self, slot: Option<(usize, usize)>, on_free: bool)
        ensures
            final(self)@ == old(self)@.after(Event::Drop { slot, on_free }),
    {
        match self.picked {
            Some(id) => {
                let can = on_free && self.can_drop_free(id);
                match slot {
                    Some((r, c)) => {
                        if r < self.rows.len() && c < self.rows[r].slots.len() {
                            self.rows[r].slots[c] = Some(id);
                        }
                    },
                    None => {},
                }
                if can {
                    self.free_pegs.push(id);
                }
                self.picked = None;
                assert(self@.rows =~= old(self)@.dropped(slot, on_free).rows);
            },
            None => {},
        }
    }

    /// Takes what the player does, and changes the board by it.
    pub fn apply(&mut self, event: Event)
        requires
            old(self)@.wf(),
        ensures
            final(self)@ == old(self)@.after(event),
            final(self)@.wf(),
    {
        proof {
            lemma_after_keeps_wf(self@, event);
        }
        match event {
            Event::SetSlots(slots) => self.set_slots(slots),
            Event::AddRow => self.add_row(),
            Event::RemoveRow => self.remove_row(),
            Event::Clear => self.clear(),
            Event::Solve => self.solve(),
            Event::AddDot(i) => self.add_dot(i),
            Event::AddHeart(i) => self.add_heart(i),
            Event::RemoveDot(i) => self.remove_dot(i),
            Event::RemoveHeart(i) => self.remove_heart(i),
            Event::PickPeg(id) => self.pick_peg(id),
            Event::PickSlot { row, col, keep } => self.pick_slot(row, col, keep),
            Event::PickFree(i) => self.pick_free(i),
            Event::Drop { slot, on_free } => self.drop_peg(slot, on_free),
        }
    }
}

/// Whatever the player does, there is a row left, and each row has as many
/// slots as the board says.
pub proof fn lemma_after_keeps_wf(board: BoardView, event: Event)
    requires
        board.wf(),
    ensures
        board.after(event).wf(),
{
}

/// Empties every slot of the row and takes its markers away.
fn blank_out(row: &mut ClueRow)
    ensures
        final(row)@.slots.len() == old(row)@.slots.len(),
        forall|k: int|
            0 <= k < final(row)@.slots.len() ==> (#[trigger] final(row)@.slots[k]) is None,
        final(row)@.hearts == 0,
        final(row)@.dots == 0,
{
    row.dots = 0;
    row.hearts = 0;
    let len = row.slots.len();
    for k in 0..len
        invariant
            len == row.slots@.len(),
            len == old(row).slots@.len(),
            row.hearts == 0,
            row.dots == 0,
            forall|m: int| 0 <= m < k ==> (#[trigger] row.slots@[m]) is None,
    {
        row.slots[k] = None;
    }
}

/// Cuts the row, or fills it up with empty slots, to `slots` slots.
fn fit_row(row: &mut ClueRow, slots: u8)
    ensures
        final(row)@ == fit(old(row)@, slots),
{
    row.slots.truncate(slots as usize);
    while row.slots.len() < slots as usize
        invariant
            row.hearts == old(row).hearts,
            row.dots == old(row).dots,
            row.slots@.len() <= slots,
            row.slots@.len() >= old(row).slots@.len() || row.slots@.len() == slots,
            forall|k: int|
                0 <= k < row.slots@.len() ==> #[trigger] row.slots@[k] == fit(
                    old(row)@,
                    slots,
                ).slots[k],
        decreases slots - row.slots@.len(),
    {
        row.slots.push(None);
    }
    assert(row.slots@ =~= fit(old(row)@, slots).slots);
}

} // verus!
