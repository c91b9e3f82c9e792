//! Deduction from pairs of clues, without trying any guess.
//!
//! Replacement rule:
//! If the second of two rows has as many markers more than the first as it
//! has pegs that the first has not, then all pegs which were removed can't be
//! in the solution, and all those which were added have to be in the solution.
use crate::counting::{
    count_where, lemma_count_grows, lemma_sum_add, lemma_sum_grows, lemma_sum_le, lemma_sum_same,
    lemma_sum_tight, pointwise_sum, sum_upto,
};
use crate::score::{
    agrees_with, is_peg, lemma_occurrences_total, lemma_score_bounds, occurrences,
    occurrences_by_color, shared_by_color, shared_pegs,
};
use crate::solution::uniform;
use crate::{Clue, ClueView, Peg, Pegs};
use std::collections::HashMap;
use vstd::prelude::*;
use vstd::string::StringExecFns;

verus! {

/// For each peg that occurs, how often it does.
pub type PegCountMap = HashMap<Peg, u8>;

/// How often `map` counts the peg `p`: 0 where it does not hold it.
pub open spec fn count_in(map: Map<Peg, u8>, p: Peg) -> nat {
    if map.contains_key(p) {
        map[p] as nat
    } else {
        0
    }
}

/// `count_in` as a function of the peg, taken as a number.
pub open spec fn counts_of(map: Map<Peg, u8>) -> spec_fn(int) -> nat {
    |p: int| count_in(map, p as Peg)
}

/// The sum of all counts of `map`.
pub open spec fn count_total(map: Map<Peg, u8>) -> nat {
    sum_upto(256, counts_of(map))
}

/// The counts of the pegs among the first `n` of `pegs`.
pub open spec fn counted_upto(pegs: Seq<Peg>, n: nat) -> Map<Peg, u8> {
    Map::new(
        |p: Peg| count_where(n, is_peg(pegs, p)) > 0,
        |p: Peg| count_where(n, is_peg(pegs, p)) as u8,
    )
}

/// The counts of the pegs of `pegs`: each peg that occurs, with the number
/// of its occurrences.
pub open spec fn counted(pegs: Seq<Peg>) -> Map<Peg, u8> {
    counted_upto(pegs, pegs.len())
}

/// No peg occurs in `pegs` more often than a count can hold.
pub open spec fn countable(pegs: Seq<Peg>) -> bool {
    forall|p: Peg| #[trigger] occurrences(pegs, p) <= u8::MAX
}

/// What `map2` adds to `map1`: each peg that `map2` counts more often than
/// `map1`, with the difference.
pub open spec fn added(map1: Map<Peg, u8>, map2: Map<Peg, u8>) -> Map<Peg, u8> {
    Map::new(
        |k: Peg| map2.contains_key(k) && map2[k] > count_in(map1, k),
        |k: Peg| (map2[k] - count_in(map1, k)) as u8,
    )
}

/// What `map2` removes from `map1`: each peg that `map1` counts more often
/// than `map2`, with the difference.
pub open spec fn removed(map1: Map<Peg, u8>, map2: Map<Peg, u8>) -> Map<Peg, u8> {
    Map::new(
        |k: Peg| map1.contains_key(k) && count_in(map2, k) < map1[k],
        |k: Peg| (map1[k] - count_in(map2, k)) as u8,
    )
}

/// How many more of the peg `p` the pegs `b` hold than the pegs `a`.
pub open spec fn surplus(a: Seq<Peg>, b: Seq<Peg>, p: Peg) -> nat {
    if occurrences(b, p) > occurrences(a, p) {
        (occurrences(b, p) - occurrences(a, p)) as nat
    } else {
        0
    }
}

/// `surplus` as a function of the peg, taken as a number.
pub open spec fn surplus_by_color(a: Seq<Peg>, b: Seq<Peg>) -> spec_fn(int) -> nat {
    |p: int| surplus(a, b, p as Peg)
}

/// A run of pegs that is no longer than a count can hold is countable.
pub proof fn lemma_countable(pegs: Seq<Peg>)
    requires
        pegs.len() <= u8::MAX,
    ensures
        countable(pegs),
{
    assert forall|p: Peg| #[trigger] occurrences(pegs, p) <= u8::MAX by {
        crate::counting::lemma_count_bound(pegs.len(), is_peg(pegs, p));
    }
}

/// What the counts of `b` add to those of `a`, and what they remove, is the
/// surplus of the one over the other, peg by peg.
pub proof fn lemma_difference_counts(a: Seq<Peg>, b: Seq<Peg>)
    requires
        countable(a),
        countable(b),
    ensures
        forall|p: Peg| #[trigger] count_in(added(counted(a), counted(b)), p) == surplus(a, b, p),
        forall|p: Peg| #[trigger]
            count_in(removed(counted(a), counted(b)), p) == surplus(b, a, p),
        count_total(added(counted(a), counted(b))) == sum_upto(256, surplus_by_color(a, b)),
        count_total(removed(counted(a), counted(b))) == sum_upto(256, surplus_by_color(b, a)),
{
    assert forall|p: Peg| #[trigger]
        count_in(added(counted(a), counted(b)), p) == surplus(a, b, p) by {
        assert(occurrences(a, p) <= u8::MAX);
        assert(occurrences(b, p) <= u8::MAX);
    }
    assert forall|p: Peg| #[trigger]
        count_in(removed(counted(a), counted(b)), p) == surplus(b, a, p) by {
        assert(occurrences(a, p) <= u8::MAX);
        assert(occurrences(b, p) <= u8::MAX);
    }
    let plus = counts_of(added(counted(a), counted(b)));
    assert forall|p: int| 0 <= p < 256 implies #[trigger] plus(p) == surplus_by_color(a, b)(p) by {
        assert(count_in(added(counted(a), counted(b)), p as Peg) == surplus(a, b, p as Peg));
    }
    lemma_sum_same(256, plus, surplus_by_color(a, b));
    let minus = counts_of(removed(counted(a), counted(b)));
    assert forall|p: int| 0 <= p < 256 implies #[trigger] minus(p) == surplus_by_color(b, a)(
        p,
    ) by {
        assert(count_in(removed(counted(a), counted(b)), p as Peg) == surplus(b, a, p as Peg));
    }
    lemma_sum_same(256, minus, surplus_by_color(b, a));
}

/// Between two runs of pegs of one length, as many pegs are added as are
/// removed, and no more than the length.
pub proof fn lemma_difference_totals(a: Seq<Peg>, b: Seq<Peg>)
    requires
        a.len() == b.len(),
        a.len() <= u8::MAX,
    ensures
        count_total(added(counted(a), counted(b))) == count_total(
            removed(counted(a), counted(b)),
        ),
        count_total(added(counted(a), counted(b))) <= a.len(),
{
    lemma_countable(a);
    lemma_countable(b);
    lemma_difference_counts(a, b);
    let more = surplus_by_color(a, b);
    let less = surplus_by_color(b, a);
    let in_a = occurrences_by_color(a);
    let in_b = occurrences_by_color(b);
    lemma_occurrences_total(a);
    lemma_occurrences_total(b);
    // Peg by peg, what `a` holds and what is added is what `b` holds and
    // what is removed.
    let left = pointwise_sum(in_a, more);
    let right = pointwise_sum(in_b, less);
    assert forall|p: int| 0 <= p < 256 implies #[trigger] left(p) == right(p) by {}
    lemma_sum_same(256, left, right);
    lemma_sum_add(256, in_a, more);
    lemma_sum_add(256, in_b, less);
    lemma_sum_le(256, more, in_b);
}

/// What the second of two groups of pegs has and the first has not, peg by
/// peg, and the other way round.
pub struct PegsDifference {
    pub added: PegCountMap,
    pub removed: PegCountMap,
}

impl PegsDifference {
    /// Count the number of differences
    pub fn count(&self) -> (n: u8)
        requires
            count_total(self.added@) == count_total(self.removed@),
            count_total(self.added@) <= u8::MAX,
        ensures
            n == count_total(self.added@),
    {
        let added = pegmap_count_total(&self.added);
        let removed = pegmap_count_total(&self.removed);
        assert(added == removed);
        added
    }
}

/// The sum of all counts of `map`.
pub fn pegmap_count_total(map: &PegCountMap) -> (total: u8)
    requires
        count_total(map@) <= u8::MAX,
    ensures
        total == count_total(map@),
{
    let mut total: u8 = 0;
    let mut k: usize = 0;
    while k < 256
        invariant
            k <= 256,
            total == sum_upto(k as nat, counts_of(map@)),
            count_total(map@) <= u8::MAX,
        decreases 256 - k,
    {
        let peg = k as u8;
        proof {
            lemma_sum_grows((k + 1) as nat, 256, counts_of(map@));
        }
        match map.get(&peg) {
            Some(times) => {
                total += *times;
            },
            None => {},
        }
        k += 1;
    }
    total
}

/// How often each peg occurs in `pegs`.
pub fn count(pegs: &Pegs) -> (hm: PegCountMap)
    requires
        countable(pegs@),
    ensures
        hm@ == counted(pegs@),
{
    let mut hm: PegCountMap = HashMap::default();
    assert(hm@ =~= counted_upto(pegs@, 0));
    for i in 0..pegs.len()
        invariant
            countable(pegs@),
            hm@ == counted_upto(pegs@, i as nat),
    {
        let peg = pegs[i];
        let seen = match hm.get(&peg) {
            Some(times) => *times,
            None => 0,
        };
        proof {
            assert(is_peg(pegs@, peg)(i as int));
            lemma_count_grows((i + 1) as nat, pegs@.len(), is_peg(pegs@, peg));
            assert(occurrences(pegs@, peg) <= u8::MAX);
        }
        hm.insert(peg, seen + 1);
        assert(hm@ =~= counted_upto(pegs@, (i + 1) as nat));
    }
    hm
}

/// What map2 adds to map1
pub fn adds(map1: &PegCountMap, map2: &PegCountMap) -> (adds: PegCountMap)
    ensures
        adds@ == added(map1@, map2@),
{
    let mut adds: PegCountMap = HashMap::default();
    let mut k: usize = 0;
    while k < 256
        invariant
            k <= 256,
            adds@ == added(map1@, map2@).restrict(Set::new(|p: Peg| p < k)),
        decreases 256 - k,
    {
        let k2 = k as u8;
        match map2.get(&k2) {
            Some(times) => {
                let v2 = *times;
                let v1 = match map1.get(&k2) {
                    Some(times) => *times,
                    None => 0,
                };
                if v2 > v1 {
                    adds.insert(k2, v2 - v1);
                }
            },
            None => {},
        }
        k += 1;
        assert(adds@ =~= added(map1@, map2@).restrict(Set::new(|p: Peg| p < k)));
    }
    assert(adds@ =~= added(map1@, map2@));
    adds
}

/// What map2 removes from map1
pub fn removes(map1: &PegCountMap, map2: &PegCountMap) -> (removes: PegCountMap)
    ensures
        removes@ == removed(map1@, map2@),
{
    let mut removes: PegCountMap = HashMap::default();
    let mut k: usize = 0;
    while k < 256
        invariant
            k <= 256,
            removes@ == removed(map1@, map2@).restrict(Set::new(|p: Peg| p < k)),
        decreases 256 - k,
    {
        let k1 = k as u8;
        match map1.get(&k1) {
            Some(times) => {
                let v1 = *times;
                let v2 = match map2.get(&k1) {
                    Some(times) => *times,
                    None => 0,
                };
                if v2 < v1 {
                    removes.insert(k1, v1 - v2);
                }
            },
            None => {},
        }
        k += 1;
        assert(removes@ =~= removed(map1@, map2@).restrict(Set::new(|p: Peg| p < k)));
    }
    assert(removes@ =~= removed(map1@, map2@));
    removes
}

/// What `group2` has and `group1` has not, and the other way round.
pub fn get_pegs_difference(group1: &Pegs, group2: &Pegs) -> (difference: PegsDifference)
    requires
        countable(group1@),
        countable(group2@),
    ensures
        difference.added@ == added(counted(group1@), counted(group2@)),
        difference.removed@ == removed(counted(group1@), counted(group2@)),
{
    let pegs1 = count(group1);
    let pegs2 = count(group2);
    PegsDifference { added: adds(&pegs1, &pegs2), removed: removes(&pegs1, &pegs2) }
}

/// One line of what the deduction found.
#[derive(Debug, Clone, PartialEq, Eq)]
pub enum Desc {
    /// A step of the reasoning, in words.
    Text(String),
    /// At least `times` pegs `peg` must be in the solution.
    AtLeastMustBe { peg: Peg, times: u8 },
    /// At least `times` pegs `peg` can not be in the solution.
    AtLeastCantBe { peg: Peg, times: u8 },
}

/// What a line says: its words as a sequence of characters, or its peg and
/// number.
pub enum DescView {
    Text(Seq<char>),
    AtLeastMustBe { peg: Peg, times: u8 },
    AtLeastCantBe { peg: Peg, times: u8 },
}

impl DeepView for Desc {
    type V = DescView;

    open spec fn deep_view(&self) -> DescView {
        match self {
            Desc::Text(text) => DescView::Text(text@),
            Desc::AtLeastMustBe { peg, times } => DescView::AtLeastMustBe {
                peg: *peg,
                times: *times,
            },
            Desc::AtLeastCantBe { peg, times } => DescView::AtLeastCantBe {
                peg: *peg,
                times: *times,
            },
        }
    }
}

/// The character of the digit `d`.
pub open spec fn digit_char(d: nat) -> char {
    if d == 0 {
        '0'
    } else if d == 1 {
        '1'
    } else if d == 2 {
        '2'
    } else if d == 3 {
        '3'
    } else if d == 4 {
        '4'
    } else if d == 5 {
        '5'
    } else if d == 6 {
        '6'
    } else if d == 7 {
        '7'
    } else if d == 8 {
        '8'
    } else {
        '9'
    }
}

/// The number `n` written in decimal digits.
pub open spec fn decimal_text(n: nat) -> Seq<char>
    decreases n,
{
    if n < 10 {
        seq![digit_char(n)]
    } else {
        decimal_text(n / 10).push(digit_char(n % 10))
    }
}

/// The words that open the deduction.
pub open spec fn opening_text() -> Seq<char> {
    "First, we try the replacement rule."@
}

/// The words that announce what the rows `first` and `second` give, counted
/// from 1.
pub open spec fn rule_text(first: nat, second: nat) -> Seq<char> {
    "Applying the replacement rule for rows "@ + decimal_text(first) + " and "@ + decimal_text(
        second,
    ) + ", we can deduce that:"@
}

/// The replacement rule holds of a first and a second clue where the second
/// has as many markers more than the first as it has pegs that the first has
/// not.
pub open spec fn rule_applies(first: ClueView, second: ClueView) -> bool {
    second.indicator.markers() - first.indicator.markers() == count_total(
        added(counted(first.pegs), counted(second.pegs)),
    )
}

/// One line for each peg below `bound` that `counts` holds, in the order of
/// the pegs: that it must be in the solution where `must_be` is set, else that
/// it can not be.
pub open spec fn lines_upto(counts: Map<Peg, u8>, must_be: bool, bound: nat) -> Seq<DescView>
    decreases bound,
{
    if bound == 0 {
        Seq::empty()
    } else {
        let peg = (bound - 1) as Peg;
        let front = lines_upto(counts, must_be, (bound - 1) as nat);
        if !counts.contains_key(peg) {
            front
        } else if must_be {
            front.push(DescView::AtLeastMustBe { peg, times: counts[peg] })
        } else {
            front.push(DescView::AtLeastCantBe { peg, times: counts[peg] })
        }
    }
}

/// What the rows `i` and `j` give: nothing where the rule does not hold of
/// them; else the announcement, then each peg that the second row adds, which
/// must be in the solution, then each peg that it removes, which can not be.
pub open spec fn pair_lines(clues: Seq<ClueView>, i: int, j: int) -> Seq<DescView> {
    if rule_applies(clues[i], clues[j]) {
        let before = counted(clues[i].pegs);
        let after = counted(clues[j].pegs);
        seq![DescView::Text(rule_text((i + 1) as nat, (j + 1) as nat))] + lines_upto(
            added(before, after),
            true,
            256,
        ) + lines_upto(removed(before, after), false, 256)
    } else {
        Seq::empty()
    }
}

/// What the row `i` gives with each later row before the row `upto`.
pub open spec fn row_lines(clues: Seq<ClueView>, i: int, upto: int) -> Seq<DescView>
    decreases upto - i,
{
    if upto <= i + 1 {
        Seq::empty()
    } else {
        row_lines(clues, i, upto - 1) + pair_lines(clues, i, upto - 1)
    }
}

/// The opening, then what each of the first `rows` rows gives with each row
/// after it.
pub open spec fn lines_of_rows(clues: Seq<ClueView>, rows: nat) -> Seq<DescView>
    decreases rows,
{
    if rows == 0 {
        seq![DescView::Text(opening_text())]
    } else {
        lines_of_rows(clues, (rows - 1) as nat) + row_lines(
            clues,
            rows - 1,
            clues.len() as int,
        )
    }
}

/// All that the replacement rule gives for `clues`: the opening, then what
/// each pair of rows gives, the pairs ordered by their first row and then by
/// their second.
pub open spec fn deduction_lines(clues: Seq<ClueView>) -> Seq<DescView> {
    lines_of_rows(clues, clues.len())
}

/// The replacement rule is sound. Let a guess agree with two clues of its
/// length, and let the rule hold of the clues. Then the guess holds each peg
/// that the second clue adds at least as often as the second clue does, which
/// is at least as often as it was added; and it holds each peg that the second
/// clue removes no more often than the second clue does, which is less often
/// than the first clue does.
pub proof fn lemma_replacement_rule_sound(
    solution: Seq<Peg>,
    first: ClueView,
    second: ClueView,
    p: Peg,
)
    requires
        solution.len() == first.pegs.len(),
        solution.len() == second.pegs.len(),
        solution.len() <= u8::MAX,
        agrees_with(solution, first),
        agrees_with(solution, second),
        rule_applies(first, second),
    ensures
        added(counted(first.pegs), counted(second.pegs)).contains_key(p) ==> {
            &&& occurrences(solution, p) >= occurrences(second.pegs, p)
            &&& occurrences(second.pegs, p) >= added(counted(first.pegs), counted(second.pegs))[p]
        },
        removed(counted(first.pegs), counted(second.pegs)).contains_key(p) ==> {
            &&& occurrences(solution, p) <= occurrences(second.pegs, p)
            &&& occurrences(second.pegs, p) < occurrences(first.pegs, p)
        },
{
    let a = first.pegs;
    let b = second.pegs;
    lemma_countable(a);
    lemma_countable(b);
    lemma_difference_counts(a, b);
    lemma_score_bounds(solution, a);
    lemma_score_bounds(solution, b);
    assert(first.indicator.markers() == shared_pegs(solution, a));
    assert(second.indicator.markers() == shared_pegs(solution, b));
    let with_b = shared_by_color(solution, b);
    let with_a = shared_by_color(solution, a);
    let more = surplus_by_color(a, b);
    let bound = pointwise_sum(with_a, more);
    assert forall|q: int| 0 <= q < 256 implies #[trigger] with_b(q) <= bound(q) by {}
    lemma_sum_add(256, with_a, more);
    lemma_sum_tight(256, with_b, bound);
    assert(with_b(p as int) == bound(p as int));
    assert(count_in(added(counted(a), counted(b)), p) == surplus(a, b, p));
    assert(count_in(removed(counted(a), counted(b)), p) == surplus(b, a, p));
}

/// A pair of rows of which the rule does not hold gives no line.
pub proof fn lemma_no_rule_no_lines(clues: Seq<ClueView>, i: int, j: int)
    requires
        !rule_applies(clues[i], clues[j]),
    ensures
        pair_lines(clues, i, j).len() == 0,
{
}

/// Each line that a row gives comes from one of its pairs.
pub proof fn lemma_row_lines_origin(clues: Seq<ClueView>, i: int, upto: int, line: DescView)
    requires
        row_lines(clues, i, upto).contains(line),
    ensures
        exists|j: int| i < j < upto && #[trigger] pair_lines(clues, i, j).contains(line),
    decreases upto - i,
{
    if upto > i + 1 {
        let front = row_lines(clues, i, upto - 1);
        let last = pair_lines(clues, i, upto - 1);
        let k = choose|k: int| 0 <= k < (front + last).len() && (front + last)[k] == line;
        if k < front.len() {
            assert(front[k] == line);
            lemma_row_lines_origin(clues, i, upto - 1, line);
        } else {
            assert(last[k - front.len()] == line);
            assert(pair_lines(clues, i, upto - 1).contains(line));
        }
    }
}

/// No deduction is made but by the rule: each line of the deduction, the
/// opening apart, is a line of a pair of rows of which the rule holds.
pub proof fn lemma_lines_need_rule(clues: Seq<ClueView>, rows: nat, line: DescView)
    requires
        rows <= clues.len(),
        lines_of_rows(clues, rows).contains(line),
        line != DescView::Text(opening_text()),
    ensures
        exists|i: int, j: int|
            0 <= i < j < clues.len() && rule_applies(clues[i], clues[j]) && #[trigger] pair_lines(
                clues,
                i,
                j,
            ).contains(line),
    decreases rows,
{
    if rows == 0 {
        let only = lines_of_rows(clues, 0);
        let k = choose|k: int| 0 <= k < only.len() && only[k] == line;
        assert(only[0] == line);
    } else {
        let front = lines_of_rows(clues, (rows - 1) as nat);
        let last = row_lines(clues, rows - 1, clues.len() as int);
        let k = choose|k: int| 0 <= k < (front + last).len() && (front + last)[k] == line;
        if k < front.len() {
            assert(front[k] == line);
            lemma_lines_need_rule(clues, (rows - 1) as nat, line);
        } else {
            assert(last[k - front.len()] == line);
            lemma_row_lines_origin(clues, rows - 1, clues.len() as int, line);
            let j = choose|j: int|
                rows - 1 < j < clues.len() && #[trigger] pair_lines(clues, rows - 1, j).contains(
                    line,
                );
            assert(pair_lines(clues, rows - 1, j).len() > 0);
        }
    }
}

/// The literal of one digit.
fn digit_str(d: usize) -> (text: &'static str)
    requires
        d < 10,
    ensures
        text@ == seq![digit_char(d as nat)],
{
    proof {
        reveal_strlit("0");
        reveal_strlit("1");
        reveal_strlit("2");
        reveal_strlit("3");
        reveal_strlit("4");
        reveal_strlit("5");
        reveal_strlit("6");
        reveal_strlit("7");
        reveal_strlit("8");
        reveal_strlit("9");
    }
    let text = if d == 0 {
        "0"
    } else if d == 1 {
        "1"
    } else if d == 2 {
        "2"
    } else if d == 3 {
        "3"
    } else if d == 4 {
        "4"
    } else if d == 5 {
        "5"
    } else if d == 6 {
        "6"
    } else if d == 7 {
        "7"
    } else if d == 8 {
        "8"
    } else {
        "9"
    };
    assert(text@ =~= seq![digit_char(d as nat)]);
    text
}

/// Writes `n` in decimal digits at the end of `text`.
pub(crate) fn append_decimal(text: &mut String, n: usize)
    ensures
        final(text)@ == old(text)@ + decimal_text(n as nat),
    decreases n,
{
    if n >= 10 {
        append_decimal(text, n / 10);
    }
    text.append(digit_str(n % 10));
    assert(text@ =~= old(text)@ + decimal_text(n as nat));
}

/// The announcement of what two rows give.
fn announce(first: usize, second: usize) -> (text: String)
    ensures
        text@ == rule_text(first as nat, second as nat),
{
    let mut text = "Applying the replacement rule for rows ".to_owned();
    append_decimal(&mut text, first);
    text.append(" and ");
    append_decimal(&mut text, second);
    text.append(", we can deduce that:");
    text
}

/// Adds one line for each peg that `counts` holds.
fn push_lines(steps: &mut Vec<Desc>, counts: &PegCountMap, must_be: bool)
    ensures
        final(steps).deep_view() == old(steps).deep_view() + lines_upto(counts@, must_be, 256),
{
    let mut k: usize = 0;
    assert(steps.deep_view() =~= old(steps).deep_view() + lines_upto(counts@, must_be, 0));
    while k < 256
        invariant
            k <= 256,
            steps.deep_view() == old(steps).deep_view() + lines_upto(counts@, must_be, k as nat),
        decreases 256 - k,
    {
        let peg = k as u8;
        let ghost before = steps.deep_view();
        match counts.get(&peg) {
            Some(times) => {
                let line = if must_be {
                    Desc::AtLeastMustBe { peg, times: *times }
                } else {
                    Desc::AtLeastCantBe { peg, times: *times }
                };
                steps.push(line);
                assert(steps.deep_view() =~= before.push(line.deep_view()));
            },
            None => {},
        }
        k += 1;
        assert(steps.deep_view() =~= old(steps).deep_view() + lines_upto(
            counts@,
            must_be,
            k as nat,
        ));
    }
}

/// Tries the replacement rule on each pair of `clues`, and says what it
/// gives. No solution is put together from that: the first part of the result
/// is `None`.
pub fn solve_logical(free: &Pegs, clues: &[Clue]) -> (found: (Option<Vec<u8>>, Vec<Desc>))
    requires
        uniform(clues.deep_view()),
    ensures
        found.0 is None,
        found.1.deep_view() == deduction_lines(clues.deep_view()),
{
    let solution = None;
    let ghost all = clues.deep_view();
    let mut steps: Vec<Desc> = Vec::new();
    let opening = Desc::Text("First, we try the replacement rule.".to_owned());
    steps.push(opening);
    assert(steps.deep_view() =~= lines_of_rows(all, 0));
    // Try the replacement rule
    for i in 0..clues.len()
        invariant
            all == clues.deep_view(),
            uniform(all),
            steps.deep_view() == lines_of_rows(all, i as nat),
    {
        let ghost done = steps.deep_view();
        assert(steps.deep_view() =~= done + row_lines(all, i as int, i + 1));
        let first_j = i + 1;
        for j in first_j..clues.len()
            invariant
                first_j == i + 1,
                i < clues@.len(),
                all == clues.deep_view(),
                uniform(all),
                done == lines_of_rows(all, i as nat),
                steps.deep_view() == done + row_lines(all, i as int, j as int),
        {
            let c1 = &clues[i];
            let c2 = &clues[j];
            let ghost before = steps.deep_view();
            proof {
                assert(all[i as int] == c1@);
                assert(all[j as int] == c2@);
                lemma_countable(c1.pegs@);
                lemma_countable(c2.pegs@);
                lemma_difference_totals(c1.pegs@, c2.pegs@);
            }
            let diff_ind = c1.indicator.difference(&c2.indicator);
            let diff_pegs = get_pegs_difference(c1.pegs.as_slice(), c2.pegs.as_slice());
            if diff_ind == diff_pegs.count() as i16 {
                let step = Desc::Text(announce(i + 1, j + 1));
                steps.push(step);
                assert(steps.deep_view() =~= before + seq![step.deep_view()]);
                // Pegs that were added must be in the solution
                push_lines(&mut steps, &diff_pegs.added, true);
                // Pegs that were removed can not be in the solution
                push_lines(&mut steps, &diff_pegs.removed, false);
            }
            assert(steps.deep_view() =~= done + row_lines(all, i as int, j + 1));
        }
    }
    (solution, steps)
}

} // verus!
