use vstd::prelude::*;
use crate::field::{Field, MineState, Position};

verus! {

/// The mathematical model of a board: its dimensions and its cells in
/// row-major order.
pub ghost struct Grid {
    pub rows: int,
    pub cols: int,
    pub cells: Seq<Field>,
}

/// Two distinct cells that share an edge or a corner.
pub open spec fn adjacent(r: int, c: int, r2: int, c2: int) -> bool {
    r - 1 <= r2 <= r + 1 && c - 1 <= c2 <= c + 1 && !(r2 == r && c2 == c)
}

/// How many of `v - 1`, `v` and `v + 1` are at least 0 and less than `limit`.
pub open spec fn span(limit: int, v: int) -> int {
    (if v + 1 < limit {
        v + 1
    } else {
        limit - 1
    }) - (if v > 0 {
        v - 1
    } else {
        0
    }) + 1
}

/// `(r, c)` occurs in the list `ps`.
pub open spec fn listed(ps: Seq<Position>, r: int, c: int) -> bool {
    exists|k: int| 0 <= k < ps.len() && (#[trigger] ps[k]).0 == r && ps[k].1 == c
}

/// `last` is the last of `states`.
pub open spec fn ends_with(states: Seq<Grid>, last: Grid) -> bool {
    states.len() > 0 && states[states.len() - 1] == last
}

/// `a` comes before `b` when the cells are read row by row.
pub open spec fn precedes(a: Position, b: Position) -> bool {
    a.0 < b.0 || (a.0 == b.0 && a.1 < b.1)
}

/// How many cells of `cells` are `Closed`.
pub open spec fn closed_count(cells: Seq<Field>) -> nat
    decreases cells.len(),
{
    if cells.len() == 0 {
        0
    } else {
        closed_count(cells.drop_last()) + if cells.last() == Field::Closed {
            1nat
        } else {
            0nat
        }
    }
}

/// Every cell that is `Closed` in `after` was `Closed` in `before`.
pub open spec fn shrinks(before: Seq<Field>, after: Seq<Field>) -> bool {
    before.len() == after.len() && forall|i: int|
        0 <= i < after.len() && #[trigger] after[i] == Field::Closed ==> before[i]
            == Field::Closed
}

pub proof fn lemma_count_shrinks(before: Seq<Field>, after: Seq<Field>)
    requires
        shrinks(before, after),
    ensures
        closed_count(after) <= closed_count(before),
    decreases before.len(),
{
    if before.len() > 0 {
        lemma_count_shrinks(before.drop_last(), after.drop_last());
    }
}

pub proof fn lemma_count_strict(before: Seq<Field>, after: Seq<Field>, i: int)
    requires
        shrinks(before, after),
        0 <= i < before.len(),
        before[i] == Field::Closed,
        after[i] != Field::Closed,
    ensures
        closed_count(after) < closed_count(before),
    decreases before.len(),
{
    if i == before.len() - 1 {
        lemma_count_shrinks(before.drop_last(), after.drop_last());
    } else {
        lemma_count_strict(before.drop_last(), after.drop_last(), i);
    }
}

pub proof fn lemma_offset(rows: int, cols: int, r: int, c: int)
    requires
        0 <= r < rows,
        0 <= c < cols,
    ensures
        0 <= r * cols + c < rows * cols,
        0 <= r * cols <= rows * cols - cols,
{
    assert(0 <= r * cols && r * cols + cols <= rows * cols) by (nonlinear_arith)
        requires
            0 <= r < rows,
            0 < cols,
    ;
}

pub proof fn lemma_offset_differs(cols: int, r: int, c: int, r2: int, c2: int)
    requires
        0 <= c < cols,
        0 <= c2 < cols,
        r != r2 || c != c2,
    ensures
        r * cols + c != r2 * cols + c2,
{
    if r < r2 {
        assert(r * cols + cols <= r2 * cols) by (nonlinear_arith)
            requires
                r < r2,
                0 < cols,
        ;
    } else if r2 < r {
        assert(r2 * cols + cols <= r * cols) by (nonlinear_arith)
            requires
                r2 < r,
                0 < cols,
        ;
    }
}

impl Grid {
    /// Positive dimensions, and one cell for each position.
    pub open spec fn wf(self) -> bool {
        self.rows > 0 && self.cols > 0 && self.cells.len() == self.rows * self.cols
    }

    pub open spec fn inside(self, r: int, c: int) -> bool {
        0 <= r < self.rows && 0 <= c < self.cols
    }

    /// The state of the cell in row `r`, column `c`.
    pub open spec fn at(self, r: int, c: int) -> Field {
        self.cells[r * self.cols + c]
    }

    /// The grid with the cell in row `r`, column `c` set to `f`.
    pub open spec fn put(self, r: int, c: int, f: Field) -> Grid {
        Grid { rows: self.rows, cols: self.cols, cells: self.cells.update(r * self.cols + c, f) }
    }

    /// Every cell is `Closed`.
    pub open spec fn blank(self) -> bool {
        forall|i: int| 0 <= i < self.cells.len() ==> self.cells[i] == Field::Closed
    }

    /// 1 where `(r, c)` is on the grid and holds a mine (`marks` false) or a
    /// player's mark (`marks` true), else 0.
    pub open spec fn tally_at(self, r: int, c: int, marks: bool) -> int {
        if self.inside(r, c) && (if marks {
            self.at(r, c).is_marked()
        } else {
            self.at(r, c).is_mine()
        }) {
            1
        } else {
            0
        }
    }

    /// The number of neighbours of `(r, c)` that hold a mine (`marks` false) or a
    /// player's mark (`marks` true).
    #[verifier::opaque]
    pub open spec fn tally_around(self, r: int, c: int, marks: bool) -> int {
        self.tally_at(r - 1, c - 1, marks) + self.tally_at(r - 1, c, marks) + self.tally_at(
            r - 1,
            c + 1,
            marks,
        ) + self.tally_at(r, c - 1, marks) + self.tally_at(r, c + 1, marks) + self.tally_at(
            r + 1,
            c - 1,
            marks,
        ) + self.tally_at(r + 1, c, marks) + self.tally_at(r + 1, c + 1, marks)
    }

    /// The number of mines among the neighbours of `(r, c)`.
    pub open spec fn mines_around(self, r: int, c: int) -> int {
        self.tally_around(r, c, false)
    }

    /// The number of marked cells among the neighbours of `(r, c)`.
    pub open spec fn flags_around(self, r: int, c: int) -> int {
        self.tally_around(r, c, true)
    }

    /// No neighbour of `(r, c)` is `Closed`.
    #[verifier::opaque]
    pub open spec fn settled(self, r: int, c: int) -> bool {
        forall|r2: int, c2: int|
            self.inside(r2, c2) && adjacent(r, c, r2, c2) ==> #[trigger] self.at(r2, c2)
                != Field::Closed
    }

    /// `next` arises from `self` by revealing cells: each cell is as it was, or
    /// was `Closed` and now shows the number of mines around it, or was a
    /// hidden mine and has detonated.
    pub open spec fn reveals(self, next: Grid) -> bool {
        &&& next.rows == self.rows
        &&& next.cols == self.cols
        &&& shrinks(self.cells, next.cells)
        &&& forall|r: int, c: int|
            self.inside(r, c) ==> {
                ||| #[trigger] next.at(r, c) == self.at(r, c)
                ||| self.at(r, c) == Field::Closed && next.at(r, c).shows(self.mines_around(r, c))
                ||| self.at(r, c) == Field::Mine(MineState::Hidden) && next.at(r, c) == Field::Mine(
                    MineState::Detonated,
                )
            }
    }

    /// `next` arises from `self` by a flood fill: each cell is as it was, or was
    /// `Closed` and now shows the number of mines around it.
    pub open spec fn floods(self, next: Grid) -> bool {
        &&& next.rows == self.rows
        &&& next.cols == self.cols
        &&& shrinks(self.cells, next.cells)
        &&& forall|r: int, c: int|
            self.inside(r, c) ==> {
                ||| #[trigger] next.at(r, c) == self.at(r, c)
                ||| self.at(r, c) == Field::Closed && next.at(r, c).shows(self.mines_around(r, c))
            }
    }

    /// Every cell that a fill from `self` to `next` opened with the count zero
    /// has no `Closed` neighbour left in `next`.
    pub open spec fn filled(self, next: Grid) -> bool {
        forall|r: int, c: int|
            self.inside(r, c) && self.at(r, c) == Field::Closed && #[trigger] next.at(r, c)
                == Field::Opened(0) ==> next.settled(r, c)
    }

    /// `trail` is a walk over `Closed` cells from `(r0, c0)` to `(r, c)`, each
    /// step to a neighbour, on which every cell but the last has no mine around
    /// it.
    pub open spec fn is_trail(self, trail: Seq<(int, int)>, r0: int, c0: int, r: int, c: int) -> bool {
        &&& trail.len() > 0
        &&& trail[0] == (r0, c0)
        &&& trail[trail.len() - 1] == (r, c)
        &&& forall|k: int|
            0 <= k < trail.len() ==> self.inside((#[trigger] trail[k]).0, trail[k].1) && self.at(
                trail[k].0,
                trail[k].1,
            ) == Field::Closed
        &&& forall|k: int|
            0 <= k < trail.len() - 1 ==> self.mines_around((#[trigger] trail[k]).0, trail[k].1)
                == 0 && adjacent(trail[k].0, trail[k].1, trail[k + 1].0, trail[k + 1].1)
    }

    /// A fill that starts at the `Closed` cell `(r0, c0)` gets to `(r, c)`:
    /// some walk over `Closed` cells leads there, through cells with no mine
    /// around them.
    #[verifier::opaque]
    pub open spec fn reaches(self, r0: int, c0: int, r: int, c: int) -> bool {
        exists|trail: Seq<(int, int)>| self.is_trail(trail, r0, c0, r, c)
    }

    /// `next` is `self` after a fill from `(r, c)`: each cell that the fill
    /// gets to shows the number of mines around it, and every other cell is as
    /// it was.
    pub open spec fn fills(self, r: int, c: int, next: Grid) -> bool {
        forall|r2: int, c2: int|
            self.inside(r2, c2) ==> if self.reaches(r, c, r2, c2) {
                (#[trigger] next.at(r2, c2)).shows(self.mines_around(r2, c2))
            } else {
                next.at(r2, c2) == self.at(r2, c2)
            }
    }

    /// Every cell that differs between `self` and `next` is one that a fill
    /// from `(r, c)` gets to.
    pub open spec fn confined(self, r: int, c: int, next: Grid) -> bool {
        forall|r2: int, c2: int|
            self.inside(r2, c2) && #[trigger] next.at(r2, c2) != self.at(r2, c2)
                ==> self.reaches(r, c, r2, c2)
    }

    /// A fill gets to the cell it starts at.
    pub proof fn lemma_reaches_start(self, r: int, c: int)
        requires
            self.inside(r, c),
            self.at(r, c) == Field::Closed,
        ensures
            self.reaches(r, c, r, c),
    {
        reveal(Grid::reaches);
        assert(self.is_trail(seq![(r, c)], r, c, r, c));
    }

    /// Where a fill gets to a cell with no mine around it, it gets to each
    /// `Closed` neighbour of that cell.
    pub proof fn lemma_reaches_step(self, r: int, c: int, pr: int, pc: int, r2: int, c2: int)
        requires
            self.reaches(r, c, pr, pc),
            self.mines_around(pr, pc) == 0,
            adjacent(pr, pc, r2, c2),
            self.inside(r2, c2),
            self.at(r2, c2) == Field::Closed,
        ensures
            self.reaches(r, c, r2, c2),
    {
        reveal(Grid::reaches);
        let head = choose|trail: Seq<(int, int)>| self.is_trail(trail, r, c, pr, pc);
        let trail = head.push((r2, c2));
        assert forall|k: int| 0 <= k < trail.len() implies self.inside(
            (#[trigger] trail[k]).0,
            trail[k].1,
        ) && self.at(trail[k].0, trail[k].1) == Field::Closed by {
            if k < head.len() {
                assert(trail[k] == head[k]);
            }
        }
        assert forall|k: int| 0 <= k < trail.len() - 1 implies self.mines_around(
            (#[trigger] trail[k]).0,
            trail[k].1,
        ) == 0 && adjacent(trail[k].0, trail[k].1, trail[k + 1].0, trail[k + 1].1) by {
            assert(trail[k] == head[k]);
            if k < head.len() - 1 {
                assert(trail[k + 1] == head[k + 1]);
            }
        }
        assert(trail[0] == head[0]);
        assert(self.is_trail(trail, r, c, r2, c2));
    }

    /// Revealing one `Closed` cell with its count of mines is a fill, and
    /// leaves one `Closed` cell fewer.
    pub proof fn lemma_show_floods(self, r: int, c: int, f: Field)
        requires
            self.wf(),
            self.inside(r, c),
            self.at(r, c) == Field::Closed,
            f.shows(self.mines_around(r, c)),
        ensures
            self.floods(self.put(r, c, f)),
            closed_count(self.put(r, c, f).cells) < closed_count(self.cells),
    {
        lemma_offset(self.rows, self.cols, r, c);
        self.lemma_put(r, c, f);
        lemma_count_strict(self.cells, self.put(r, c, f).cells, r * self.cols + c);
    }

    /// After a fill from `(r, c)`, no cell on a walk that the fill could take
    /// is `Closed`.
    pub proof fn lemma_trail_opened(
        self,
        next: Grid,
        trail: Seq<(int, int)>,
        r: int,
        c: int,
        r2: int,
        c2: int,
        k: int,
    )
        requires
            self.floods(next),
            self.filled(next),
            next.at(r, c) != Field::Closed,
            self.is_trail(trail, r, c, r2, c2),
            0 <= k < trail.len(),
        ensures
            next.at(trail[k].0, trail[k].1) != Field::Closed,
        decreases k,
    {
        if k > 0 {
            self.lemma_trail_opened(next, trail, r, c, r2, c2, k - 1);
            let (pr, pc) = trail[k - 1];
            assert(next.at(pr, pc) == Field::Opened(0));
            assert(next.settled(pr, pc));
            reveal(Grid::settled);
            assert(self.inside(trail[k].0, trail[k].1));
        }
    }

    /// A fill that stays within the cells it can get to, and leaves no
    /// `Closed` neighbour beside a cell it opened with the count zero, has
    /// opened exactly the cells it can get to.
    pub proof fn lemma_fill_exact(self, r: int, c: int, next: Grid)
        requires
            self.floods(next),
            self.filled(next),
            self.confined(r, c, next),
            next.at(r, c) != Field::Closed,
        ensures
            self.fills(r, c, next),
    {
        assert forall|r2: int, c2: int| self.inside(r2, c2) implies if self.reaches(r, c, r2, c2) {
            (#[trigger] next.at(r2, c2)).shows(self.mines_around(r2, c2))
        } else {
            next.at(r2, c2) == self.at(r2, c2)
        } by {
            if self.reaches(r, c, r2, c2) {
                reveal(Grid::reaches);
                let trail = choose|trail: Seq<(int, int)>| self.is_trail(trail, r, c, r2, c2);
                self.lemma_trail_opened(next, trail, r, c, r2, c2, trail.len() - 1);
            }
        }
    }

    /// The text of the first `c` cells of row `r`.
    pub open spec fn row_text(self, r: int, c: int) -> Seq<char>
        decreases c,
    {
        if c <= 0 {
            Seq::empty()
        } else {
            self.row_text(r, c - 1) + self.at(r, c - 1).glyph()
        }
    }

    /// The text of the first `r` rows: each row's cells, then a line feed.
    pub open spec fn rows_text(self, r: int) -> Seq<char>
        decreases r,
    {
        if r <= 0 {
            Seq::empty()
        } else {
            self.rows_text(r - 1) + self.row_text(r - 1, self.cols) + seq!['\n']
        }
    }

    /// The text that shows the whole grid.
    pub open spec fn rendered(self) -> Seq<char> {
        self.rows_text(self.rows)
    }

    /// No neighbour of `(r, c)` is left for a move to reveal: each is revealed,
    /// marked or exploded.
    pub open spec fn cleared(self, r: int, c: int) -> bool {
        forall|r2: int, c2: int|
            self.inside(r2, c2) && adjacent(r, c, r2, c2) ==> !(#[trigger] self.at(
                r2,
                c2,
            )).is_unrevealed()
    }

    /// `targets` lists the cells that a chord on `(r, c)` opens: the neighbours
    /// that are neither revealed nor marked, each once, row by row.
    pub open spec fn is_chord_list(self, r: int, c: int, targets: Seq<Position>) -> bool {
        &&& forall|k: int|
            0 <= k < targets.len() ==> self.inside(
                (#[trigger] targets[k]).0 as int,
                targets[k].1 as int,
            ) && adjacent(r, c, targets[k].0 as int, targets[k].1 as int) && self.at(
                targets[k].0 as int,
                targets[k].1 as int,
            ).is_chord_target()
        &&& forall|r2: int, c2: int|
            self.inside(r2, c2) && adjacent(r, c, r2, c2) && (#[trigger] self.at(
                r2,
                c2,
            )).is_chord_target() ==> listed(targets, r2, c2)
        &&& forall|a: int, b: int|
            0 <= a < b < targets.len() ==> precedes(targets[a], targets[b])
    }

    /// One step of a chord on `self`: the grid has become `now`, and opening
    /// the cell `(r, c)` of `now` gives `next`. A cell that an earlier step has
    /// revealed is opened again, as a chord of its own.
    pub open spec fn chord_step(self, now: Grid, r: int, c: int, next: Grid) -> bool
        decreases closed_count(self.cells), 0int,
    {
        &&& now.reveals(next)
        &&& match now.at(r, c) {
            Field::Opened(_) => closed_count(now.cells) < closed_count(self.cells) && now.opens(
                r,
                c,
                next,
            ),
            Field::Closed => now.fills(r, c, next) && now.filled(next),
            Field::Mine(MineState::Hidden) => next == now.put(
                r,
                c,
                Field::Mine(MineState::Detonated),
            ),
            _ => next == now,
        }
    }

    /// A chord on `self` opens `targets` one after the other, and `states`
    /// are the grids on the way: `self` first, then the grid after each step.
    pub open spec fn chord_run(self, targets: Seq<Position>, states: Seq<Grid>) -> bool
        decreases closed_count(self.cells), 1int,
    {
        &&& states.len() == targets.len() + 1
        &&& states[0] == self
        &&& forall|i: int|
            0 <= i < targets.len() ==> self.chord_step(
                states[i],
                (#[trigger] targets[i]).0 as int,
                targets[i].1 as int,
                states[i + 1],
            )
    }

    /// What opening the cell `(r, c)` of `self` makes of the grid: `next`.
    ///
    /// From a `Closed` cell a fill starts: every cell that it gets to shows its
    /// count of mines, no other cell changes, and no cell that now shows zero
    /// has a `Closed` neighbour left. A hidden mine detonates and nothing else
    /// changes. A revealed cell whose count equals the number of marked
    /// neighbours is a chord: its neighbours that are neither revealed nor
    /// marked are opened in turn, after which none is left to reveal. Every
    /// other move changes nothing.
    pub open spec fn opens(self, r: int, c: int, next: Grid) -> bool
        decreases closed_count(self.cells), 2int,
    {
        match self.at(r, c) {
            Field::Closed => self.fills(r, c, next) && self.filled(next),
            Field::Opened(n) => if self.flags_around(r, c) == n {
                &&& self.reveals(next)
                &&& next.cleared(r, c)
                &&& exists|targets: Seq<Position>, states: Seq<Grid>|
                    #![trigger self.is_chord_list(r, c, targets), ends_with(states, next)]
                    self.is_chord_list(r, c, targets) && self.chord_run(targets, states)
                        && ends_with(states, next)
            } else {
                next == self
            },
            Field::Mine(MineState::Hidden) => next == self.put(
                r,
                c,
                Field::Mine(MineState::Detonated),
            ),
            _ => next == self,
        }
    }

    /// On a blank grid every position holds a `Closed` cell.
    pub proof fn lemma_blank_at(self, r: int, c: int)
        requires
            self.wf(),
            self.blank(),
            self.inside(r, c),
        ensures
            self.at(r, c) == Field::Closed,
    {
        lemma_offset(self.rows, self.cols, r, c);
    }

    /// A fill gets only to `Closed` cells: it changes no mine, no marked cell
    /// and no cell that was revealed before.
    pub proof fn lemma_fill_spares(self, r: int, c: int, next: Grid, r2: int, c2: int)
        requires
            self.fills(r, c, next),
            self.inside(r2, c2),
            self.at(r2, c2) != Field::Closed,
        ensures
            next.at(r2, c2) == self.at(r2, c2),
    {
        reveal(Grid::reaches);
    }

    /// A fill stops at a cell with a mine around it: where every `Closed`
    /// neighbour of a `Closed` cell has a mine around it, and the cell is not
    /// where the fill starts, the fill does not get to it.
    pub proof fn lemma_fill_stops(self, r: int, c: int, next: Grid, r2: int, c2: int)
        requires
            self.fills(r, c, next),
            self.inside(r2, c2),
            !(r2 == r && c2 == c),
            forall|r3: int, c3: int|
                self.inside(r3, c3) && adjacent(r3, c3, r2, c2) && #[trigger] self.at(r3, c3)
                    == Field::Closed ==> self.mines_around(r3, c3) != 0,
        ensures
            next.at(r2, c2) == self.at(r2, c2),
    {
        reveal(Grid::reaches);
        if self.reaches(r, c, r2, c2) {
            let trail = choose|trail: Seq<(int, int)>| self.is_trail(trail, r, c, r2, c2);
            let before = trail[trail.len() - 2];
            assert(self.at(before.0, before.1) == Field::Closed);
        }
    }

    /// Toggling the mark on a cell twice gives the grid back.
    pub proof fn lemma_toggle_round_trip(self, r: int, c: int)
        requires
            self.wf(),
            self.inside(r, c),
        ensures
            self.put(r, c, self.at(r, c).toggled()).put(
                r,
                c,
                self.put(r, c, self.at(r, c).toggled()).at(r, c).toggled(),
            ) == self,
            (self.at(r, c) is Opened || self.at(r, c) == Field::Mine(MineState::Detonated))
                ==> self.put(r, c, self.at(r, c).toggled()) == self,
    {
        lemma_offset(self.rows, self.cols, r, c);
        let offset = r * self.cols + c;
        let once = self.put(r, c, self.at(r, c).toggled());
        self.at(r, c).lemma_toggle_twice();
        assert(once.put(r, c, once.at(r, c).toggled()).cells =~= self.cells);
        if self.at(r, c) is Opened || self.at(r, c) == Field::Mine(MineState::Detonated) {
            assert(once.cells =~= self.cells);
        }
    }

    /// Opening a hidden mine detonates it, and no other cell changes.
    pub proof fn lemma_open_mine(self, r: int, c: int, next: Grid, r2: int, c2: int)
        requires
            self.wf(),
            self.inside(r, c),
            self.inside(r2, c2),
            self.at(r, c) == Field::Mine(MineState::Hidden),
            self.opens(r, c, next),
        ensures
            next.at(r, c) == Field::Mine(MineState::Detonated),
            !(r2 == r && c2 == c) ==> next.at(r2, c2) == self.at(r2, c2),
    {
        self.lemma_put(r, c, Field::Mine(MineState::Detonated));
    }

    /// Opening a `Closed` cell reveals it and every cell that the fill from it
    /// gets to, each with its count of mines. It changes no other cell, so no
    /// mine, and stops only where a cell has a mine around it: beside a cell
    /// that now shows zero no `Closed` cell is left.
    pub proof fn lemma_open_closed(self, r: int, c: int, next: Grid, r2: int, c2: int)
        requires
            self.wf(),
            self.inside(r, c),
            self.inside(r2, c2),
            self.at(r, c) == Field::Closed,
            self.opens(r, c, next),
        ensures
            next.at(r, c).shows(self.mines_around(r, c)),
            self.reaches(r, c, r2, c2) ==> next.at(r2, c2).shows(self.mines_around(r2, c2)),
            !self.reaches(r, c, r2, c2) ==> next.at(r2, c2) == self.at(r2, c2),
            self.at(r2, c2) != Field::Closed ==> next.at(r2, c2) == self.at(r2, c2),
            next.at(r2, c2) == Field::Opened(0) && self.at(r2, c2) == Field::Closed
                ==> next.settled(r2, c2),
    {
        self.lemma_reaches_start(r, c);
        let _ = next.at(r, c);
        let _ = next.at(r2, c2);
        if self.at(r2, c2) != Field::Closed {
            self.lemma_fill_spares(r, c, next, r2, c2);
        }
    }

    /// Opening a revealed cell again: where as many neighbours are marked as
    /// the cell counts mines, no neighbour is left that is neither revealed nor
    /// marked nor exploded, and the marked neighbours stay as they are; where
    /// the numbers differ, nothing changes.
    pub proof fn lemma_open_chord(self, r: int, c: int, next: Grid, r2: int, c2: int)
        requires
            self.wf(),
            self.inside(r, c),
            self.inside(r2, c2),
            adjacent(r, c, r2, c2),
            self.at(r, c) is Opened,
            self.opens(r, c, next),
        ensures
            !self.at(r, c).shows(self.flags_around(r, c)) ==> next == self,
            self.at(r, c).shows(self.flags_around(r, c)) ==> !next.at(r2, c2).is_unrevealed(),
            self.at(r, c).shows(self.flags_around(r, c)) && self.at(r2, c2).is_marked()
                ==> next.at(r2, c2) == self.at(r2, c2),
    {
        if self.at(r, c).shows(self.flags_around(r, c)) {
            assert(next.inside(r2, c2));
            let _ = next.at(r2, c2);
        }
    }

    /// Writing one cell keeps the grid well formed and touches no other cell.
    pub proof fn lemma_put(self, r: int, c: int, f: Field)
        requires
            self.wf(),
            self.inside(r, c),
        ensures
            self.put(r, c, f).wf(),
            self.put(r, c, f).at(r, c) == f,
            forall|r2: int, c2: int|
                self.inside(r2, c2) && !(r2 == r && c2 == c) ==> #[trigger] self.put(r, c, f).at(
                    r2,
                    c2,
                ) == self.at(r2, c2),
    {
        lemma_offset(self.rows, self.cols, r, c);
        assert forall|r2: int, c2: int|
            self.inside(r2, c2) && !(r2 == r && c2 == c) implies #[trigger] self.put(r, c, f).at(
            r2,
            c2,
        ) == self.at(r2, c2) by {
            lemma_offset(self.rows, self.cols, r2, c2);
            lemma_offset_differs(self.cols, r, c, r2, c2);
        }
    }

    /// A mine that detonates is a cell revealed.
    pub proof fn lemma_detonate_reveals(self, r: int, c: int)
        requires
            self.wf(),
            self.inside(r, c),
            self.at(r, c) == Field::Mine(MineState::Hidden),
        ensures
            self.reveals(self.put(r, c, Field::Mine(MineState::Detonated))),
    {
        lemma_offset(self.rows, self.cols, r, c);
        self.lemma_put(r, c, Field::Mine(MineState::Detonated));
    }

    /// Revealing cells moves no mine: the count of mines around a cell stays.
    pub proof fn lemma_mines_stay(self, next: Grid, r: int, c: int)
        requires
            self.reveals(next),
        ensures
            next.mines_around(r, c) == self.mines_around(r, c),
    {
        reveal(Grid::tally_around);
    }

    /// A fill reveals cells.
    pub proof fn lemma_floods_reveals(self, next: Grid)
        requires
            self.floods(next),
        ensures
            self.reveals(next),
    {
    }

    pub proof fn lemma_reveals_trans(self, mid: Grid, next: Grid)
        requires
            self.reveals(mid),
            mid.reveals(next),
        ensures
            self.reveals(next),
    {
        assert forall|r: int, c: int| self.inside(r, c) implies {
            ||| #[trigger] next.at(r, c) == self.at(r, c)
            ||| self.at(r, c) == Field::Closed && next.at(r, c).shows(self.mines_around(r, c))
            ||| self.at(r, c) == Field::Mine(MineState::Hidden) && next.at(r, c) == Field::Mine(
                MineState::Detonated,
            )
        } by {
            self.lemma_mines_stay(mid, r, c);
            let _ = mid.at(r, c);
        }
    }

    pub proof fn lemma_floods_trans(self, mid: Grid, next: Grid)
        requires
            self.floods(mid),
            mid.floods(next),
        ensures
            self.floods(next),
    {
        assert forall|r: int, c: int| self.inside(r, c) implies {
            ||| #[trigger] next.at(r, c) == self.at(r, c)
            ||| self.at(r, c) == Field::Closed && next.at(r, c).shows(self.mines_around(r, c))
        } by {
            self.lemma_mines_stay(mid, r, c);
            let _ = mid.at(r, c);
        }
    }

    /// Once no neighbour of a cell is `Closed`, revealing more cells keeps it so.
    pub proof fn lemma_settled_stays(self, next: Grid, r: int, c: int)
        requires
            self.reveals(next),
            self.settled(r, c),
        ensures
            next.settled(r, c),
    {
        reveal(Grid::settled);
        assert forall|r2: int, c2: int|
            next.inside(r2, c2) && adjacent(r, c, r2, c2) implies #[trigger] next.at(r2, c2)
            != Field::Closed by {
            let _ = self.at(r2, c2);
        }
    }
}

} // verus!
