use vstd::prelude::*;
use crate::field::{Field, MineState, Position};
use crate::grid::{
    adjacent, closed_count, ends_with, lemma_count_strict, lemma_offset, listed, precedes, span,
    Grid,
};
use crate::size::Size;
use crate::error::BoardError;
use crate::text::{push_char, push_str};

verus! {

/// A Minesweeper board: its dimensions and one cell state per position.
pub struct Board {
    size: Size,
    fields: Vec<Field>,
}

impl View for Board {
    type V = Grid;

    closed spec fn view(&self) -> Grid {
        Grid { rows: self.size.rows(), cols: self.size.cols(), cells: self.fields@ }
    }
}

impl Board {
    /// The board's dimensions, as `get_size` returns them.
    pub closed spec fn size(&self) -> Size {
        self.size
    }

    /// The dimensions are valid and the model has one cell per position.
    pub open spec fn wf(&self) -> bool {
        &&& self@.wf()
        &&& self.size().valid()
        &&& self@.rows == self.size().rows()
        &&& self@.cols == self.size().cols()
    }

    /// Whether `position` names a cell of this board.
    pub open spec fn holds(&self, position: Position) -> bool {
        self@.inside(position.0 as int, position.1 as int)
    }

    /// A board of `rows` rows and `cols` columns with every cell `Closed`.
    pub fn new(cols: usize, rows: usize) -> (board: Board)
        requires
            cols > 0,
            rows > 0,
            rows * cols <= usize::MAX,
        ensures
            board.wf(),
            board@.rows == rows,
            board@.cols == cols,
            board@.blank(),
    {
        let size = Size::new(cols, rows);
        let total: usize = size.total();
        let mut fields: Vec<Field> = Vec::new();
        let mut i: usize = 0;
        while i < total
            invariant
                i <= total,
                fields@.len() == i,
                forall|k: int| 0 <= k < i ==> fields@[k] == Field::Closed,
            decreases total - i,
        {
            fields.push(Field::Closed);
            i += 1;
        }
        Board { size, fields }
    }

    /// The state of the cell at `position`.
    pub fn get(&self, position: Position) -> (field: Field)
        requires
            self.wf(),
            self.holds(position),
        ensures
            field == self@.at(position.0 as int, position.1 as int),
    {
        proof {
            lemma_offset(self@.rows, self@.cols, position.0 as int, position.1 as int);
        }
        self.fields[position.0 * self.size.get_cols() + position.1]
    }

    /// Overwrites the cell at `position` with `value`; no other cell changes.
    pub fn set(&mut self, position: Position, value: Field)
        requires
            old(self).wf(),
            old(self).holds(position),
        ensures
            final(self).wf(),
            final(self).size() == old(self).size(),
            final(self)@ == old(self)@.put(position.0 as int, position.1 as int, value),
            final(self)@.at(position.0 as int, position.1 as int) == value,
            forall|r: int, c: int|
                old(self)@.inside(r, c) && !(r == position.0 && c == position.1)
                    ==> #[trigger] final(self)@.at(r, c) == old(self)@.at(r, c),
    {
        proof {
            lemma_offset(self@.rows, self@.cols, position.0 as int, position.1 as int);
            self@.lemma_put(position.0 as int, position.1 as int, value);
        }
        let offset: usize = position.0 * self.size.get_cols() + position.1;
        self.fields.set(offset, value);
    }

    /// Returns every cell to `Closed`, mines included.
    pub fn reset(&mut self)
        requires
            old(self).wf(),
        ensures
            final(self).wf(),
            final(self).size() == old(self).size(),
            final(self)@.blank(),
    {
        let n: usize = self.fields.len();
        let mut i: usize = 0;
        while i < n
            invariant
                i <= n,
                n == self.fields@.len(),
                self.size == old(self).size,
                forall|k: int| 0 <= k < i ==> self.fields@[k] == Field::Closed,
            decreases n - i,
        {
            self.fields.set(i, Field::Closed);
            i += 1;
        }
    }

    /// Puts a hidden mine on each of `positions`, whatever was there; no other
    /// cell changes.
    pub fn plant_mines(&mut self, positions: Vec<Position>)
        requires
            old(self).wf(),
            forall|k: int| 0 <= k < positions@.len() ==> old(self).holds(#[trigger] positions@[k]),
        ensures
            final(self).wf(),
            final(self).size() == old(self).size(),
            forall|r: int, c: int|
                old(self)@.inside(r, c) ==> #[trigger] final(self)@.at(r, c) == if listed(
                    positions@,
                    r,
                    c,
                ) {
                    Field::Mine(MineState::Hidden)
                } else {
                    old(self)@.at(r, c)
                },
    {
        let mut i: usize = 0;
        while i < positions.len()
            invariant
                i <= positions@.len(),
                self.wf(),
                self.size() == old(self).size(),
                self@.rows == old(self)@.rows,
                self@.cols == old(self)@.cols,
                forall|k: int| 0 <= k < positions@.len() ==> self.holds(#[trigger] positions@[k]),
                forall|r: int, c: int|
                    old(self)@.inside(r, c) ==> #[trigger] self@.at(r, c) == if listed(
                        positions@.take(i as int),
                        r,
                        c,
                    ) {
                        Field::Mine(MineState::Hidden)
                    } else {
                        old(self)@.at(r, c)
                    },
            decreases positions@.len() - i,
        {
            let ghost before = self@;
            let ghost seen = positions@.take(i as int);
            let ghost more = positions@.take(i + 1);
            let position = positions[i];
            self.set(position, Field::Mine(MineState::Hidden));
            proof {
                assert(more[i as int] == position);
                assert forall|r: int, c: int| listed(seen, r, c) implies listed(more, r, c) by {
                    let k = choose|k: int|
                        0 <= k < seen.len() && (#[trigger] seen[k]).0 == r && seen[k].1 == c;
                    assert(more[k] == seen[k]);
                }
                assert forall|r: int, c: int|
                    listed(more, r, c) && !(r == position.0 && c == position.1) implies listed(
                    seen,
                    r,
                    c,
                ) by {
                    let k = choose|k: int|
                        0 <= k < more.len() && (#[trigger] more[k]).0 == r && more[k].1 == c;
                    assert(seen[k] == more[k]);
                }
                assert forall|r: int, c: int| before.inside(r, c) implies #[trigger] self@.at(r, c)
                    == if listed(more, r, c) {
                    Field::Mine(MineState::Hidden)
                } else {
                    old(self)@.at(r, c)
                } by {
                    let _ = before.at(r, c);
                }
            }
            i += 1;
        }
        proof {
            assert(positions@.take(positions@.len() as int) == positions@);
        }
    }

    pub fn get_size(&self) -> (size: Size)
        ensures
            size == self.size(),
    {
        self.size
    }
}

/// `v + d - 1`, where that is at least 0 and less than `limit`.
fn shift(v: usize, d: u8, limit: usize) -> (moved: Option<usize>)
    requires
        d <= 2,
        v < limit,
    ensures
        moved == if 0 <= v + d - 1 < limit {
            Some((v + d - 1) as usize)
        } else {
            None
        },
{
    if d == 0 {
        if v > 0 {
            Some(v - 1)
        } else {
            None
        }
    } else if d == 1 {
        Some(v)
    } else if v + 1 < limit {
        Some(v + 1)
    } else {
        None
    }
}

impl Board {
    /// The neighbours of `position`: the cells of the board that share an edge
    /// or a corner with it, read row by row.
    pub fn iter_neighbors(&self, position: Position) -> (neighbors: Vec<Position>)
        requires
            self.wf(),
            self.holds(position),
        ensures
            forall|k: int|
                0 <= k < neighbors@.len() ==> self.holds(#[trigger] neighbors@[k]) && adjacent(
                    position.0 as int,
                    position.1 as int,
                    neighbors@[k].0 as int,
                    neighbors@[k].1 as int,
                ),
            forall|r: int, c: int|
                self@.inside(r, c) && adjacent(position.0 as int, position.1 as int, r, c)
                    ==> listed(neighbors@, r, c),
            forall|a: int, b: int|
                0 <= a < b < neighbors@.len() ==> precedes(neighbors@[a], neighbors@[b]),
            neighbors@.len() == span(self@.rows, position.0 as int) * span(
                self@.cols,
                position.1 as int,
            ) - 1,
    {
        let (row, col) = position;
        let rows: usize = self.size.get_rows();
        let cols: usize = self.size.get_cols();
        let first_row: usize = if row > 0 { row - 1 } else { 0 };
        let last_row: usize = if row + 1 < rows { row + 1 } else { rows - 1 };
        let first_col: usize = if col > 0 { col - 1 } else { 0 };
        let last_col: usize = if col + 1 < cols { col + 1 } else { cols - 1 };
        let ghost width = last_col - first_col + 1;
        let mut out: Vec<Position> = Vec::new();
        let mut i: usize = first_row;
        while i <= last_row
            invariant
                first_row <= i <= last_row + 1,
                first_row <= row <= last_row,
                first_col <= col <= last_col,
                width == last_col - first_col + 1,
                out@.len() == (i - first_row) * width - if i > row {
                    1int
                } else {
                    0int
                },
                last_row < rows,
                first_col <= last_col < cols,
                rows == self@.rows,
                cols == self@.cols,
                row - 1 <= first_row,
                last_row <= row + 1,
                col - 1 <= first_col,
                last_col <= col + 1,
                forall|k: int|
                    0 <= k < out@.len() ==> self.holds(#[trigger] out@[k]) && adjacent(
                        row as int,
                        col as int,
                        out@[k].0 as int,
                        out@[k].1 as int,
                    ) && out@[k].0 < i,
                forall|r: int, c: int|
                    first_row <= r < i && first_col <= c <= last_col && !(r == row && c == col)
                        ==> listed(out@, r, c),
                forall|a: int, b: int| 0 <= a < b < out@.len() ==> precedes(out@[a], out@[b]),
            decreases last_row + 1 - i,
        {
            let mut j: usize = first_col;
            while j <= last_col
                invariant
                    first_row <= i <= last_row,
                    first_row <= row <= last_row,
                    first_col <= col <= last_col,
                    width == last_col - first_col + 1,
                    out@.len() == (i - first_row) * width + (j - first_col) - if i > row || (i
                        == row && j > col) {
                        1int
                    } else {
                        0int
                    },
                    last_row < rows,
                    first_col <= j <= last_col + 1,
                    last_col < cols,
                    rows == self@.rows,
                    cols == self@.cols,
                    row - 1 <= first_row,
                    last_row <= row + 1,
                    col - 1 <= first_col,
                    last_col <= col + 1,
                    forall|k: int|
                        0 <= k < out@.len() ==> self.holds(#[trigger] out@[k]) && adjacent(
                            row as int,
                            col as int,
                            out@[k].0 as int,
                            out@[k].1 as int,
                        ) && (out@[k].0 < i || (out@[k].0 == i && out@[k].1 < j)),
                    forall|r: int, c: int|
                        (first_row <= r < i && first_col <= c <= last_col || r == i && first_col
                            <= c < j) && !(r == row && c == col) ==> listed(out@, r, c),
                    forall|a: int, b: int| 0 <= a < b < out@.len() ==> precedes(out@[a], out@[b]),
                decreases last_col + 1 - j,
            {
                if i != row || j != col {
                    let ghost seen = out@;
                    out.push((i, j));
                    proof {
                        assert(out@[seen.len() as int] == (i, j));
                        assert forall|r: int, c: int|
                            (first_row <= r < i && first_col <= c <= last_col || r == i
                                && first_col <= c < j) && !(r == row && c == col) implies listed(
                            out@,
                            r,
                            c,
                        ) by {
                            assert(listed(seen, r, c));
                            let k = choose|k: int|
                                0 <= k < seen.len() && (#[trigger] seen[k]).0 == r && seen[k].1
                                    == c;
                            assert(out@[k] == seen[k]);
                        }
                    }
                }
                j += 1;
            }
            proof {
                assert((i + 1 - first_row) * width == (i - first_row) * width + width)
                    by (nonlinear_arith);
            }
            i += 1;
        }
        out
    }

    /// The state of the cell one step from `position`: `dr` and `dc` are 0, 1 or
    /// 2 for a step of -1, 0 or 1. `None` where that cell is off the board.
    fn peek(&self, position: Position, dr: u8, dc: u8) -> (field: Option<Field>)
        requires
            self.wf(),
            self.holds(position),
            dr <= 2,
            dc <= 2,
        ensures
            field == if self@.inside(position.0 + dr - 1, position.1 + dc - 1) {
                Some(self@.at(position.0 + dr - 1, position.1 + dc - 1))
            } else {
                None
            },
    {
        match shift(position.0, dr, self.size.get_rows()) {
            Some(r) => match shift(position.1, dc, self.size.get_cols()) {
                Some(c) => Some(self.get((r, c))),
                None => None,
            },
            None => None,
        }
    }

    /// 1 where the cell one step from `position` holds a mine (`marks` false)
    /// or a player's mark (`marks` true), else 0.
    fn tally(&self, position: Position, dr: u8, dc: u8, marks: bool) -> (n: u8)
        requires
            self.wf(),
            self.holds(position),
            dr <= 2,
            dc <= 2,
        ensures
            n == self@.tally_at(position.0 + dr - 1, position.1 + dc - 1, marks),
    {
        match self.peek(position, dr, dc) {
            Some(Field::Mine(state)) => if !marks {
                1
            } else {
                match state {
                    MineState::Flagged => 1,
                    _ => 0,
                }
            },
            Some(Field::Flagged) => if marks {
                1
            } else {
                0
            },
            _ => 0,
        }
    }

    fn count_around(&self, position: Position, marks: bool) -> (n: u8)
        requires
            self.wf(),
            self.holds(position),
        ensures
            n == self@.tally_around(position.0 as int, position.1 as int, marks),
            n <= 8,
    {
        proof {
            reveal(Grid::tally_around);
        }
        let above: u8 = self.tally(position, 0, 0, marks) + self.tally(position, 0, 1, marks)
            + self.tally(position, 0, 2, marks);
        let beside: u8 = self.tally(position, 1, 0, marks) + self.tally(position, 1, 2, marks);
        let below: u8 = self.tally(position, 2, 0, marks) + self.tally(position, 2, 1, marks)
            + self.tally(position, 2, 2, marks);
        above + beside + below
    }

    /// The number of mines among the neighbours of `position`, whatever state
    /// they are in.
    pub fn count_neighboring_mines(&self, position: Position) -> (n: u8)
        requires
            self.wf(),
            self.holds(position),
        ensures
            n == self@.mines_around(position.0 as int, position.1 as int),
            n <= 8,
    {
        self.count_around(position, false)
    }

    /// The number of neighbours of `position` that the player has marked, mined
    /// or not.
    pub fn count_neighboring_flags(&self, position: Position) -> (n: u8)
        requires
            self.wf(),
            self.holds(position),
        ensures
            n == self@.flags_around(position.0 as int, position.1 as int),
            n <= 8,
    {
        self.count_around(position, true)
    }

    /// Sets or removes the player's mark on the cell at `position`. A revealed or
    /// exploded cell stays as it is.
    pub fn toggle_flag(&mut self, position: Position)
        requires
            old(self).wf(),
            old(self).holds(position),
        ensures
            final(self).wf(),
            final(self).size() == old(self).size(),
            final(self)@ == old(self)@.put(
                position.0 as int,
                position.1 as int,
                old(self)@.at(position.0 as int, position.1 as int).toggled(),
            ),
    {
        match self.get(position) {
            Field::Closed => self.set(position, Field::Flagged),
            Field::Opened(_) => {
                proof {
                    self.lemma_rewrite(position);
                }
            },
            Field::Mine(state) => match state {
                MineState::Hidden => self.set(position, Field::Mine(MineState::Flagged)),
                MineState::Detonated => {
                    proof {
                        self.lemma_rewrite(position);
                    }
                },
                MineState::Flagged => self.set(position, Field::Mine(MineState::Hidden)),
            },
            Field::Flagged => self.set(position, Field::Closed),
        }
    }

    /// Writing a cell's own state over it changes nothing.
    proof fn lemma_rewrite(&self, position: Position)
        requires
            self.wf(),
            self.holds(position),
        ensures
            self@ == self@.put(
                position.0 as int,
                position.1 as int,
                self@.at(position.0 as int, position.1 as int),
            ),
    {
        lemma_offset(self@.rows, self@.cols, position.0 as int, position.1 as int);
        let offset = position.0 * self@.cols + position.1;
        assert(self@.cells.update(offset, self@.cells[offset]) =~= self@.cells);
    }
}

impl Board {
    /// The neighbours of `position` that a chord opens: those that are neither
    /// revealed nor marked.
    fn chord_targets(&self, position: Position) -> (targets: Vec<Position>)
        requires
            self.wf(),
            self.holds(position),
        ensures
            self@.is_chord_list(position.0 as int, position.1 as int, targets@),
    {
        let neighbors = self.iter_neighbors(position);
        let mut targets: Vec<Position> = Vec::new();
        let mut i: usize = 0;
        while i < neighbors.len()
            invariant
                i <= neighbors@.len(),
                self.wf(),
                forall|k: int|
                    0 <= k < neighbors@.len() ==> self.holds(#[trigger] neighbors@[k]) && adjacent(
                        position.0 as int,
                        position.1 as int,
                        neighbors@[k].0 as int,
                        neighbors@[k].1 as int,
                    ),
                forall|a: int, b: int|
                    0 <= a < b < neighbors@.len() ==> precedes(neighbors@[a], neighbors@[b]),
                forall|k: int|
                    0 <= k < targets@.len() ==> self.holds(#[trigger] targets@[k]) && adjacent(
                        position.0 as int,
                        position.1 as int,
                        targets@[k].0 as int,
                        targets@[k].1 as int,
                    ) && self@.at(targets@[k].0 as int, targets@[k].1 as int).is_chord_target(),
                forall|a: int, b: int|
                    0 <= a < b < targets@.len() ==> precedes(targets@[a], targets@[b]),
                forall|a: int, m: int|
                    0 <= a < targets@.len() && i <= m < neighbors@.len() ==> precedes(
                        targets@[a],
                        neighbors@[m],
                    ),
                forall|m: int|
                    0 <= m < i && self@.at(
                        (#[trigger] neighbors@[m]).0 as int,
                        neighbors@[m].1 as int,
                    ).is_chord_target() ==> listed(
                        targets@,
                        neighbors@[m].0 as int,
                        neighbors@[m].1 as int,
                    ),
            decreases neighbors@.len() - i,
        {
            let neighbor = neighbors[i];
            let keep = match self.get(neighbor) {
                Field::Closed => true,
                Field::Opened(_) => false,
                Field::Mine(state) => match state {
                    MineState::Hidden => true,
                    MineState::Detonated => true,
                    MineState::Flagged => false,
                },
                Field::Flagged => false,
            };
            if keep {
                let ghost seen = targets@;
                targets.push(neighbor);
                proof {
                    assert(targets@[seen.len() as int] == neighbor);
                    assert forall|m: int|
                        0 <= m < i && self@.at(
                            (#[trigger] neighbors@[m]).0 as int,
                            neighbors@[m].1 as int,
                        ).is_chord_target() implies listed(
                        targets@,
                        neighbors@[m].0 as int,
                        neighbors@[m].1 as int,
                    ) by {
                        let (r, c) = (neighbors@[m].0 as int, neighbors@[m].1 as int);
                        assert(listed(seen, r, c));
                        let k = choose|k: int|
                            0 <= k < seen.len() && (#[trigger] seen[k]).0 == r && seen[k].1 == c;
                        assert(targets@[k] == seen[k]);
                    }
                }
            }
            i += 1;
        }
        proof {
            assert forall|r: int, c: int|
                self@.inside(r, c) && adjacent(position.0 as int, position.1 as int, r, c) && (
                #[trigger] self@.at(r, c)).is_chord_target() implies listed(targets@, r, c) by {
                assert(listed(neighbors@, r, c));
                let m = choose|m: int|
                    0 <= m < neighbors@.len() && (#[trigger] neighbors@[m]).0 == r
                        && neighbors@[m].1 == c;
            }
        }
        targets
    }

    /// Reveals the `Closed` cell at `position` with its count of mines; where
    /// that is zero, goes on with each neighbour that is still `Closed`, and so
    /// on from every cell revealed with the count zero. The cells whose
    /// neighbours are still to be looked at wait in a list, so the depth of the
    /// fill costs no stack.
    fn flood(&mut self, position: Position)
        requires
            old(self).wf(),
            old(self).holds(position),
            old(self)@.at(position.0 as int, position.1 as int) == Field::Closed,
        ensures
            final(self).wf(),
            final(self).size() == old(self).size(),
            old(self)@.floods(final(self)@),
            final(self)@.at(position.0 as int, position.1 as int).shows(
                old(self)@.mines_around(position.0 as int, position.1 as int),
            ),
            old(self)@.filled(final(self)@),
            old(self)@.confined(position.0 as int, position.1 as int, final(self)@),
    {
        let ghost pre = self@;
        let ghost r = position.0 as int;
        let ghost c = position.1 as int;
        let mine_count = self.count_neighboring_mines(position);
        self.set(position, Field::Opened(mine_count));
        proof {
            pre.lemma_show_floods(r, c, Field::Opened(mine_count));
            pre.lemma_reaches_start(r, c);
        }
        let mut pending: Vec<Position> = Vec::new();
        if mine_count == 0 {
            pending.push(position);
            proof {
                assert(pending@[0] == position);
            }
        }
        while pending.len() > 0
            invariant
                self.wf(),
                self.size() == old(self).size(),
                pre == old(self)@,
                pre.wf(),
                pre.inside(r, c),
                pre.floods(self@),
                pre.confined(r, c, self@),
                self@.at(r, c).shows(pre.mines_around(r, c)),
                forall|j: int|
                    0 <= j < pending@.len() ==> pre.inside(
                        (#[trigger] pending@[j]).0 as int,
                        pending@[j].1 as int,
                    ) && self@.at(pending@[j].0 as int, pending@[j].1 as int) == Field::Opened(0)
                        && pre.at(pending@[j].0 as int, pending@[j].1 as int) == Field::Closed,
                forall|r2: int, c2: int|
                    pre.inside(r2, c2) && pre.at(r2, c2) == Field::Closed && #[trigger] self@.at(
                        r2,
                        c2,
                    ) == Field::Opened(0) ==> self@.settled(r2, c2) || listed(pending@, r2, c2),
            decreases closed_count(self@.cells), pending@.len(),
        {
            let ghost outer = self@;
            let ghost waiting = pending@;
            let cell = pending.pop().unwrap();
            let ghost pr = cell.0 as int;
            let ghost pc = cell.1 as int;
            let ghost rest = pending@;
            let neighbors = self.iter_neighbors(cell);
            proof {
                assert(cell == waiting[waiting.len() - 1]);
                assert forall|r2: int, c2: int|
                    pre.inside(r2, c2) && pre.at(r2, c2) == Field::Closed && #[trigger] self@.at(
                        r2,
                        c2,
                    ) == Field::Opened(0) && !(r2 == pr && c2 == pc) implies self@.settled(r2, c2)
                    || listed(pending@, r2, c2) by {
                    if !self@.settled(r2, c2) {
                        let j = choose|j: int|
                            0 <= j < waiting.len() && (#[trigger] waiting[j]).0 == r2
                                && waiting[j].1 == c2;
                        assert(rest[j] == waiting[j]);
                    }
                }
            }
            let mut k: usize = 0;
            while k < neighbors.len()
                invariant
                    k <= neighbors@.len(),
                    self.wf(),
                    self.size() == old(self).size(),
                    pre == old(self)@,
                    pre.wf(),
                    pre.inside(r, c),
                    pre.floods(self@),
                    pre.confined(r, c, self@),
                    self@.at(r, c).shows(pre.mines_around(r, c)),
                    pre.inside(pr, pc),
                    pr == cell.0,
                    pc == cell.1,
                    pre.at(pr, pc) == Field::Closed,
                    self@.at(pr, pc) == Field::Opened(0),
                    rest.len() == waiting.len() - 1,
                    closed_count(self@.cells) <= closed_count(outer.cells),
                    closed_count(self@.cells) == closed_count(outer.cells) ==> pending@.len()
                        == rest.len(),
                    forall|j: int|
                        0 <= j < neighbors@.len() ==> pre.inside(
                            (#[trigger] neighbors@[j]).0 as int,
                            neighbors@[j].1 as int,
                        ) && adjacent(pr, pc, neighbors@[j].0 as int, neighbors@[j].1 as int),
                    forall|r2: int, c2: int|
                        pre.inside(r2, c2) && adjacent(pr, pc, r2, c2) ==> listed(
                            neighbors@,
                            r2,
                            c2,
                        ),
                    forall|j: int|
                        0 <= j < k ==> self@.at(
                            (#[trigger] neighbors@[j]).0 as int,
                            neighbors@[j].1 as int,
                        ) != Field::Closed,
                    forall|j: int|
                        0 <= j < pending@.len() ==> pre.inside(
                            (#[trigger] pending@[j]).0 as int,
                            pending@[j].1 as int,
                        ) && self@.at(pending@[j].0 as int, pending@[j].1 as int)
                            == Field::Opened(0) && pre.at(
                            pending@[j].0 as int,
                            pending@[j].1 as int,
                        ) == Field::Closed,
                    forall|r2: int, c2: int|
                        pre.inside(r2, c2) && pre.at(r2, c2) == Field::Closed
                            && #[trigger] self@.at(r2, c2) == Field::Opened(0) && !(r2 == pr && c2
                            == pc) ==> self@.settled(r2, c2) || listed(pending@, r2, c2),
                decreases neighbors@.len() - k,
            {
                let neighbor = neighbors[k];
                let ghost before = self@;
                let ghost queued = pending@;
                let ghost nr = neighbor.0 as int;
                let ghost nc = neighbor.1 as int;
                if self.get(neighbor) == Field::Closed {
                    let around = self.count_neighboring_mines(neighbor);
                    self.set(neighbor, Field::Opened(around));
                    if around == 0 {
                        pending.push(neighbor);
                    }
                    proof {
                        pre.lemma_floods_reveals(before);
                        pre.lemma_mines_stay(before, nr, nc);
                        pre.lemma_mines_stay(before, pr, pc);
                        before.lemma_show_floods(nr, nc, Field::Opened(around));
                        before.lemma_floods_reveals(self@);
                        pre.lemma_floods_trans(before, self@);
                        assert(pre.reaches(r, c, pr, pc));
                        pre.lemma_reaches_step(r, c, pr, pc, nr, nc);
                        assert forall|j: int| 0 <= j < k implies self@.at(
                            (#[trigger] neighbors@[j]).0 as int,
                            neighbors@[j].1 as int,
                        ) != Field::Closed by {
                            let _ = before.at(neighbors@[j].0 as int, neighbors@[j].1 as int);
                        }
                        assert forall|j: int| 0 <= j < pending@.len() implies pre.inside(
                            (#[trigger] pending@[j]).0 as int,
                            pending@[j].1 as int,
                        ) && self@.at(pending@[j].0 as int, pending@[j].1 as int)
                            == Field::Opened(0) && pre.at(
                            pending@[j].0 as int,
                            pending@[j].1 as int,
                        ) == Field::Closed by {
                            if j < queued.len() {
                                assert(pending@[j] == queued[j]);
                                let _ = before.at(queued[j].0 as int, queued[j].1 as int);
                            }
                        }
                        assert forall|r2: int, c2: int|
                            pre.inside(r2, c2) && pre.at(r2, c2) == Field::Closed
                                && #[trigger] self@.at(r2, c2) == Field::Opened(0) && !(r2 == pr
                                && c2 == pc) implies self@.settled(r2, c2) || listed(
                            pending@,
                            r2,
                            c2,
                        ) by {
                            if r2 == nr && c2 == nc {
                                assert(pending@[queued.len() as int] == neighbor);
                            } else {
                                assert(before.at(r2, c2) == Field::Opened(0));
                                if before.settled(r2, c2) {
                                    before.lemma_settled_stays(self@, r2, c2);
                                } else {
                                    let j = choose|j: int|
                                        0 <= j < queued.len() && (#[trigger] queued[j]).0 == r2
                                            && queued[j].1 == c2;
                                    assert(pending@[j] == queued[j]);
                                }
                            }
                        }
                    }
                }
                k += 1;
            }
            proof {
                assert(self@.settled(pr, pc)) by {
                    reveal(Grid::settled);
                    assert forall|r2: int, c2: int|
                        self@.inside(r2, c2) && adjacent(pr, pc, r2, c2) implies #[trigger] self@.at(
                        r2,
                        c2,
                    ) != Field::Closed by {
                        assert(listed(neighbors@, r2, c2));
                        let j = choose|j: int|
                            0 <= j < neighbors@.len() && (#[trigger] neighbors@[j]).0 == r2
                                && neighbors@[j].1 == c2;
                    }
                }
            }
        }
    }

    /// Opens the cell at `position`.
    ///
    /// A `Closed` cell is revealed with the number of mines around it; where
    /// that is zero, its `Closed` neighbours are opened in turn. A hidden mine
    /// detonates. A revealed cell whose count equals the number of marked
    /// neighbours opens each neighbour that is neither revealed nor marked. A
    /// marked or exploded cell stays as it is.
    pub fn open(&mut self, position: Position)
        requires
            old(self).wf(),
            old(self).holds(position),
        ensures
            final(self).wf(),
            final(self).size() == old(self).size(),
            old(self)@.reveals(final(self)@),
            old(self)@.opens(position.0 as int, position.1 as int, final(self)@),
        decreases closed_count(old(self)@.cells),
    {
        let ghost pre = self@;
        let ghost r = position.0 as int;
        let ghost c = position.1 as int;
        match self.get(position) {
            Field::Closed => {
                self.flood(position);
                proof {
                    pre.lemma_floods_reveals(self@);
                    pre.lemma_fill_exact(r, c, self@);
                }
            },
            Field::Opened(mine_count) => {
                let flag_count = self.count_neighboring_flags(position);
                if mine_count == flag_count {
                    let targets = self.chord_targets(position);
                    let ghost mut states: Seq<Grid> = seq![pre];
                    let mut k: usize = 0;
                    while k < targets.len()
                        invariant
                            k <= targets@.len(),
                            states.len() == k + 1,
                            states[0] == pre,
                            states[k as int] == self@,
                            forall|i: int|
                                0 <= i < k ==> pre.chord_step(
                                    states[i],
                                    (#[trigger] targets@[i]).0 as int,
                                    targets@[i].1 as int,
                                    states[i + 1],
                                ),
                            self.wf(),
                            self.size() == old(self).size(),
                            pre == old(self)@,
                            pre.wf(),
                            pre.reveals(self@),
                            r == position.0,
                            c == position.1,
                            pre.is_chord_list(r, c, targets@),
                            pre.at(r, c) == Field::Opened(mine_count),
                            pre.flags_around(r, c) == mine_count,
                            forall|j: int|
                                0 <= j < k ==> !self@.at(
                                    (#[trigger] targets@[j]).0 as int,
                                    targets@[j].1 as int,
                                ).is_unrevealed(),
                        decreases targets@.len() - k,
                    {
                        let target = targets[k];
                        let ghost before = self@;
                        let ghost (tr, tc) = (target.0 as int, target.1 as int);
                        match self.get(target) {
                            Field::Closed => {
                                self.flood(target);
                                proof {
                                    before.lemma_floods_reveals(self@);
                                    before.lemma_fill_exact(tr, tc, self@);
                                }
                            },
                            Field::Opened(_) => {
                                proof {
                                    lemma_offset(pre.rows, pre.cols, tr, tc);
                                    lemma_count_strict(
                                        pre.cells,
                                        before.cells,
                                        tr * pre.cols + tc,
                                    );
                                }
                                self.open(target);
                            },
                            Field::Mine(MineState::Hidden) => {
                                self.set(target, Field::Mine(MineState::Detonated));
                                proof {
                                    before.lemma_detonate_reveals(tr, tc);
                                }
                            },
                            _ => {},
                        }
                        proof {
                            assert(before.reveals(self@));
                            assert(pre.chord_step(before, tr, tc, self@));
                            let ghost earlier = states;
                            states = states.push(self@);
                            assert forall|i: int| 0 <= i < k + 1 implies pre.chord_step(
                                states[i],
                                (#[trigger] targets@[i]).0 as int,
                                targets@[i].1 as int,
                                states[i + 1],
                            ) by {
                                if i < k {
                                    assert(states[i] == earlier[i]);
                                    assert(states[i + 1] == earlier[i + 1]);
                                }
                            }
                            pre.lemma_reveals_trans(before, self@);
                            assert forall|j: int| 0 <= j <= k implies !self@.at(
                                (#[trigger] targets@[j]).0 as int,
                                targets@[j].1 as int,
                            ).is_unrevealed() by {
                                let _ = before.at(targets@[j].0 as int, targets@[j].1 as int);
                            }
                        }
                        k += 1;
                    }
                    proof {
                        assert(pre.chord_run(targets@, states));
                        assert(states[targets@.len() as int] == self@);
                        assert forall|r2: int, c2: int|
                            self@.inside(r2, c2) && adjacent(r, c, r2, c2) implies !(
                        #[trigger] self@.at(r2, c2)).is_unrevealed() by {
                            if pre.at(r2, c2).is_chord_target() {
                                assert(listed(targets@, r2, c2));
                                let j = choose|j: int|
                                    0 <= j < targets@.len() && (#[trigger] targets@[j]).0 == r2
                                        && targets@[j].1 == c2;
                            }
                        }
                        let next = self@;
                        assert(next.cleared(r, c));
                        assert(pre.is_chord_list(r, c, targets@) && pre.chord_run(targets@, states)
                            && ends_with(states, next));
                        assert(pre.opens(r, c, next));
                    }
                }
            },
            Field::Mine(state) => match state {
                MineState::Hidden => {
                    self.set(position, Field::Mine(MineState::Detonated));
                    proof {
                        pre.lemma_detonate_reveals(r, c);
                    }
                },
                MineState::Detonated => {},
                MineState::Flagged => {},
            },
            Field::Flagged => {},
        }
    }

    /// Reveals all the mines. It does nothing yet.
    pub fn reveal_mines(&self) {
    }
}

impl Board {
    /// The text that shows the board: row after row, each cell by its glyph,
    /// and a line feed after each row.
    pub fn to_string(&self) -> (text: String)
        requires
            self.wf(),
        ensures
            text@ == self@.rendered(),
    {
        let rows: usize = self.size.get_rows();
        let cols: usize = self.size.get_cols();
        let mut text = String::new();
        let mut r: usize = 0;
        while r < rows
            invariant
                self.wf(),
                r <= rows,
                rows == self@.rows,
                cols == self@.cols,
                text@ == self@.rows_text(r as int),
            decreases rows - r,
        {
            let mut c: usize = 0;
            let ghost above = text@;
            while c < cols
                invariant
                    self.wf(),
                    r < rows,
                    c <= cols,
                    rows == self@.rows,
                    cols == self@.cols,
                    text@ == above + self@.row_text(r as int, c as int),
                decreases cols - c,
            {
                let glyph = self.get((r, c)).to_string();
                push_str(&mut text, glyph.as_str());
                proof {
                    assert(text@ =~= above + self@.row_text(r as int, c + 1));
                }
                c += 1;
            }
            push_char(&mut text, '\n');
            proof {
                assert(text@ =~= self@.rows_text(r + 1));
            }
            r += 1;
        }
        text
    }

    /// A board of `rows` rows and `cols` columns with every cell `Closed`, or
    /// `InvalidSize` where a dimension is zero or the cells are too many to
    /// count.
    pub fn try_new(cols: usize, rows: usize) -> (made: Result<Board, BoardError>)
        ensures
            made is Ok <==> cols > 0 && rows > 0 && rows * cols <= usize::MAX,
            made matches Ok(board) ==> board.wf() && board@.rows == rows && board@.cols == cols
                && board@.blank(),
            made matches Err(e) ==> e == BoardError::InvalidSize,
    {
        if cols == 0 || rows == 0 {
            return Err(BoardError::InvalidSize);
        }
        match Size::new(cols, rows).checked_total() {
            Some(_) => Ok(Board::new(cols, rows)),
            None => Err(BoardError::InvalidSize),
        }
    }

    /// Whether `position` names a cell of the board.
    pub fn contains(&self, position: Position) -> (inside: bool)
        ensures
            inside == (position.0 < self.size().rows() && position.1 < self.size().cols()),
    {
        position.0 < self.size.get_rows() && position.1 < self.size.get_cols()
    }

    /// Plants the mines as `plant_mines` does, or returns `OutOfBounds` and
    /// leaves the board alone where one of `positions` names no cell of the
    /// board.
    pub fn try_plant_mines(&mut self, positions: Vec<Position>) -> (done: Result<(), BoardError>)
        requires
            old(self).wf(),
        ensures
            final(self).wf(),
            final(self).size() == old(self).size(),
            done is Ok <==> forall|k: int|
                0 <= k < positions@.len() ==> old(self).holds(#[trigger] positions@[k]),
            done is Ok ==> forall|r: int, c: int|
                old(self)@.inside(r, c) ==> #[trigger] final(self)@.at(r, c) == if listed(
                    positions@,
                    r,
                    c,
                ) {
                    Field::Mine(MineState::Hidden)
                } else {
                    old(self)@.at(r, c)
                },
            done matches Err(e) ==> e == BoardError::OutOfBounds && final(self)@ == old(self)@,
    {
        let mut i: usize = 0;
        while i < positions.len()
            invariant
                i <= positions@.len(),
                self.wf(),
                forall|k: int| 0 <= k < i ==> self.holds(#[trigger] positions@[k]),
            decreases positions@.len() - i,
        {
            if !self.contains(positions[i]) {
                return Err(BoardError::OutOfBounds);
            }
            i += 1;
        }
        self.plant_mines(positions);
        Ok(())
    }

    /// Opens the cell at `position` as `open` does, or returns `OutOfBounds`
    /// and leaves the board alone where the board has no such cell.
    pub fn try_open(&mut self, position: Position) -> (done: Result<(), BoardError>)
        requires
            old(self).wf(),
        ensures
            final(self).wf(),
            final(self).size() == old(self).size(),
            done is Ok <==> old(self).holds(position),
            done is Ok ==> old(self)@.reveals(final(self)@) && old(self)@.opens(
                position.0 as int,
                position.1 as int,
                final(self)@,
            ),
            done matches Err(e) ==> e == BoardError::OutOfBounds && final(self)@ == old(self)@,
    {
        if self.contains(position) {
            self.open(position);
            Ok(())
        } else {
            Err(BoardError::OutOfBounds)
        }
    }

    /// Toggles the mark at `position` as `toggle_flag` does, or returns
    /// `OutOfBounds` and leaves the board alone where the board has no such
    /// cell.
    pub fn try_toggle_flag(&mut self, position: Position) -> (done: Result<(), BoardError>)
        requires
            old(self).wf(),
        ensures
            final(self).wf(),
            final(self).size() == old(self).size(),
            done is Ok <==> old(self).holds(position),
            done is Ok ==> final(self)@ == old(self)@.put(
                position.0 as int,
                position.1 as int,
                old(self)@.at(position.0 as int, position.1 as int).toggled(),
            ),
            done matches Err(e) ==> e == BoardError::OutOfBounds && final(self)@ == old(self)@,
    {
        if self.contains(position) {
            self.toggle_flag(position);
            Ok(())
        } else {
            Err(BoardError::OutOfBounds)
        }
    }
}

} // verus!
