use vstd::prelude::*;
use crate::board::Board;
use crate::grid::{
    all_in_bounds, cell, cols_of, field_cells, fill_cells, full_row, in_bounds, is_grid, lemma_seq_min_max,
    lemma_set_cell_grid, reads_before, row_cells, rows_of, seq_max, seq_min, Point, COLS, ROWS,
};

verus! {

/// What a game session is asked to do next.
#[derive(PartialEq, Eq, Structural, Debug, Clone, Copy)]
pub enum Command {
    Move(char),
    Rotate,
    InsertPiece,
    Refresh,
    ClearLines,
    End,
    HardDrop,
}

/// What the game tells the session that drives it.
#[derive(PartialEq, Eq, Structural, Debug, Clone, Copy)]
pub enum Event {
    Undroppable,
}

/// Why a piece could not move: it is blocked, or it is blocked while touching
/// the top row on the way down, which loses the game. Both carry the piece.
#[derive(Debug)]
pub enum Undroppable {
    Immovable(Vec<Point>),
    Lost(Vec<Point>),
}

/// The state of one game: the field, the number of the falling shape, the
/// centre of that shape, the cells it occupies and the score.
///
/// The centre is kept in half cells: `(2 * row, 2 * column)`, so that the
/// centres of all shapes, which lie on cells or halfway between them, are
/// whole numbers.
pub struct Tetris {
    pub board: Board<u8>,
    pub current_shape: Option<u8>,
    pub center: Option<(i64, i64)>,
    pub current_piece: Option<Vec<Point>>,
    /// The points earned: one for each full row cleared.
    pub score: u16,
}

/// The largest magnitude of a centre coordinate (in half cells) for which the
/// game's arithmetic on it is exact.
pub const CENTER_LIMIT: i64 = 16777216;

/// `c` is a centre whose coordinates stay within `CENTER_LIMIT`.
pub open spec fn center_in_range(c: (i64, i64)) -> bool {
    -CENTER_LIMIT <= c.0 <= CENTER_LIMIT && -CENTER_LIMIT <= c.1 <= CENTER_LIMIT
}

/// A neighbour of `p` inside the field holds a non-zero value.
pub open spec fn has_filled_neighbour(b: Seq<Seq<u8>>, p: Point) -> bool {
    ||| (p.0 + 1 < ROWS && b[p.0 + 1][p.1 as int] != 0)
    ||| (p.0 > 0 && b[p.0 - 1][p.1 as int] != 0)
    ||| (p.1 > 0 && b[p.0 as int][p.1 - 1] != 0)
    ||| (p.1 + 1 < COLS && b[p.0 as int][p.1 + 1] != 0)
}

/// The cells of row `l`, from left to right.
pub open spec fn line_points(l: usize) -> Seq<Point> {
    Seq::new(COLS as nat, |i: int| (l, i as usize))
}

/// The centre (in half cells) of shape `n` as it is first placed at column 0.
pub open spec fn shape_center_of(n: u8) -> (i64, i64) {
    if n == 1 {
        (2, 2)
    } else if n == 6 {
        (1, 1)
    } else if n == 7 {
        (3, 3)
    } else {
        (0, 2)
    }
}

impl Tetris {
    /// The field has its 22 rows of 10 cells.
    pub open spec fn wf(&self) -> bool {
        is_grid(self.board@)
    }

    /// `self` and `other` differ at most in their boards.
    pub open spec fn same_but_board(&self, other: &Tetris) -> bool {
        &&& self.current_shape == other.current_shape
        &&& self.center == other.center
        &&& self.current_piece == other.current_piece
        &&& self.score == other.score
    }

    /// An empty field with no shape.
    pub fn new() -> (t: Tetris)
        ensures
            t.wf(),
            t.board@ == Seq::new(ROWS as nat, |_i: int| Seq::new(COLS as nat, |_j: int| 0u8)),
            t.current_shape is None,
            t.center is None,
            t.current_piece is None,
            t.score == 0,
    {
        Tetris { board: Board::new(22, 10, 0), current_shape: None, center: None, current_piece: None, score: 0 }
    }

    /// Sets every cell of row `line` to `value`.
    pub fn set_line_to(&mut self, line: usize, value: u8)
        requires
            old(self).wf(),
            line < ROWS,
        ensures
            final(self).wf(),
            final(self).board@ == old(self).board@.update(line as int, Seq::new(COLS as nat, |_j: int| value)),
            final(self).same_but_board(old(self)),
    {
        let ghost b0 = self.board@;
        assert(b0 =~~= b0.update(
            line as int,
            Seq::new(COLS as nat, |j: int| if j < 0 { value } else { b0[line as int][j] }),
        ));
        let mut i: usize = 0;
        while i < 10
            invariant
                0 <= i <= COLS,
                line < ROWS,
                is_grid(self.board@),
                self.same_but_board(old(self)),
                b0 == old(self).board@,
                is_grid(b0),
                self.board@ == b0.update(
                    line as int,
                    Seq::new(COLS as nat, |j: int| if j < i { value } else { b0[line as int][j] }),
                ),
            decreases COLS - i,
        {
            self.board.set_element(line, i, value);
            i = i + 1;
            assert(self.board@ =~~= b0.update(
                line as int,
                Seq::new(COLS as nat, |j: int| if j < i { value } else { b0[line as int][j] }),
            ));
        }
        assert(self.board@ =~~= b0.update(line as int, Seq::new(COLS as nat, |_j: int| value)));
    }

    /// The rows whose cells are all non-zero, each once. The rows are looked at
    /// through a list of all row numbers from which each row that is not full is
    /// swap-removed as it is found; the result is what remains of that list, in
    /// its order.
    pub fn check_filled_lines(&self) -> (lines: Vec<usize>)
        requires
            self.wf(),
        ensures
            lines@ == scan_full_rows(self.board@, Seq::new(ROWS as nat, |k: int| k as usize), 0, ROWS as nat),
            lines@ == rows_from_both_ends(self.board@, 0, ROWS - 1, true),
            lines@.no_duplicates(),
            lines@.len() <= ROWS,
            forall|r: usize| #[trigger] lines@.contains(r) <==> (r < ROWS && full_row(self.board@, r as int)),
            forall|r: usize|
                #[trigger] lines@.contains(r) <==> (r < ROWS && forall|j: int| 0 <= j < COLS ==> #[trigger] self.board@[r as int][j] != 0),
    {
        let ghost b = self.board@;
        let mut filled_lines: Vec<usize> = Vec::new();
        let mut i: usize = 0;
        while i < 22
            invariant
                i <= ROWS,
                filled_lines@ == Seq::new(i as nat, |k: int| k as usize),
            decreases ROWS - i,
        {
            filled_lines.push(i);
            i = i + 1;
            assert(filled_lines@ =~= Seq::new(i as nat, |k: int| k as usize));
        }
        assert forall|r: usize| r < ROWS && full_row(b, r as int) implies #[trigger] filled_lines@.contains(r) by {
            assert(filled_lines@[r as int] == r);
        }
        let mut index: usize = 0;
        let mut step: usize = 0;
        while step < 22
            invariant
                b == self.board@,
                is_grid(b),
                step <= ROWS,
                index <= filled_lines@.len(),
                filled_lines@.len() - index == ROWS - step,
                filled_lines@.len() <= ROWS,
                scan_full_rows(b, filled_lines@, index as int, (ROWS - step) as nat) == scan_full_rows(
                    b,
                    Seq::new(ROWS as nat, |k: int| k as usize),
                    0,
                    ROWS as nat,
                ),
                filled_lines@.no_duplicates(),
                forall|k: int| 0 <= k < filled_lines@.len() ==> #[trigger] filled_lines@[k] < ROWS,
                forall|k: int| 0 <= k < index ==> full_row(b, #[trigger] filled_lines@[k] as int),
                forall|r: usize| r < ROWS && full_row(b, r as int) ==> #[trigger] filled_lines@.contains(r),
            decreases ROWS - step,
        {
            let row = filled_lines[index];
            let mut j: usize = 0;
            let mut full = true;
            while j < 10
                invariant
                    j <= COLS,
                    row < ROWS,
                    b == self.board@,
                    is_grid(b),
                    full == (forall|k: int| 0 <= k < j ==> #[trigger] b[row as int][k] != 0),
                decreases COLS - j,
            {
                if *self.board.get_element(row, j) == 0 {
                    full = false;
                }
                j = j + 1;
            }
            assert(full == full_row(b, row as int));
            if !full {
                let ghost before = filled_lines@;
                filled_lines.swap_remove(index);
                assert(!full_row(b, row as int));
                assert forall|r: usize| r < ROWS && full_row(b, r as int) implies #[trigger] filled_lines@.contains(r) by {
                    assert(before.contains(r));
                    let k = choose|k: int| 0 <= k < before.len() && before[k] == r;
                    if k == before.len() - 1 {
                        if index < before.len() - 1 {
                            assert(filled_lines@[index as int] == r);
                        } else {
                            assert(before[index as int] == row);
                        }
                    } else {
                        assert(k != index);
                        assert(filled_lines@[k] == r);
                    }
                }
                assert forall|a: int, c: int|
                    0 <= a < filled_lines@.len() && 0 <= c < filled_lines@.len() && a != c implies filled_lines@[a]
                    != filled_lines@[c] by {
                    let ia = if a == index { before.len() - 1 } else { a };
                    let ic = if c == index { before.len() - 1 } else { c };
                    assert(filled_lines@[a] == before[ia]);
                    assert(filled_lines@[c] == before[ic]);
                }
                assert forall|k: int| 0 <= k < filled_lines@.len() implies #[trigger] filled_lines@[k] < ROWS by {
                    if k == index {
                        assert(filled_lines@[k] == before[before.len() - 1]);
                    } else {
                        assert(filled_lines@[k] == before[k]);
                    }
                }
                assert forall|k: int| 0 <= k < index implies full_row(b, #[trigger] filled_lines@[k] as int) by {
                    assert(filled_lines@[k] == before[k]);
                }
            } else {
                index = index + 1;
            }
            step = step + 1;
        }
        assert forall|r: usize| #[trigger] filled_lines@.contains(r) implies (r < ROWS && full_row(b, r as int)) by {
            let k = choose|k: int| 0 <= k < filled_lines@.len() && filled_lines@[k] == r;
            assert(filled_lines@[k] < ROWS);
        }
        proof {
            lemma_scan_from_both_ends(b, Seq::empty(), 0, ROWS - 1, true);
            assert(scan_list(Seq::empty(), 0, ROWS - 1, true) =~= Seq::new(ROWS as nat, |k: int| k as usize));
            assert(Seq::<usize>::empty() + rows_from_both_ends(b, 0, ROWS - 1, true) =~= rows_from_both_ends(b, 0, ROWS - 1, true));
        }
        filled_lines
    }

    /// Sets every cell of `points` to `value`.
    pub fn set_points_to(&mut self, points: &Vec<Point>, value: u8)
        requires
            old(self).wf(),
            all_in_bounds(points@),
        ensures
            final(self).wf(),
            final(self).board@ == fill_cells(old(self).board@, points@, value),
            final(self).same_but_board(old(self)),
    {
        let ghost b0 = self.board@;
        let mut i: usize = 0;
        while i < points.len()
            invariant
                i <= points@.len(),
                all_in_bounds(points@),
                is_grid(b0),
                b0 == old(self).board@,
                self.same_but_board(old(self)),
                self.board@ == fill_cells(b0, points@.take(i as int), value),
                is_grid(self.board@),
            decreases points@.len() - i,
        {
            let p = points[i];
            assert(in_bounds(points@[i as int]));
            proof {
                lemma_set_cell_grid(self.board@, p, value);
            }
            self.board.set_element(p.0, p.1, value);
            i = i + 1;
            assert(points@.take(i as int).drop_last() =~= points@.take(i - 1));
        }
        assert(points@.take(i as int) =~= points@);
    }

    /// Adds `start` to `points` when its cell is non-zero and, from there, the
    /// non-zero cells reached through its neighbours.
    ///
    /// The search keeps no record of the cells already seen, so from a non-zero
    /// cell with a non-zero neighbour it does not return; such a start is not
    /// accepted.
    pub fn flood_fill(&self, start: Point, points: &mut Vec<Point>)
        requires
            self.wf(),
            in_bounds(start),
            cell(self.board@, start) != 0 ==> !has_filled_neighbour(self.board@, start),
        ensures
            final(points)@ == if cell(self.board@, start) != 0 {
                old(points)@.push(start)
            } else {
                old(points)@
            },
        decreases (if cell(self.board@, start) == 0 { 0int } else { 1int }),
    {
        if *self.board.get_element(start.0, start.1) == 0 {
            return;
        }
        points.push(start);
        let ghost after_push = points@;
        if start.0 < 21 {
            self.flood_fill((start.0 + 1, start.1), points);
        }
        if start.0 > 0 {
            self.flood_fill((start.0 - 1, start.1), points);
        }
        if start.1 > 0 {
            self.flood_fill((start.0, start.1 - 1), points);
        }
        if start.1 < 9 {
            self.flood_fill((start.0, start.1 + 1), points);
        }
        assert(points@ == after_push);
    }

    /// The smallest row, smallest column, largest row and largest column among
    /// `points`.
    pub fn dimensions(points: &Vec<Point>) -> (d: (usize, usize, usize, usize))
        requires
            points@.len() > 0,
        ensures
            d.0 == seq_min(rows_of(points@)),
            d.1 == seq_min(cols_of(points@)),
            d.2 == seq_max(rows_of(points@)),
            d.3 == seq_max(cols_of(points@)),
    {
        let ghost pts = points@;
        let mut smallest_y = points[0].0;
        let mut smallest_x = points[0].1;
        let mut biggest_y = points[0].0;
        let mut biggest_x = points[0].1;
        let mut i: usize = 0;
        while i < points.len()
            invariant
                pts == points@,
                pts.len() > 0,
                i <= pts.len(),
                smallest_y == seq_min(rows_of(pts.take(if i == 0 { 1int } else { i as int }))),
                smallest_x == seq_min(cols_of(pts.take(if i == 0 { 1int } else { i as int }))),
                biggest_y == seq_max(rows_of(pts.take(if i == 0 { 1int } else { i as int }))),
                biggest_x == seq_max(cols_of(pts.take(if i == 0 { 1int } else { i as int }))),
            decreases pts.len() - i,
        {
            let y = points[i].0;
            let x = points[i].1;
            smallest_x = if smallest_x > x { x } else { smallest_x };
            smallest_y = if smallest_y > y { y } else { smallest_y };
            biggest_x = if biggest_x < x { x } else { biggest_x };
            biggest_y = if biggest_y < y { y } else { biggest_y };
            i = i + 1;
            if i > 1 {
                assert(rows_of(pts.take(i as int)).drop_last() =~= rows_of(pts.take(i - 1)));
                assert(cols_of(pts.take(i as int)).drop_last() =~= cols_of(pts.take(i - 1)));
            }
        }
        assert(pts.take(pts.len() as int) =~= pts);
        (smallest_y, smallest_x, biggest_y, biggest_x)
    }

    /// The side of the smallest square that holds `points`: one more than the
    /// larger of the row span and the column span.
    pub fn shape_length(points: &Vec<Point>) -> (l: usize)
        requires
            points@.len() > 0,
            seq_max(rows_of(points@)) - seq_min(rows_of(points@)) < usize::MAX,
            seq_max(cols_of(points@)) - seq_min(cols_of(points@)) < usize::MAX,
        ensures
            l == shape_extent(points@),
    {
        let (smallest_y, smallest_x, biggest_y, biggest_x) = Self::dimensions(points);
        proof {
            lemma_seq_min_max(rows_of(points@));
            lemma_seq_min_max(cols_of(points@));
            assert(rows_of(points@)[0] == points@[0].0);
            assert(cols_of(points@)[0] == points@[0].1);
        }
        let l1 = biggest_y - smallest_y;
        let l2 = biggest_x - smallest_x;
        if l1 > l2 { l1 + 1 } else { l2 + 1 }
    }

    /// The centre, in half cells, of the current shape as first placed.
    pub(crate) fn shape_center(&self) -> (c: (i64, i64))
        requires
            self.current_shape matches Some(n) && 1 <= n <= 7,
        ensures
            c == shape_center_of(self.current_shape.unwrap()),
    {
        match self.current_shape {
            Some(1) => (2, 2),
            Some(2) => (0, 2),
            Some(3) => (0, 2),
            Some(4) => (0, 2),
            Some(5) => (0, 2),
            Some(6) => (1, 1),
            _ => (3, 3),
        }
    }

    /// The point lies in the field.
    pub(crate) fn validate_coordinates(point: (isize, isize)) -> (ok: bool)
        ensures
            ok == (0 <= point.0 <= 21 && 0 <= point.1 <= 9),
    {
        if point.0 < 0 || point.0 > 21 {
            return false;
        }
        if point.1 < 0 || point.1 > 9 {
            return false;
        }
        return true;
    }

    /// The first non-zero cell in reading order, or `(0, 0)` when there is none.
    fn some_point(&self) -> (p: Point)
        requires
            self.wf(),
        ensures
            (exists|q: Point| in_bounds(q) && cell(self.board@, q) != 0) ==> (in_bounds(p) && cell(self.board@, p)
                != 0 && forall|q: Point|
                in_bounds(q) && reads_before(q, p) ==> #[trigger] cell(self.board@, q) == 0),
            (forall|q: Point| in_bounds(q) ==> #[trigger] cell(self.board@, q) == 0) ==> p == (0usize, 0usize),
    {
        let ghost b = self.board@;
        let mut i: usize = 0;
        while i < 22
            invariant
                i <= ROWS,
                b == self.board@,
                is_grid(b),
                forall|q: Point| in_bounds(q) && q.0 < i ==> #[trigger] cell(b, q) == 0,
            decreases ROWS - i,
        {
            let mut j: usize = 0;
            while j < 10
                invariant
                    i < ROWS,
                    j <= COLS,
                    b == self.board@,
                    is_grid(b),
                    forall|q: Point| in_bounds(q) && (q.0 < i || (q.0 == i && q.1 < j)) ==> #[trigger] cell(b, q) == 0,
                decreases COLS - j,
            {
                if *self.board.get_element(i, j) > 0 {
                    assert(cell(b, (i, j)) != 0);
                    return (i, j);
                }
                j = j + 1;
            }
            i = i + 1;
        }
        return (0, 0);
    }

    /// The cells of the field that hold `value`, in reading order.
    fn all_points_equal_to(&self, value: u8) -> (points: Vec<Point>)
        requires
            self.wf(),
        ensures
            points@ == field_cells(self.board@, Some(value), ROWS as nat),
    {
        self.cells_selected(Some(value))
    }

    /// The cells of the field that hold a non-zero value, in reading order.
    fn all_non_zero_points(&self) -> (points: Vec<Point>)
        requires
            self.wf(),
        ensures
            points@ == field_cells(self.board@, None, ROWS as nat),
    {
        self.cells_selected(None)
    }

    /// The cells whose value `sel` chooses, in reading order.
    fn cells_selected(&self, sel: Option<u8>) -> (points: Vec<Point>)
        requires
            self.wf(),
        ensures
            points@ == field_cells(self.board@, sel, ROWS as nat),
    {
        let ghost b = self.board@;
        let mut points: Vec<Point> = Vec::new();
        let mut i: usize = 0;
        while i < 22
            invariant
                i <= ROWS,
                b == self.board@,
                is_grid(b),
                points@ == field_cells(b, sel, i as nat),
            decreases ROWS - i,
        {
            let mut j: usize = 0;
            while j < 10
                invariant
                    i < ROWS,
                    j <= COLS,
                    b == self.board@,
                    is_grid(b),
                    points@ == field_cells(b, sel, i as nat) + row_cells(b, sel, i as nat, j as nat),
                decreases COLS - j,
            {
                let v = *self.board.get_element(i, j);
                let chosen = match sel {
                    Some(x) => v == x,
                    None => v > 0,
                };
                if chosen {
                    points.push((i, j));
                }
                j = j + 1;
                assert(points@ =~= field_cells(b, sel, i as nat) + row_cells(b, sel, i as nat, j as nat));
            }
            i = i + 1;
            assert(points@ =~= field_cells(b, sel, i as nat));
        }
        points
    }

    /// The cells of row `l`, from left to right.
    pub(crate) fn line(l: usize) -> (points: Vec<Point>)
        ensures
            points@ == line_points(l),
    {
        let mut points: Vec<Point> = Vec::new();
        let mut i: usize = 0;
        while i < 10
            invariant
                i <= COLS,
                points@ == Seq::new(i as nat, |k: int| (l, k as usize)),
            decreases COLS - i,
        {
            points.push((l, i));
            i = i + 1;
            assert(points@ =~= Seq::new(i as nat, |k: int| (l, k as usize)));
        }
        points
    }
}

/// Looking at the rows listed in `list` from position `index` on, `steps` times:
/// a full row stays and the next position is looked at; a row that is not full
/// is replaced by the last row of the list, which is shortened by one. Gives the
/// list that remains.
pub open spec fn scan_full_rows(b: Seq<Seq<u8>>, list: Seq<usize>, index: int, steps: nat) -> Seq<usize>
    decreases steps,
{
    if steps == 0 || !(0 <= index < list.len()) {
        list
    } else if full_row(b, list[index] as int) {
        scan_full_rows(b, list, index + 1, (steps - 1) as nat)
    } else {
        scan_full_rows(b, list.update(index, list.last()).drop_last(), index, (steps - 1) as nat)
    }
}

/// The full rows among rows `lo` to `hi`, in the order in which they are found
/// when the rows are looked at from both ends: from the top down while the rows
/// looked at are full; after a row that is not full, from the bottom up until a
/// full row is found, then from the top again (`from_top` says where the next
/// look goes).
pub open spec fn rows_from_both_ends(b: Seq<Seq<u8>>, lo: int, hi: int, from_top: bool) -> Seq<usize>
    decreases hi - lo + 1,
{
    if lo > hi {
        Seq::empty()
    } else if from_top {
        if full_row(b, lo) {
            seq![lo as usize] + rows_from_both_ends(b, lo + 1, hi, true)
        } else {
            rows_from_both_ends(b, lo + 1, hi, false)
        }
    } else {
        if full_row(b, hi) {
            seq![hi as usize] + rows_from_both_ends(b, lo, hi - 1, true)
        } else {
            rows_from_both_ends(b, lo, hi - 1, false)
        }
    }
}

/// The rows `lo` to `hi - 1`, in order.
pub open spec fn row_range(lo: int, hi: int) -> Seq<usize> {
    Seq::new((hi - lo) as nat, |k: int| (lo + k) as usize)
}

/// The list the swap-remove scan works on, in terms of the rows kept so far
/// and the rows `lo` to `hi` not yet looked at: when the next look is from the
/// top, those rows in order; otherwise row `hi` first, then rows `lo` to
/// `hi - 1`.
pub open spec fn scan_list(kept: Seq<usize>, lo: int, hi: int, from_top: bool) -> Seq<usize> {
    if from_top {
        kept + row_range(lo, hi + 1)
    } else {
        kept + seq![hi as usize] + row_range(lo, hi)
    }
}

/// The swap-remove scan finds the full rows in the order of a look from both
/// ends.
pub proof fn lemma_scan_from_both_ends(b: Seq<Seq<u8>>, kept: Seq<usize>, lo: int, hi: int, from_top: bool)
    requires
        0 <= lo <= hi + 1,
        hi < ROWS,
        !from_top ==> lo <= hi,
    ensures
        scan_full_rows(b, scan_list(kept, lo, hi, from_top), kept.len() as int, (hi - lo + 1) as nat) == kept
            + rows_from_both_ends(b, lo, hi, from_top),
    decreases hi - lo + 1,
{
    let list = scan_list(kept, lo, hi, from_top);
    let idx = kept.len() as int;
    if lo > hi {
        assert(list =~= kept);
        assert(kept + rows_from_both_ends(b, lo, hi, from_top) =~= kept);
    } else if from_top {
        assert(list[idx] == lo as usize);
        if full_row(b, lo) {
            let k2 = kept + seq![lo as usize];
            assert(list =~= scan_list(k2, lo + 1, hi, true));
            lemma_scan_from_both_ends(b, k2, lo + 1, hi, true);
            assert(k2 + rows_from_both_ends(b, lo + 1, hi, true) =~= kept + rows_from_both_ends(b, lo, hi, from_top));
        } else {
            let l2 = list.update(idx, list.last()).drop_last();
            if lo == hi {
                assert(l2 =~= kept);
                assert(rows_from_both_ends(b, lo + 1, hi, false) =~= Seq::<usize>::empty());
                assert(kept + rows_from_both_ends(b, lo, hi, from_top) =~= kept);
                assert(scan_full_rows(b, l2, idx, 0) == l2);
            } else {
                assert(l2 =~= scan_list(kept, lo + 1, hi, false));
                lemma_scan_from_both_ends(b, kept, lo + 1, hi, false);
            }
        }
    } else {
        assert(list[idx] == hi as usize);
        if full_row(b, hi) {
            let k2 = kept + seq![hi as usize];
            assert(list =~= scan_list(k2, lo, hi - 1, true));
            lemma_scan_from_both_ends(b, k2, lo, hi - 1, true);
            assert(k2 + rows_from_both_ends(b, lo, hi - 1, true) =~= kept + rows_from_both_ends(b, lo, hi, from_top));
        } else {
            let l2 = list.update(idx, list.last()).drop_last();
            if lo == hi {
                assert(l2 =~= kept);
                assert(rows_from_both_ends(b, lo, hi - 1, false) =~= Seq::<usize>::empty());
                assert(kept + rows_from_both_ends(b, lo, hi, from_top) =~= kept);
                assert(scan_full_rows(b, l2, idx, 0) == l2);
            } else {
                assert(l2 =~= scan_list(kept, lo, hi - 1, false));
                lemma_scan_from_both_ends(b, kept, lo, hi - 1, false);
            }
        }
    }
}

/// One more than the larger of the row span and the column span of `pts`.
pub open spec fn shape_extent(pts: Seq<Point>) -> int {
    let l1 = seq_max(rows_of(pts)) - seq_min(rows_of(pts));
    let l2 = seq_max(cols_of(pts)) - seq_min(cols_of(pts));
    if l1 > l2 {
        l1 + 1
    } else {
        l2 + 1
    }
}

} // verus!
