use vstd::prelude::*;
use crate::grid::{all_in_bounds, cell, fill_cells, full_row, in_bounds, is_grid, lemma_fill_cells_grid, Point, COLS, ROWS};
use crate::laws::lemma_moved_board_cells;
use crate::motion::{
    cleared_rows, full_rows, has_full_row, movable, moved_board, moved_center, reports, shifted, sweep, touches_top,
};
use crate::placement::{pattern_cells, pattern_row, placed_shape, shape_pattern};
use crate::rotation::{lands_free, turn_fits, turned_piece, turned_point};
use crate::stacking::{law_clearing_stacks_rows, stacked};
use crate::tetris::{center_in_range, Command, Tetris, Undroppable};
use crate::webtetris::{cleared, command_for, handled, piece_of, with_piece, Outcome, WebTetris};

verus! {

/// A row counts as full exactly when each of its ten cells holds a non-zero
/// value.
pub proof fn law_full_row_means_every_cell(b: Seq<Seq<u8>>, r: int)
    ensures
        full_row(b, r) <==> (forall|j: int| 0 <= j < 10 ==> #[trigger] b[r][j] != 0),
{
}

/// A piece that cannot move down is reported lost exactly when one of its cells
/// lies in the top row, row 0; otherwise it is reported blocked. Sideways it is
/// always reported blocked.
pub proof fn law_blocked_report(u: Undroppable, pts: Seq<Point>, d: char)
    requires
        reports(u, pts, d == 'D' && touches_top(pts)),
    ensures
        match u {
            Undroppable::Lost(v) => v@ == pts,
            Undroppable::Immovable(v) => v@ == pts,
        },
        (u is Lost) <==> (d == 'D' && exists|k: int| 0 <= k < pts.len() && #[trigger] pts[k].0 == 0),
        (u is Immovable) <==> !(d == 'D' && exists|k: int| 0 <= k < pts.len() && #[trigger] pts[k].0 == 0),
{
}

/// Each turn is a clockwise quarter turn about the centre `c` (in half
/// cells, its coordinates adding up to an even number): the cell at row `r`,
/// column `k` goes to row `cy + (k - cx)`, column `cx - (r - cy)`, where
/// `(cy, cx)` is the centre in cells.
pub proof fn law_turn_is_clockwise(b: Seq<Seq<u8>>, pts: Seq<Point>, c: (i64, i64))
    requires
        is_grid(b),
        all_in_bounds(pts),
        (c.0 + c.1) % 2 == 0,
        turn_fits(b, pts, c),
    ensures
        turned_piece(pts, c).len() == pts.len(),
        forall|k: int|
            0 <= k < pts.len() ==> 2 * (#[trigger] turned_piece(pts, c)[k]).0 == c.0 + 2 * pts[k].1 - c.1 && 2
                * turned_piece(pts, c)[k].1 == c.1 + c.0 - 2 * pts[k].0,
{
    let z = fill_cells(b, pts, 0);
    assert forall|k: int| 0 <= k < pts.len() implies 2 * (#[trigger] turned_piece(pts, c)[k]).0 == c.0 + 2
        * pts[k].1 - c.1 && 2 * turned_piece(pts, c)[k].1 == c.1 + c.0 - 2 * pts[k].0 by {
        assert(lands_free(z, crate::rotation::turned_point(pts[k], c)));
    }
}

/// The cells of shape `n`'s pattern, placed at column `col`, in reading order.
#[verifier::spinoff_prover]
#[verifier::rlimit(60)]
proof fn lemma_shape_points(n: u8, col: int)
    requires
        1 <= n <= 7,
        0 <= col,
    ensures
        n == 1 ==> pattern_cells(shape_pattern(n), col, shape_pattern(n).len()) == seq![(0usize, (col + 1) as usize), (1usize, col as usize), (1usize, (col + 1) as usize), (1usize, (col + 2) as usize)],
        n == 2 ==> pattern_cells(shape_pattern(n), col, shape_pattern(n).len()) == seq![(0usize, (col + 2) as usize), (1usize, col as usize), (1usize, (col + 1) as usize), (1usize, (col + 2) as usize)],
        n == 3 ==> pattern_cells(shape_pattern(n), col, shape_pattern(n).len()) == seq![(0usize, col as usize), (1usize, col as usize), (1usize, (col + 1) as usize), (1usize, (col + 2) as usize)],
        n == 4 ==> pattern_cells(shape_pattern(n), col, shape_pattern(n).len()) == seq![(0usize, col as usize), (0usize, (col + 1) as usize), (1usize, (col + 1) as usize), (1usize, (col + 2) as usize)],
        n == 5 ==> pattern_cells(shape_pattern(n), col, shape_pattern(n).len()) == seq![(0usize, (col + 1) as usize), (0usize, (col + 2) as usize), (1usize, col as usize), (1usize, (col + 1) as usize)],
        n == 6 ==> pattern_cells(shape_pattern(n), col, shape_pattern(n).len()) == seq![(0usize, col as usize), (0usize, (col + 1) as usize), (1usize, col as usize), (1usize, (col + 1) as usize)],
        n == 7 ==> pattern_cells(shape_pattern(n), col, shape_pattern(n).len()) == seq![(0usize, col as usize), (0usize, (col + 1) as usize), (0usize, (col + 2) as usize), (0usize, (col + 3) as usize)],
{
    let p = shape_pattern(n);
    reveal_with_fuel(pattern_cells, 3);
    reveal_with_fuel(pattern_row, 5);
    let r0 = pattern_row(p, col, 0, p[0].len());
    if n == 7 {
        assert(pattern_cells(p, col, p.len()) =~= r0);
    } else {
        let r1 = pattern_row(p, col, 1, p[1].len());
        assert(pattern_cells(p, col, p.len()) =~= r0 + r1);
    }
}

/// Shape `n` placed with its left edge at column `col`: the cells it covers,
/// in reading order (the T, the two L shapes, the Z and S skew shapes, the
/// square and the straight line), take the value `n`, every other cell keeps
/// its value, and the centre is the shape's centre moved right by `col`.
pub proof fn law_shape_cells(before: Tetris, n: u8, col: int, after: Tetris, pts: Seq<Point>)
    requires
        1 <= n <= 7,
        0 <= col,
        before.wf(),
        placed_shape(before, n, col, after, pts),
    ensures
        after.current_shape == Some(n),
        after.center == Some(
            if n == 1 {
                (2i64, (2 + 2 * col) as i64)
            } else if n == 6 {
                (1i64, (1 + 2 * col) as i64)
            } else if n == 7 {
                (3i64, (3 + 2 * col) as i64)
            } else {
                (0i64, (2 + 2 * col) as i64)
            },
        ),
        forall|q: Point|
            in_bounds(q) ==> #[trigger] cell(after.board@, q) == if pts.contains(q) {
                n
            } else {
                cell(before.board@, q)
            },
        n == 1 ==> pts == seq![(0usize, (col + 1) as usize), (1usize, col as usize), (1usize, (col + 1) as usize), (1usize, (col + 2) as usize)],
        n == 2 ==> pts == seq![(0usize, (col + 2) as usize), (1usize, col as usize), (1usize, (col + 1) as usize), (1usize, (col + 2) as usize)],
        n == 3 ==> pts == seq![(0usize, col as usize), (1usize, col as usize), (1usize, (col + 1) as usize), (1usize, (col + 2) as usize)],
        n == 4 ==> pts == seq![(0usize, col as usize), (0usize, (col + 1) as usize), (1usize, (col + 1) as usize), (1usize, (col + 2) as usize)],
        n == 5 ==> pts == seq![(0usize, (col + 1) as usize), (0usize, (col + 2) as usize), (1usize, col as usize), (1usize, (col + 1) as usize)],
        n == 6 ==> pts == seq![(0usize, col as usize), (0usize, (col + 1) as usize), (1usize, col as usize), (1usize, (col + 1) as usize)],
        n == 7 ==> pts == seq![(0usize, col as usize), (0usize, (col + 1) as usize), (0usize, (col + 2) as usize), (0usize, (col + 3) as usize)],
{
    lemma_shape_points(n, col);
    lemma_fill_cells_grid(before.board@, pts, n);
}

/// After `InsertPiece`, the field outside the new piece is the old field with
/// its full rows cleared and the rest stacked at the bottom (unchanged when no
/// row was full), and the score has gained a point for each full row.
pub proof fn law_insert_piece_clears_first(before: WebTetris, after: WebTetris, o: Outcome)
    requires
        before.tetris.wf(),
        handled(before, Command::InsertPiece, after, o),
    ensures
        after.tetris.score == before.tetris.score + full_rows(before.tetris.board@).len(),
        forall|q: Point|
            in_bounds(q) && !piece_of(after.tetris).contains(q) ==> #[trigger] cell(after.tetris.board@, q) == cell(
                if has_full_row(before.tetris.board@) {
                    stacked(cleared_rows(before.tetris.board@))
                } else {
                    before.tetris.board@
                },
                q,
            ),
{
    let t = before.tetris;
    let n = after.tetris;
    let b = t.board@;
    let (mid, col) = choose|mid: Tetris, col: int|
        #![trigger cleared(t, mid), placed_shape(mid, n.current_shape.unwrap(), col, with_piece(n, mid.current_piece), piece_of(n))]
        cleared(t, mid) && 0 <= col <= COLS - crate::placement::shape_width(n.current_shape.unwrap()) && placed_shape(
            mid,
            n.current_shape.unwrap(),
            col,
            with_piece(n, mid.current_piece),
            piece_of(n),
        );
    law_clearing_stacks_rows(b);
    let pts = piece_of(n);
    let m = mid.board@;
    assert(has_full_row(b) ==> m == sweep(cleared_rows(b), ROWS as nat).0);
    assert(!has_full_row(b) ==> m == b);
    assert(is_grid(m));
    assert(all_in_bounds(pts));
    lemma_fill_cells_grid(m, pts, crate::rotation::shape_value(Some(n.current_shape.unwrap())));
    assert forall|q: Point| in_bounds(q) && !pts.contains(q) implies #[trigger] cell(n.board@, q) == cell(
        if has_full_row(b) {
            stacked(cleared_rows(b))
        } else {
            b
        },
        q,
    ) by {
        assert(cell(n.board@, q) == cell(m, q));
    }
}

/// Clearing empties exactly the rows whose ten cells are all non-zero and
/// leaves every other row as it was; there is a row to clear exactly when one
/// of the 22 rows is full.
pub proof fn law_clearing_empties_full_rows(b: Seq<Seq<u8>>)
    requires
        is_grid(b),
    ensures
        cleared_rows(b).len() == ROWS,
        forall|r: int, j: int|
            0 <= r < ROWS && 0 <= j < COLS ==> #[trigger] cleared_rows(b)[r][j] == if (forall|i: int|
                0 <= i < 10 ==> #[trigger] b[r][i] != 0) {
                0
            } else {
                b[r][j]
            },
        has_full_row(b) <==> exists|r: int| 0 <= r < 22 && #[trigger] full_row(b, r),
{
}

/// A move carries each cell of the piece one cell down (row + 1), right
/// (column + 1) or left (column - 1) with the value it held; the cells it left
/// hold 0 and every other cell keeps its value.
pub proof fn law_move_carries_cells(b: Seq<Seq<u8>>, pts: Seq<Point>, d: char)
    requires
        is_grid(b),
        all_in_bounds(pts),
        pts.no_duplicates(),
        d == 'D' || d == 'R' || d == 'L',
        movable(b, pts, d),
    ensures
        shifted(pts, d).len() == pts.len(),
        forall|i: int|
            0 <= i < pts.len() ==> #[trigger] shifted(pts, d)[i] == if d == 'D' {
                ((pts[i].0 + 1) as usize, pts[i].1)
            } else if d == 'R' {
                (pts[i].0, (pts[i].1 + 1) as usize)
            } else {
                (pts[i].0, (pts[i].1 - 1) as usize)
            },
        forall|i: int| 0 <= i < pts.len() ==> #[trigger] cell(moved_board(b, pts, d), shifted(pts, d)[i]) == cell(b, pts[i]),
        forall|q: Point|
            in_bounds(q) && !shifted(pts, d).contains(q) ==> #[trigger] cell(moved_board(b, pts, d), q) == if pts.contains(q) {
                0
            } else {
                cell(b, q)
            },
{
    lemma_moved_board_cells(b, pts, d);
}

/// A turn fits exactly when each cell of the piece, turned clockwise about the
/// centre `c` (in half cells, its coordinates adding up to an even number),
/// lands inside the field on a cell of the piece or a cell holding 0.
pub proof fn law_turn_fits_cells(b: Seq<Seq<u8>>, pts: Seq<Point>, c: (i64, i64))
    requires
        is_grid(b),
        all_in_bounds(pts),
        (c.0 + c.1) % 2 == 0,
    ensures
        turn_fits(b, pts, c) <==> forall|k: int|
            0 <= k < pts.len() ==> {
                let r = (c.0 + 2 * pts[k].1 - c.1) / 2;
                let col = (c.0 + c.1 - 2 * (#[trigger] pts[k]).0) / 2;
                &&& 0 <= r < 22
                &&& 0 <= col < 10
                &&& (pts.contains((r as usize, col as usize)) || b[r][col] == 0)
            },
{
    let z = fill_cells(b, pts, 0);
    lemma_fill_cells_grid(b, pts, 0);
    assert forall|k: int| 0 <= k < pts.len() implies turned_point(#[trigger] pts[k], c) == (
        (c.0 + 2 * pts[k].1 - c.1) / 2,
        (c.0 + c.1 - 2 * pts[k].0) / 2,
    ) by {
    }
    assert forall|k: int| 0 <= k < pts.len() implies (lands_free(z, #[trigger] turned_point(pts[k], c)) <==> {
        let r = (c.0 + 2 * pts[k].1 - c.1) / 2;
        let col = (c.0 + c.1 - 2 * pts[k].0) / 2;
        &&& 0 <= r < 22
        &&& 0 <= col < 10
        &&& (pts.contains((r as usize, col as usize)) || b[r][col] == 0)
    }) by {
        let t = turned_point(pts[k], c);
        if 0 <= t.0 < 22 && 0 <= t.1 < 10 {
            let q: Point = (t.0 as usize, t.1 as usize);
            assert(in_bounds(q));
            assert(cell(z, q) == z[t.0][t.1]);
            assert(cell(b, q) == b[t.0][t.1]);
        }
    }
}

/// A piece can move one cell in direction `d` exactly when, for each of its
/// cells with no other cell of the piece further along its column (moving
/// down) or its row (moving sideways), the next cell in that direction lies in
/// the field and holds 0.
pub proof fn law_movable_cells(b: Seq<Seq<u8>>, pts: Seq<Point>, d: char)
    requires
        d == 'D' || d == 'R' || d == 'L',
    ensures
        movable(b, pts, d) <==> forall|i: int|
            #![trigger pts[i]]
            0 <= i < pts.len() && (forall|k: int|
                #![trigger pts[k]]
                0 <= k < pts.len() ==> !(if d == 'D' {
                    pts[k].1 == pts[i].1 && pts[k].0 > pts[i].0
                } else if d == 'R' {
                    pts[k].0 == pts[i].0 && pts[k].1 > pts[i].1
                } else {
                    pts[k].0 == pts[i].0 && pts[k].1 < pts[i].1
                })) ==> (if d == 'D' {
                pts[i].0 + 1 < 22 && pts[i].1 < 10 && b[pts[i].0 + 1][pts[i].1 as int] == 0
            } else if d == 'R' {
                pts[i].0 < 22 && pts[i].1 + 1 < 10 && b[pts[i].0 as int][pts[i].1 + 1] == 0
            } else {
                pts[i].0 < 22 && 0 < pts[i].1 <= 10 && b[pts[i].0 as int][pts[i].1 - 1] == 0
            }),
{
}

/// A move takes the centre (in half cells) one cell along with the piece: two
/// half cells down, right or left.
pub proof fn law_move_carries_centre(c: (i64, i64), d: char)
    requires
        d == 'D' || d == 'R' || d == 'L',
        center_in_range(c),
    ensures
        d == 'D' ==> moved_center(c, d).0 == c.0 + 2 && moved_center(c, d).1 == c.1,
        d == 'R' ==> moved_center(c, d).0 == c.0 && moved_center(c, d).1 == c.1 + 2,
        d == 'L' ==> moved_center(c, d).0 == c.0 && moved_center(c, d).1 == c.1 - 2,
{
}

/// The words a player sends and the commands they name; any other message
/// names none.
pub proof fn law_command_words(msg: Seq<char>)
    ensures
        command_for("rotate"@) == Some(Command::Rotate),
        command_for("move_down"@) == Some(Command::Move('D')),
        command_for("move_right"@) == Some(Command::Move('R')),
        command_for("move_left"@) == Some(Command::Move('L')),
        command_for("end_game"@) == Some(Command::End),
        command_for("hard_drop"@) == Some(Command::HardDrop),
        msg != "rotate"@ && msg != "move_down"@ && msg != "move_right"@ && msg != "move_left"@ && msg != "end_game"@
            && msg != "hard_drop"@ ==> command_for(msg) is None,
{
    reveal_strlit("rotate");
    reveal_strlit("move_down");
    reveal_strlit("move_right");
    reveal_strlit("move_left");
    reveal_strlit("end_game");
    reveal_strlit("hard_drop");
    assert("rotate"@.len() == 6);
    assert("move_down"@.len() == 9);
    assert("move_right"@.len() == 10);
    assert("move_left"@.len() == 9);
    assert("end_game"@.len() == 8);
    assert("hard_drop"@.len() == 9);
    assert("move_left"@[5] != "move_down"@[5]);
    assert("hard_drop"@[0] != "move_down"@[0]);
    assert("hard_drop"@[0] != "move_left"@[0]);
}

} // verus!
