use vstd::prelude::*;
use crate::grid::{
    all_in_bounds, cell, fill_cells, full_row, in_bounds, is_grid, lemma_fill_cells_grid, lemma_lift_cells_grid,
    lemma_lift_distinct, lemma_write_cells_grid, lemma_write_distinct, lift_cells, Point, COLS, ROWS,
};
use crate::motion::{
    beyond, can_step, cleared_rows, has_full_row, is_side, lemma_shift_in_bounds, line_of, movable, moved_board,
    moved_center, settle, shifted, side_free, sweep, valid_direction,
};
use crate::tetris::{center_in_range, line_points};

verus! {

/// Two grids that agree on every cell are equal.
pub proof fn lemma_grid_ext(a: Seq<Seq<u8>>, b: Seq<Seq<u8>>)
    requires
        is_grid(a),
        is_grid(b),
        forall|q: Point| in_bounds(q) ==> #[trigger] cell(a, q) == cell(b, q),
    ensures
        a == b,
{
    assert forall|i: int| 0 <= i < ROWS implies #[trigger] a[i] =~= b[i] by {
        assert forall|j: int| 0 <= j < COLS implies a[i][j] == b[i][j] by {
            assert(cell(a, (i as usize, j as usize)) == cell(b, (i as usize, j as usize)));
        }
    }
    assert(a =~= b);
}

/// The direction opposite to a sideways direction.
pub open spec fn opposite(d: char) -> char {
    if d == 'R' {
        'L'
    } else {
        'R'
    }
}

/// No row of the piece `pts` has a gap: between two of its points on one row,
/// every cell belongs to the piece.
pub open spec fn rows_gap_free(pts: Seq<Point>) -> bool {
    forall|i: int, j: int, c: usize|
        #![trigger pts[i], pts[j], pts.contains((pts[i].0, c))]
        0 <= i < pts.len() && 0 <= j < pts.len() && pts[i].0 == pts[j].0 && pts[i].1 < c < pts[j].1 ==> pts.contains(
            (pts[i].0, c),
        )
}

/// Moving distinct cells: each moved cell holds the value of the cell it came
/// from, a cell that was left holds 0, and every other cell keeps its value.
pub proof fn lemma_moved_board_cells(b: Seq<Seq<u8>>, pts: Seq<Point>, d: char)
    requires
        is_grid(b),
        all_in_bounds(pts),
        pts.no_duplicates(),
        valid_direction(d),
        movable(b, pts, d),
    ensures
        is_grid(moved_board(b, pts, d)),
        all_in_bounds(shifted(pts, d)),
        shifted(pts, d).no_duplicates(),
        forall|i: int| 0 <= i < pts.len() ==> #[trigger] cell(moved_board(b, pts, d), shifted(pts, d)[i]) == cell(b, pts[i]),
        forall|q: Point|
            in_bounds(q) && !shifted(pts, d).contains(q) ==> #[trigger] cell(moved_board(b, pts, d), q) == if pts.contains(q) {
                0
            } else {
                cell(b, q)
            },
{
    lemma_shift_in_bounds(b, pts, d);
    let sh = shifted(pts, d);
    assert(sh.no_duplicates()) by {
        assert forall|a: int, c: int| 0 <= a < sh.len() && 0 <= c < sh.len() && a != c implies sh[a] != sh[c] by {
            assert(can_step(pts[a], d) && can_step(pts[c], d));
            assert(pts[a] != pts[c]);
        }
    }
    lemma_lift_cells_grid(b, pts);
    lemma_lift_distinct(b, pts);
    lemma_fill_cells_grid(b, pts, 0);
    let l = lift_cells(b, pts);
    lemma_write_distinct(l.0, sh, l.1);
}

/// A sideways move is undone by the opposite move: when a piece without gaps
/// in its rows moves one cell right (or left), it can then move one cell back,
/// and the field, the piece and the centre are as they were.
pub proof fn law_sideways_move_undone(b: Seq<Seq<u8>>, pts: Seq<Point>, d: char, c: (i64, i64))
    requires
        is_grid(b),
        all_in_bounds(pts),
        pts.no_duplicates(),
        rows_gap_free(pts),
        d == 'R' || d == 'L',
        movable(b, pts, d),
        center_in_range(c),
    ensures
        movable(moved_board(b, pts, d), shifted(pts, d), opposite(d)),
        moved_board(moved_board(b, pts, d), shifted(pts, d), opposite(d)) == b,
        shifted(shifted(pts, d), opposite(d)) == pts,
        moved_center(moved_center(c, d), opposite(d)) == c,
{
    let e = opposite(d);
    let b1 = moved_board(b, pts, d);
    let p1 = shifted(pts, d);
    lemma_moved_board_cells(b, pts, d);
    assert forall|k: int| 0 <= k < pts.len() implies #[trigger] can_step(pts[k], d) by {
        lemma_shift_in_bounds(b, pts, d);
    }
    assert(shifted(p1, e) =~= pts) by {
        assert forall|k: int| 0 <= k < pts.len() implies shifted(p1, e)[k] == pts[k] by {
            assert(can_step(pts[k], d));
        }
    }
    assert(movable(b1, p1, e)) by {
        assert forall|i: int| 0 <= i < p1.len() && is_side(p1, #[trigger] p1[i], e) implies side_free(b1, p1[i], e) by {
            let q = p1[i];
            let pi = pts[i];
            assert(can_step(pi, d));
            assert(!p1.contains(pi)) by {
                if p1.contains(pi) {
                    let k = choose|k: int| 0 <= k < p1.len() && p1[k] == pi;
                    assert(line_of(p1[k], e) == line_of(q, e));
                    assert(beyond(p1[k], q, e));
                }
            }
            assert(pts.contains(pi)) by { assert(pts[i] == pi); }
            assert(cell(b1, pi) == 0);
        }
    }
    lemma_moved_board_cells(b1, p1, e);
    let b2 = moved_board(b1, p1, e);
    assert forall|q: Point| in_bounds(q) implies #[trigger] cell(b2, q) == cell(b, q) by {
        if pts.contains(q) {
            let i = choose|i: int| 0 <= i < pts.len() && pts[i] == q;
            assert(shifted(p1, e)[i] == q);
            assert(cell(b2, q) == cell(b1, p1[i]));
            assert(cell(b1, p1[i]) == cell(b, pts[i]));
        } else {
            assert(!shifted(p1, e).contains(q));
            if p1.contains(q) {
                let k = choose|k: int| 0 <= k < p1.len() && p1[k] == q;
                assert(can_step(pts[k], d));
                assert(is_side(pts, pts[k], d)) by {
                    assert forall|j: int| 0 <= j < pts.len() && line_of(#[trigger] pts[j], d) == line_of(pts[k], d) implies !beyond(
                        pts[j],
                        pts[k],
                        d,
                    ) by {
                        if beyond(pts[j], pts[k], d) {
                            if q == pts[j] {
                                assert(pts.contains(q));
                            } else if d == 'R' {
                                assert(pts.contains((pts[k].0, q.1)));
                            } else {
                                assert(pts.contains((pts[j].0, q.1)));
                            }
                        }
                    }
                }
                assert(side_free(b, pts[k], d));
            }
        }
    }
    lemma_grid_ext(b2, b);
}

/// Setting cells that already hold `v` to `v` changes nothing: a turn that is
/// refused leaves the field as it was when the piece's cells hold the current
/// shape's value.
pub proof fn law_refill_keeps_board(b: Seq<Seq<u8>>, pts: Seq<Point>, v: u8)
    requires
        is_grid(b),
        all_in_bounds(pts),
        forall|k: int| 0 <= k < pts.len() ==> #[trigger] cell(b, pts[k]) == v,
    ensures
        fill_cells(b, pts, v) == b,
{
    lemma_fill_cells_grid(b, pts, v);
    assert forall|q: Point| in_bounds(q) implies #[trigger] cell(fill_cells(b, pts, v), q) == cell(b, q) by {
        if pts.contains(q) {
            let k = choose|k: int| 0 <= k < pts.len() && pts[k] == q;
            assert(cell(b, pts[k]) == v);
        }
    }
    lemma_grid_ext(fill_cells(b, pts, v), b);
}

/// Reading a cell after writing it gives the value written; the other cells
/// keep their values.
pub proof fn law_get_after_set<T>(s: Seq<Seq<T>>, i: int, j: int, x: T)
    requires
        0 <= i < s.len(),
        0 <= j < s[i].len(),
    ensures
        s.update(i, s[i].update(j, x))[i][j] == x,
        forall|a: int, c: int|
            0 <= a < s.len() && 0 <= c < s[a].len() && (a != i || c != j) ==> #[trigger] s.update(i, s[i].update(j, x))[a][c]
                == s[a][c],
{
}


/// A piece that is dropped comes to rest: once the drop ends, the piece cannot
/// move down any further, and it is still inside the field.
pub proof fn law_drop_comes_to_rest(b: Seq<Seq<u8>>, pts: Seq<Point>, fuel: nat)
    requires
        is_grid(b),
        all_in_bounds(pts),
        pts.len() > 0,
        fuel + pts[0].0 >= ROWS,
    ensures
        is_grid(settle(b, pts, fuel).0),
        all_in_bounds(settle(b, pts, fuel).1),
        settle(b, pts, fuel).1.len() == pts.len(),
        !movable(settle(b, pts, fuel).0, settle(b, pts, fuel).1, 'D'),
    decreases fuel,
{
    if movable(b, pts, 'D') {
        lemma_shift_in_bounds(b, pts, 'D');
        assert(can_step(pts[0], 'D'));
        assert(fuel > 0) by {
            assert(in_bounds(pts[0]));
        }
        lemma_lift_cells_grid(b, pts);
        lemma_write_cells_grid(lift_cells(b, pts).0, shifted(pts, 'D'), lift_cells(b, pts).1);
        assert(shifted(pts, 'D')[0].0 == pts[0].0 + 1);
        law_drop_comes_to_rest(moved_board(b, pts, 'D'), shifted(pts, 'D'), (fuel - 1) as nat);
    }
}

/// The row of zeros.
pub open spec fn zero_row() -> Seq<u8> {
    Seq::new(COLS as nat, |_j: int| 0u8)
}

/// A whole row that can move down moves down: the row below takes its cells and
/// the row itself becomes zeros.
pub proof fn lemma_line_moves_down(b: Seq<Seq<u8>>, i: usize)
    requires
        is_grid(b),
        i < ROWS,
        movable(b, line_points(i), 'D'),
    ensures
        i + 1 < ROWS,
        moved_board(b, line_points(i), 'D') == b.update(i + 1, b[i as int]).update(i as int, zero_row()),
        shifted(line_points(i), 'D') == line_points((i + 1) as usize),
{
    let pts = line_points(i);
    assert(all_in_bounds(pts));
    assert(pts.no_duplicates());
    assert(is_side(pts, pts[0], 'D'));
    assert(side_free(b, pts[0], 'D'));
    lemma_moved_board_cells(b, pts, 'D');
    assert(shifted(pts, 'D') =~= line_points((i + 1) as usize));
    let m = moved_board(b, pts, 'D');
    let e = b.update(i + 1, b[i as int]).update(i as int, zero_row());
    assert(is_grid(e));
    assert forall|q: Point| in_bounds(q) implies #[trigger] cell(m, q) == cell(e, q) by {
        if q.0 == i + 1 {
            assert(shifted(pts, 'D')[q.1 as int] == q);
            assert(cell(m, q) == cell(b, pts[q.1 as int]));
        } else if q.0 == i {
            assert(pts[q.1 as int] == q);
            assert(!shifted(pts, 'D').contains(q));
        } else {
            assert(!shifted(pts, 'D').contains(q));
            assert(!pts.contains(q));
        }
    }
    lemma_grid_ext(m, e);
}

/// Dropping a whole row keeps the field free of full rows.
pub proof fn lemma_settle_line_no_full_row(b: Seq<Seq<u8>>, i: usize, fuel: nat)
    requires
        is_grid(b),
        i < ROWS,
        !has_full_row(b),
    ensures
        is_grid(settle(b, line_points(i), fuel).0),
        !has_full_row(settle(b, line_points(i), fuel).0),
    decreases fuel,
{
    if fuel > 0 && movable(b, line_points(i), 'D') {
        lemma_line_moves_down(b, i);
        let m = b.update(i + 1, b[i as int]).update(i as int, zero_row());
        assert(!has_full_row(m)) by {
            assert forall|r: int| 0 <= r < ROWS implies !#[trigger] full_row(m, r) by {
                if r == i {
                    assert(m[r][0] == 0);
                } else if r == i + 1 {
                    assert(!full_row(b, i as int));
                } else {
                    assert(!full_row(b, r));
                }
            }
        }
        lemma_settle_line_no_full_row(m, (i + 1) as usize, (fuel - 1) as nat);
    }
}

/// Dropping rows keeps the field free of full rows.
pub proof fn lemma_sweep_no_full_row(b: Seq<Seq<u8>>, n: nat)
    requires
        is_grid(b),
        n <= ROWS,
        !has_full_row(b),
    ensures
        is_grid(sweep(b, n).0),
        !has_full_row(sweep(b, n).0),
    decreases n,
{
    if n > 0 {
        lemma_settle_line_no_full_row(b, (n - 1) as usize, ROWS as nat);
        lemma_sweep_no_full_row(settle(b, line_points((n - 1) as usize), ROWS as nat).0, (n - 1) as nat);
    }
}

/// After the full rows are cleared, no row of the field is full.
pub proof fn law_no_full_row_after_clearing(b: Seq<Seq<u8>>)
    requires
        is_grid(b),
    ensures
        !has_full_row(if has_full_row(b) { sweep(cleared_rows(b), ROWS as nat).0 } else { b }),
{
    if has_full_row(b) {
        let c = cleared_rows(b);
        assert(is_grid(c));
        assert(!has_full_row(c)) by {
            assert forall|r: int| 0 <= r < ROWS implies !#[trigger] full_row(c, r) by {
                if full_row(b, r) {
                    assert(c[r][0] == 0);
                } else {
                    assert(c[r] == b[r]);
                    let j = choose|j: int| 0 <= j < COLS && !(#[trigger] b[r][j] != 0);
                    assert(c[r][j] == 0);
                }
            }
        }
        lemma_sweep_no_full_row(c, ROWS as nat);
    }
}

} // verus!
