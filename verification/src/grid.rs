use vstd::prelude::*;

verus! {

/// Rows of the playing field.
pub const ROWS: usize = 22;

/// Columns of the playing field.
pub const COLS: usize = 10;

/// A cell of the playing field: `(row, column)`, row 0 at the top.
pub type Point = (usize, usize);

/// `b` has the shape of the playing field.
pub open spec fn is_grid(b: Seq<Seq<u8>>) -> bool {
    &&& b.len() == ROWS
    &&& forall|i: int| 0 <= i < ROWS ==> #[trigger] b[i].len() == COLS
}

/// `p` names a cell of the playing field.
pub open spec fn in_bounds(p: Point) -> bool {
    p.0 < ROWS && p.1 < COLS
}

/// Every point of `pts` names a cell of the playing field.
pub open spec fn all_in_bounds(pts: Seq<Point>) -> bool {
    forall|k: int| 0 <= k < pts.len() ==> in_bounds(#[trigger] pts[k])
}

/// The value held by cell `p` of `b`.
pub open spec fn cell(b: Seq<Seq<u8>>, p: Point) -> u8 {
    b[p.0 as int][p.1 as int]
}

/// `b` with cell `p` set to `v`.
pub open spec fn set_cell(b: Seq<Seq<u8>>, p: Point, v: u8) -> Seq<Seq<u8>> {
    b.update(p.0 as int, b[p.0 as int].update(p.1 as int, v))
}

/// `b` with the cells of `pts` set to `v`, one after the other.
pub open spec fn fill_cells(b: Seq<Seq<u8>>, pts: Seq<Point>, v: u8) -> Seq<Seq<u8>>
    decreases pts.len(),
{
    if pts.len() == 0 {
        b
    } else {
        set_cell(fill_cells(b, pts.drop_last(), v), pts.last(), v)
    }
}

/// `b` with cell `pts[k]` set to `vals[k]`, for `k` in order.
pub open spec fn write_cells(b: Seq<Seq<u8>>, pts: Seq<Point>, vals: Seq<u8>) -> Seq<Seq<u8>>
    decreases pts.len(),
{
    if pts.len() == 0 {
        b
    } else {
        set_cell(write_cells(b, pts.drop_last(), vals.drop_last()), pts.last(), vals.last())
    }
}

/// Lifting the cells of `pts` off `b` one after the other: each cell's value is
/// read and the cell is cleared. Gives the cleared board and the values read.
pub open spec fn lift_cells(b: Seq<Seq<u8>>, pts: Seq<Point>) -> (Seq<Seq<u8>>, Seq<u8>)
    decreases pts.len(),
{
    if pts.len() == 0 {
        (b, Seq::empty())
    } else {
        let r = lift_cells(b, pts.drop_last());
        (set_cell(r.0, pts.last(), 0), r.1.push(cell(r.0, pts.last())))
    }
}


/// The rows of the points of `pts`.
pub open spec fn rows_of(pts: Seq<Point>) -> Seq<usize> {
    pts.map_values(|p: Point| p.0)
}

/// The columns of the points of `pts`.
pub open spec fn cols_of(pts: Seq<Point>) -> Seq<usize> {
    pts.map_values(|p: Point| p.1)
}

/// The smallest value of a non-empty sequence.
pub open spec fn seq_min(vals: Seq<usize>) -> usize
    decreases vals.len(),
{
    if vals.len() <= 1 {
        vals[0]
    } else {
        let m = seq_min(vals.drop_last());
        if vals.last() < m {
            vals.last()
        } else {
            m
        }
    }
}

/// The largest value of a non-empty sequence.
pub open spec fn seq_max(vals: Seq<usize>) -> usize
    decreases vals.len(),
{
    if vals.len() <= 1 {
        vals[0]
    } else {
        let m = seq_max(vals.drop_last());
        if vals.last() > m {
            vals.last()
        } else {
            m
        }
    }
}

pub proof fn lemma_seq_min_max(vals: Seq<usize>)
    requires
        vals.len() > 0,
    ensures
        vals.contains(seq_min(vals)),
        vals.contains(seq_max(vals)),
        forall|k: int| 0 <= k < vals.len() ==> seq_min(vals) <= #[trigger] vals[k] <= seq_max(vals),
    decreases vals.len(),
{
    if vals.len() > 1 {
        let prev = vals.drop_last();
        lemma_seq_min_max(prev);
        assert forall|k: int| 0 <= k < vals.len() implies seq_min(vals) <= #[trigger] vals[k] <= seq_max(vals) by {
            if k < vals.len() - 1 {
                assert(vals[k] == prev[k]);
            }
        }
        let a = choose|k: int| 0 <= k < prev.len() && prev[k] == seq_min(prev);
        let c = choose|k: int| 0 <= k < prev.len() && prev[k] == seq_max(prev);
        assert(vals[a] == prev[a]);
        assert(vals[c] == prev[c]);
        assert(vals[vals.len() - 1] == vals.last());
    } else {
        assert(vals[0] == seq_min(vals));
    }
}

/// Row `r` of `b` is full: none of its cells holds 0.
pub open spec fn full_row(b: Seq<Seq<u8>>, r: int) -> bool {
    forall|j: int| 0 <= j < COLS ==> #[trigger] b[r][j] != 0
}

/// Whether a cell value is chosen: `Some(v)` chooses the value `v`, `None` every
/// value other than 0.
pub open spec fn selects(sel: Option<u8>, v: u8) -> bool {
    match sel {
        Some(x) => v == x,
        None => v != 0,
    }
}

/// The cells of row `r` of `b` among its first `c` columns whose value `sel`
/// chooses, from left to right.
pub open spec fn row_cells(b: Seq<Seq<u8>>, sel: Option<u8>, r: nat, c: nat) -> Seq<Point>
    decreases c,
{
    if c == 0 {
        Seq::empty()
    } else {
        let prev = row_cells(b, sel, r, (c - 1) as nat);
        if selects(sel, b[r as int][c - 1]) {
            prev.push((r as usize, (c - 1) as usize))
        } else {
            prev
        }
    }
}

/// The cells of the first `n` rows of `b` whose value `sel` chooses, row by row
/// from the top, each row from left to right.
pub open spec fn field_cells(b: Seq<Seq<u8>>, sel: Option<u8>, n: nat) -> Seq<Point>
    decreases n,
{
    if n == 0 {
        Seq::empty()
    } else {
        field_cells(b, sel, (n - 1) as nat) + row_cells(b, sel, (n - 1) as nat, COLS as nat)
    }
}

/// Cell `q` comes before cell `p` in reading order (row by row, left to right).
pub open spec fn reads_before(q: Point, p: Point) -> bool {
    q.0 < p.0 || (q.0 == p.0 && q.1 < p.1)
}

pub proof fn lemma_set_cell_grid(b: Seq<Seq<u8>>, p: Point, v: u8)
    requires
        is_grid(b),
        in_bounds(p),
    ensures
        is_grid(set_cell(b, p, v)),
        cell(set_cell(b, p, v), p) == v,
        forall|q: Point| in_bounds(q) && q != p ==> #[trigger] cell(set_cell(b, p, v), q) == cell(b, q),
{
}

pub proof fn lemma_fill_cells_grid(b: Seq<Seq<u8>>, pts: Seq<Point>, v: u8)
    requires
        is_grid(b),
        all_in_bounds(pts),
    ensures
        is_grid(fill_cells(b, pts, v)),
        forall|q: Point|
            #![trigger cell(fill_cells(b, pts, v), q)]
            in_bounds(q) ==> cell(fill_cells(b, pts, v), q) == if pts.contains(q) {
                v
            } else {
                cell(b, q)
            },
    decreases pts.len(),
{
    if pts.len() > 0 {
        let prev = pts.drop_last();
        lemma_fill_cells_grid(b, prev, v);
        lemma_set_cell_grid(fill_cells(b, prev, v), pts.last(), v);
        assert forall|q: Point| in_bounds(q) implies #[trigger] cell(fill_cells(b, pts, v), q) == if pts.contains(q) {
            v
        } else {
            cell(b, q)
        } by {
            if q == pts.last() {
                assert(pts.contains(q)) by { assert(pts[pts.len() - 1] == q); }
            } else {
                assert(pts.contains(q) == prev.contains(q)) by {
                    if pts.contains(q) {
                        let k = choose|k: int| 0 <= k < pts.len() && pts[k] == q;
                        assert(prev[k] == q);
                    }
                    if prev.contains(q) {
                        let k = choose|k: int| 0 <= k < prev.len() && prev[k] == q;
                        assert(pts[k] == q);
                    }
                }
            }
        }
    }
}

pub proof fn lemma_write_cells_grid(b: Seq<Seq<u8>>, pts: Seq<Point>, vals: Seq<u8>)
    requires
        is_grid(b),
        all_in_bounds(pts),
        vals.len() == pts.len(),
    ensures
        is_grid(write_cells(b, pts, vals)),
    decreases pts.len(),
{
    if pts.len() > 0 {
        lemma_write_cells_grid(b, pts.drop_last(), vals.drop_last());
        lemma_set_cell_grid(write_cells(b, pts.drop_last(), vals.drop_last()), pts.last(), vals.last());
    }
}

pub proof fn lemma_lift_cells_grid(b: Seq<Seq<u8>>, pts: Seq<Point>)
    requires
        is_grid(b),
        all_in_bounds(pts),
    ensures
        is_grid(lift_cells(b, pts).0),
        lift_cells(b, pts).1.len() == pts.len(),
        lift_cells(b, pts).0 == fill_cells(b, pts, 0),
    decreases pts.len(),
{
    if pts.len() > 0 {
        lemma_lift_cells_grid(b, pts.drop_last());
        lemma_set_cell_grid(lift_cells(b, pts.drop_last()).0, pts.last(), 0);
    }
}


/// Lifting distinct cells reads each cell's own value.
pub proof fn lemma_lift_distinct(b: Seq<Seq<u8>>, pts: Seq<Point>)
    requires
        is_grid(b),
        all_in_bounds(pts),
        pts.no_duplicates(),
    ensures
        lift_cells(b, pts).1.len() == pts.len(),
        forall|i: int| 0 <= i < pts.len() ==> #[trigger] lift_cells(b, pts).1[i] == cell(b, pts[i]),
    decreases pts.len(),
{
    if pts.len() > 0 {
        let prev = pts.drop_last();
        assert(prev.no_duplicates()) by {
            assert forall|a: int, c: int| 0 <= a < prev.len() && 0 <= c < prev.len() && a != c implies prev[a] != prev[c] by {
                assert(prev[a] == pts[a] && prev[c] == pts[c]);
            }
        }
        lemma_lift_distinct(b, prev);
        lemma_lift_cells_grid(b, prev);
        lemma_fill_cells_grid(b, prev, 0);
        assert(!prev.contains(pts.last())) by {
            if prev.contains(pts.last()) {
                let k = choose|k: int| 0 <= k < prev.len() && prev[k] == pts.last();
                assert(pts[k] == pts[pts.len() - 1]);
            }
        }
        assert(in_bounds(pts.last())) by { assert(pts.last() == pts[pts.len() - 1]); }
        let r = lift_cells(b, prev);
        assert forall|i: int| 0 <= i < pts.len() implies #[trigger] lift_cells(b, pts).1[i] == cell(b, pts[i]) by {
            if i < pts.len() - 1 {
                assert(lift_cells(b, pts).1[i] == r.1[i]);
                assert(pts[i] == prev[i]);
            }
        }
    }
}

/// Writing to distinct cells: each written cell holds its value and every
/// other cell keeps its own.
pub proof fn lemma_write_distinct(b: Seq<Seq<u8>>, pts: Seq<Point>, vals: Seq<u8>)
    requires
        is_grid(b),
        all_in_bounds(pts),
        pts.no_duplicates(),
        vals.len() == pts.len(),
    ensures
        is_grid(write_cells(b, pts, vals)),
        forall|i: int| 0 <= i < pts.len() ==> #[trigger] cell(write_cells(b, pts, vals), pts[i]) == vals[i],
        forall|q: Point| in_bounds(q) && !pts.contains(q) ==> #[trigger] cell(write_cells(b, pts, vals), q) == cell(b, q),
    decreases pts.len(),
{
    lemma_write_cells_grid(b, pts, vals);
    if pts.len() > 0 {
        let prev = pts.drop_last();
        let pv = vals.drop_last();
        assert(prev.no_duplicates()) by {
            assert forall|a: int, c: int| 0 <= a < prev.len() && 0 <= c < prev.len() && a != c implies prev[a] != prev[c] by {
                assert(prev[a] == pts[a] && prev[c] == pts[c]);
            }
        }
        lemma_write_distinct(b, prev, pv);
        let w = write_cells(b, prev, pv);
        assert(in_bounds(pts.last())) by { assert(pts.last() == pts[pts.len() - 1]); }
        lemma_set_cell_grid(w, pts.last(), vals.last());
        assert forall|i: int| 0 <= i < pts.len() implies #[trigger] cell(write_cells(b, pts, vals), pts[i]) == vals[i] by {
            if i < pts.len() - 1 {
                assert(pts[i] == prev[i]);
                assert(pts[i] != pts[pts.len() - 1]);
                assert(vals[i] == pv[i]);
            }
        }
        assert forall|q: Point| in_bounds(q) && !pts.contains(q) implies #[trigger] cell(write_cells(b, pts, vals), q) == cell(b, q) by {
            assert(q != pts.last()) by {
                if q == pts.last() {
                    assert(pts[pts.len() - 1] == q);
                }
            }
            assert(!prev.contains(q)) by {
                if prev.contains(q) {
                    let k = choose|k: int| 0 <= k < prev.len() && prev[k] == q;
                    assert(pts[k] == q);
                }
            }
        }
    }
}

} // verus!
