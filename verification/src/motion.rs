use vstd::prelude::*;
use crate::grid::{
    all_in_bounds, cell, in_bounds, is_grid, lemma_lift_cells_grid, lemma_seq_min_max, lemma_set_cell_grid,
    lemma_write_cells_grid, lift_cells, rows_of, seq_min, write_cells, Point, COLS, ROWS,
};
use crate::stacking::{law_clearing_stacks_rows, stacked};
use crate::tetris::{center_in_range, Tetris, Undroppable, CENTER_LIMIT};

verus! {

/// The directions a piece can be moved in: down, right and left.
pub open spec fn valid_direction(d: char) -> bool {
    d == 'D' || d == 'R' || d == 'L'
}

/// The line of `p` across the direction of motion: its column when moving
/// down, its row when moving sideways.
pub open spec fn line_of(p: Point, d: char) -> usize {
    if d == 'D' {
        p.1
    } else {
        p.0
    }
}

/// `q` lies further than `p` in direction `d`.
pub open spec fn beyond(q: Point, p: Point, d: char) -> bool {
    if d == 'D' {
        q.0 > p.0
    } else if d == 'R' {
        q.1 > p.1
    } else {
        q.1 < p.1
    }
}

/// `p` is a leading cell of `pts` in direction `d`: no point of `pts` on its
/// line lies beyond it.
pub open spec fn is_side(pts: Seq<Point>, p: Point, d: char) -> bool {
    forall|k: int| 0 <= k < pts.len() && line_of(#[trigger] pts[k], d) == line_of(p, d) ==> !beyond(pts[k], p, d)
}

/// The cell next to `p` in direction `d` lies in the field.
pub open spec fn ahead_in_field(p: Point, d: char) -> bool {
    if d == 'D' {
        p.0 + 1 < ROWS && p.1 < COLS
    } else if d == 'R' {
        p.0 < ROWS && p.1 + 1 < COLS
    } else {
        p.0 < ROWS && 0 < p.1 <= COLS
    }
}

/// `p` touches the wall, or the floor, that it would move through.
pub open spec fn at_edge(p: Point, d: char) -> bool {
    if d == 'D' {
        p.0 == ROWS - 1
    } else if d == 'R' {
        p.1 == COLS - 1
    } else {
        p.1 == 0
    }
}

/// The cell next to `p` in direction `d` exists and holds 0.
pub open spec fn side_free(b: Seq<Seq<u8>>, p: Point, d: char) -> bool {
    ahead_in_field(p, d) && if d == 'D' {
        b[p.0 + 1][p.1 as int] == 0
    } else if d == 'R' {
        b[p.0 as int][p.1 + 1] == 0
    } else {
        b[p.0 as int][p.1 - 1] == 0
    }
}

/// Looking at the cell ahead of `p` would read outside the field: `p` is not
/// at the edge it moves through, yet the cell ahead of it is not in the field.
pub open spec fn reads_outside(p: Point, d: char) -> bool {
    !at_edge(p, d) && !ahead_in_field(p, d)
}

/// The line of `pts[j]` first shows up in `pts` before the line of `pts[i]`
/// does, and the leading cell `pts[j]` of its line is blocked.
pub open spec fn blocked_before(b: Seq<Seq<u8>>, pts: Seq<Point>, d: char, i: int) -> bool {
    exists|j: int, k: int|
        #![trigger pts[j], pts[k]]
        0 <= j < pts.len() && 0 <= k < pts.len() && is_side(pts, pts[j], d) && !side_free(b, pts[j], d)
            && line_of(pts[k], d) == line_of(pts[j], d) && forall|m: int|
            0 <= m <= k ==> line_of(#[trigger] pts[m], d) != line_of(pts[i], d)
}

/// The leading cells of `pts` are looked at line by line, in the order in which
/// the lines first show up in `pts`, and the look stops at the first blocked
/// one: it never reads outside the field.
pub open spec fn scan_in_field(b: Seq<Seq<u8>>, pts: Seq<Point>, d: char) -> bool {
    forall|i: int|
        0 <= i < pts.len() && is_side(pts, #[trigger] pts[i], d) && reads_outside(pts[i], d) ==> blocked_before(
            b,
            pts,
            d,
            i,
        )
}

/// `pts[k]` is the first point of `pts` on line `v`.
pub open spec fn first_on_line(pts: Seq<Point>, d: char, v: usize, k: int) -> bool {
    &&& 0 <= k < pts.len()
    &&& line_of(pts[k], d) == v
    &&& forall|j: int| 0 <= j < k ==> line_of(#[trigger] pts[j], d) != v
}

/// The piece `pts` can move one cell in direction `d`: the cell ahead of each of
/// its leading cells is free.
pub open spec fn movable(b: Seq<Seq<u8>>, pts: Seq<Point>, d: char) -> bool {
    forall|i: int| 0 <= i < pts.len() && is_side(pts, #[trigger] pts[i], d) ==> side_free(b, pts[i], d)
}

/// `p` moved one cell in direction `d`.
pub open spec fn step(p: Point, d: char) -> Point {
    if d == 'D' {
        ((p.0 + 1) as usize, p.1)
    } else if d == 'R' {
        (p.0, (p.1 + 1) as usize)
    } else {
        (p.0, (p.1 - 1) as usize)
    }
}

/// Every point of `pts` moved one cell in direction `d`.
pub open spec fn shifted(pts: Seq<Point>, d: char) -> Seq<Point> {
    pts.map_values(|p: Point| step(p, d))
}

/// The field after the piece `pts` moves in direction `d`: its cells are lifted
/// off one after the other, then each value read is written to the moved cell.
pub open spec fn moved_board(b: Seq<Seq<u8>>, pts: Seq<Point>, d: char) -> Seq<Seq<u8>> {
    let l = lift_cells(b, pts);
    write_cells(l.0, shifted(pts, d), l.1)
}

/// The centre `c` (in half cells) moved one cell in direction `d`.
pub open spec fn moved_center(c: (i64, i64), d: char) -> (i64, i64) {
    if d == 'D' {
        ((c.0 + 2) as i64, c.1)
    } else if d == 'R' {
        (c.0, (c.1 + 2) as i64)
    } else {
        (c.0, (c.1 - 2) as i64)
    }
}

/// The centre `c` moved one cell in direction `d` stays within `CENTER_LIMIT`.
pub open spec fn center_step_in_range(c: (i64, i64), d: char) -> bool {
    if d == 'D' {
        c.0 + 2 <= CENTER_LIMIT
    } else if d == 'R' {
        c.1 + 2 <= CENTER_LIMIT
    } else {
        c.1 - 2 >= -CENTER_LIMIT
    }
}

/// Some point of `pts` lies in the top row.
pub open spec fn touches_top(pts: Seq<Point>) -> bool {
    exists|k: int| 0 <= k < pts.len() && (#[trigger] pts[k]).0 == 0
}

/// `u` reports the piece `pts`, as lost when `lost` holds and as blocked otherwise.
pub open spec fn reports(u: Undroppable, pts: Seq<Point>, lost: bool) -> bool {
    match u {
        Undroppable::Lost(v) => lost && v@ == pts,
        Undroppable::Immovable(v) => !lost && v@ == pts,
    }
}

/// Moving `pts` down on `b` while it can move, at most `fuel` times: the field,
/// the piece and the number of moves made.
pub open spec fn settle(b: Seq<Seq<u8>>, pts: Seq<Point>, fuel: nat) -> (Seq<Seq<u8>>, Seq<Point>, nat)
    decreases fuel,
{
    if fuel == 0 || !movable(b, pts, 'D') {
        (b, pts, 0)
    } else {
        let r = settle(moved_board(b, pts, 'D'), shifted(pts, 'D'), (fuel - 1) as nat);
        (r.0, r.1, r.2 + 1)
    }
}

/// The centre after `n` moves down from `c`; unchanged when there were none.
pub open spec fn center_after_drops(c: Option<(i64, i64)>, n: nat) -> Option<(i64, i64)> {
    if n == 0 {
        c
    } else {
        Some(((c.unwrap().0 + 2 * n) as i64, c.unwrap().1))
    }
}

/// The centre allows `n` moves down: when there is any, the centre exists and
/// stays within `CENTER_LIMIT`.
pub open spec fn center_allows_drops(c: Option<(i64, i64)>, n: nat) -> bool {
    n > 0 ==> (c matches Some(v) && v.0 + 2 * n <= CENTER_LIMIT)
}

/// Row `r` of the field with every cell set to 0 when the row is full.
pub open spec fn cleared_rows(b: Seq<Seq<u8>>) -> Seq<Seq<u8>> {
    Seq::new(
        b.len(),
        |r: int| if crate::grid::full_row(b, r) { Seq::new(COLS as nat, |_j: int| 0u8) } else { b[r] },
    )
}

/// Dropping rows `n - 1`, `n - 2`, ..., `0` of `b` in turn, each as a whole: the
/// field and the total number of moves made.
pub open spec fn sweep(b: Seq<Seq<u8>>, n: nat) -> (Seq<Seq<u8>>, nat)
    decreases n,
{
    if n == 0 {
        (b, 0)
    } else {
        let s = settle(b, crate::tetris::line_points((n - 1) as usize), ROWS as nat);
        let r = sweep(s.0, (n - 1) as nat);
        (r.0, r.1 + s.2)
    }
}

/// The full rows of the field.
pub open spec fn full_rows(b: Seq<Seq<u8>>) -> Set<usize> {
    Set::new(|r: usize| r < ROWS && crate::grid::full_row(b, r as int))
}

/// Some row of the field is full.
pub open spec fn has_full_row(b: Seq<Seq<u8>>) -> bool {
    exists|r: int| 0 <= r < ROWS && #[trigger] crate::grid::full_row(b, r)
}

/// The index of a point on the line of `pts[i]` that lies furthest in direction
/// `d` among the first `n` points (and `pts[i]` itself).
pub open spec fn far_index(pts: Seq<Point>, d: char, i: int, n: nat) -> int
    decreases n,
{
    if n == 0 {
        i
    } else {
        let f = far_index(pts, d, i, (n - 1) as nat);
        if line_of(pts[n - 1], d) == line_of(pts[i], d) && beyond(pts[n - 1], pts[f], d) {
            n - 1
        } else {
            f
        }
    }
}

proof fn lemma_far_index(pts: Seq<Point>, d: char, i: int, n: nat)
    requires
        0 <= i < pts.len(),
        n <= pts.len(),
    ensures
        0 <= far_index(pts, d, i, n) < pts.len(),
        line_of(pts[far_index(pts, d, i, n)], d) == line_of(pts[i], d),
        forall|k: int|
            0 <= k < n && line_of(#[trigger] pts[k], d) == line_of(pts[i], d) ==> !beyond(
                pts[k],
                pts[far_index(pts, d, i, n)],
                d,
            ),
        pts[far_index(pts, d, i, n)] == pts[i] || beyond(pts[far_index(pts, d, i, n)], pts[i], d),
    decreases n,
{
    if n > 0 {
        lemma_far_index(pts, d, i, (n - 1) as nat);
    }
}

/// Each point of `pts` has a leading cell on its line at least as far ahead.
proof fn lemma_leading_cell(pts: Seq<Point>, d: char, i: int)
    requires
        0 <= i < pts.len(),
    ensures
        exists|f: int|
            0 <= f < pts.len() && is_side(pts, #[trigger] pts[f], d) && line_of(pts[f], d) == line_of(pts[i], d) && (
            pts[f] == pts[i] || beyond(pts[f], pts[i], d)),
{
    lemma_far_index(pts, d, i, pts.len());
    let f = far_index(pts, d, i, pts.len());
    assert(is_side(pts, pts[f], d));
}

/// `p` can move one cell in direction `d` without leaving the field.
pub open spec fn can_step(p: Point, d: char) -> bool {
    if d == 'D' {
        p.0 + 1 < ROWS
    } else if d == 'R' {
        p.1 + 1 < COLS
    } else {
        p.1 > 0
    }
}

/// A point of `pts` that is a leading cell of `pts` in direction `d`.
pub open spec fn is_leading_point(pts: Seq<Point>, p: Point, d: char) -> bool {
    (exists|k: int| 0 <= k < pts.len() && pts[k] == p) && is_side(pts, p, d)
}

/// A movable piece stays inside the field when it moves.
pub proof fn lemma_shift_in_bounds(b: Seq<Seq<u8>>, pts: Seq<Point>, d: char)
    requires
        is_grid(b),
        all_in_bounds(pts),
        valid_direction(d),
        movable(b, pts, d),
    ensures
        all_in_bounds(shifted(pts, d)),
        shifted(pts, d).len() == pts.len(),
        forall|k: int| 0 <= k < pts.len() ==> can_step(#[trigger] pts[k], d),
{
    assert forall|k: int| 0 <= k < pts.len() implies in_bounds(#[trigger] shifted(pts, d)[k]) && can_step(pts[k], d) by {
        lemma_leading_cell(pts, d, k);
        let f = choose|f: int|
            0 <= f < pts.len() && is_side(pts, #[trigger] pts[f], d) && line_of(pts[f], d) == line_of(pts[k], d) && (
            pts[f] == pts[k] || beyond(pts[f], pts[k], d));
        assert(side_free(b, pts[f], d));
        assert(in_bounds(pts[k]));
    }
}

/// A piece settles in at most `fuel` moves.
pub proof fn lemma_settle_count(b: Seq<Seq<u8>>, pts: Seq<Point>, fuel: nat)
    ensures
        settle(b, pts, fuel).2 <= fuel,
    decreases fuel,
{
    if fuel > 0 && movable(b, pts, 'D') {
        lemma_settle_count(moved_board(b, pts, 'D'), shifted(pts, 'D'), (fuel - 1) as nat);
    }
}

/// Dropping `n` rows makes at most `ROWS * n` moves.
pub proof fn lemma_sweep_count(b: Seq<Seq<u8>>, n: nat)
    ensures
        sweep(b, n).1 <= ROWS * n,
    decreases n,
{
    if n > 0 {
        let s = settle(b, crate::tetris::line_points((n - 1) as usize), ROWS as nat);
        lemma_settle_count(b, crate::tetris::line_points((n - 1) as usize), ROWS as nat);
        lemma_sweep_count(s.0, (n - 1) as nat);
    }
}

/// Looking ahead of a piece that lies inside the field never reads outside it.
pub proof fn lemma_in_bounds_scan(b: Seq<Seq<u8>>, pts: Seq<Point>, d: char)
    requires
        all_in_bounds(pts),
        valid_direction(d),
    ensures
        scan_in_field(b, pts, d),
{
    assert forall|i: int| 0 <= i < pts.len() implies !reads_outside(#[trigger] pts[i], d) by {
        assert(in_bounds(pts[i]));
    }
}

/// A copy of the points of `v`.
pub(crate) fn copy_points(v: &Vec<Point>) -> (r: Vec<Point>)
    ensures
        r@ == v@,
{
    let mut r: Vec<Point> = Vec::new();
    let mut i: usize = 0;
    while i < v.len()
        invariant
            i <= v@.len(),
            r@ == v@.take(i as int),
        decreases v@.len() - i,
    {
        r.push(v[i]);
        i = i + 1;
        assert(r@ =~= v@.take(i as int));
    }
    assert(v@.take(i as int) =~= v@);
    r
}

/// `x` occurs in `v`.
fn vec_contains(v: &Vec<usize>, x: usize) -> (r: bool)
    ensures
        r == v@.contains(x),
{
    let mut i: usize = 0;
    while i < v.len()
        invariant
            i <= v@.len(),
            forall|k: int| 0 <= k < i ==> v@[k] != x,
        decreases v@.len() - i,
    {
        if v[i] == x {
            assert(v@[i as int] == x);
            return true;
        }
        i = i + 1;
    }
    false
}

/// Two leading cells of `pts` on one line are the same cell.
proof fn lemma_leading_unique(pts: Seq<Point>, d: char, j1: int, j2: int)
    requires
        0 <= j1 < pts.len(),
        0 <= j2 < pts.len(),
        is_side(pts, pts[j1], d),
        is_side(pts, pts[j2], d),
        line_of(pts[j1], d) == line_of(pts[j2], d),
    ensures
        pts[j1] == pts[j2],
{
    assert(!beyond(pts[j2], pts[j1], d));
    assert(!beyond(pts[j1], pts[j2], d));
}

/// The facts that the look at the leading cells keeps about its lines: `cv`
/// lists each line once, at its first point `firsts[m]`, in order of first
/// appearance, and `sp[m]` is the leading cell of line `cv[m]`.
pub open spec fn scan_lines(pts: Seq<Point>, d: char, cv: Seq<usize>, firsts: Seq<int>, sp: Seq<Point>) -> bool {
    &&& sp.len() == cv.len()
    &&& firsts.len() == cv.len()
    &&& forall|mm: int| 0 <= mm < firsts.len() ==> first_on_line(pts, d, #[trigger] cv[mm], firsts[mm])
    &&& forall|m1: int, m2: int| 0 <= m1 < m2 < firsts.len() ==> firsts[m1] < firsts[m2]
    &&& forall|k: int| 0 <= k < pts.len() ==> cv.contains(line_of(#[trigger] pts[k], d))
    &&& forall|a2: int|
        0 <= a2 < sp.len() ==> is_leading_point(pts, #[trigger] sp[a2], d) && line_of(sp[a2], d) == cv[a2]
}

/// The index in `cv` of the line of `pts[i]`, with its leading cell.
proof fn lemma_line_index(pts: Seq<Point>, d: char, cv: Seq<usize>, firsts: Seq<int>, sp: Seq<Point>, i: int) -> (x: int)
    requires
        scan_lines(pts, d, cv, firsts, sp),
        0 <= i < pts.len(),
        is_side(pts, pts[i], d),
    ensures
        0 <= x < cv.len(),
        cv[x] == line_of(pts[i], d),
        sp[x] == pts[i],
{
    assert(cv.contains(line_of(pts[i], d)));
    let x = choose|x: int| 0 <= x < cv.len() && cv[x] == line_of(pts[i], d);
    assert(is_leading_point(pts, sp[x], d));
    let kx = choose|k: int| 0 <= k < pts.len() && pts[k] == sp[x];
    lemma_leading_unique(pts, d, kx, i);
    x
}

/// The look reads outside the field at the leading cell `sp[a]`, all leading
/// cells before it being free: the look is not in the field.
proof fn lemma_scan_stops_here(
    b: Seq<Seq<u8>>,
    pts: Seq<Point>,
    d: char,
    cv: Seq<usize>,
    firsts: Seq<int>,
    sp: Seq<Point>,
    a: int,
    k0: int,
)
    requires
        scan_lines(pts, d, cv, firsts, sp),
        0 <= a < sp.len(),
        forall|a2: int| 0 <= a2 < a ==> side_free(b, #[trigger] sp[a2], d),
        0 <= k0 < pts.len(),
        pts[k0] == sp[a],
        reads_outside(sp[a], d),
    ensures
        !scan_in_field(b, pts, d),
{
    assert(is_leading_point(pts, sp[a], d));
    assert(!blocked_before(b, pts, d, k0)) by {
        if blocked_before(b, pts, d, k0) {
            let (j, k) = choose|j: int, k: int|
                #![trigger pts[j], pts[k]]
                0 <= j < pts.len() && 0 <= k < pts.len() && is_side(pts, pts[j], d) && !side_free(b, pts[j], d)
                    && line_of(pts[k], d) == line_of(pts[j], d) && forall|m: int|
                    0 <= m <= k ==> line_of(#[trigger] pts[m], d) != line_of(pts[k0], d);
            let mm = lemma_line_index(pts, d, cv, firsts, sp, j);
            assert(first_on_line(pts, d, cv[mm], firsts[mm]));
            assert(firsts[mm] <= k) by {
                if k < firsts[mm] {
                    assert(line_of(pts[k], d) != cv[mm]);
                }
            }
            assert(first_on_line(pts, d, cv[a], firsts[a]));
            assert(firsts[a] > k) by {
                if firsts[a] <= k {
                    assert(line_of(pts[firsts[a]], d) != line_of(pts[k0], d));
                }
            }
            assert(mm < a) by {
                if mm > a {
                    assert(firsts[a] < firsts[mm]);
                }
            }
            assert(side_free(b, sp[mm], d));
        }
    }
    assert(is_side(pts, pts[k0], d));
}

/// The look meets a blocked leading cell `sp[a]` that it can read, all leading
/// cells before it being free: the look is in the field.
proof fn lemma_scan_in_field_after_block(
    b: Seq<Seq<u8>>,
    pts: Seq<Point>,
    d: char,
    cv: Seq<usize>,
    firsts: Seq<int>,
    sp: Seq<Point>,
    a: int,
    k0: int,
)
    requires
        scan_lines(pts, d, cv, firsts, sp),
        0 <= a < sp.len(),
        forall|a2: int| 0 <= a2 < a ==> side_free(b, #[trigger] sp[a2], d),
        0 <= k0 < pts.len(),
        pts[k0] == sp[a],
        !side_free(b, sp[a], d),
        !reads_outside(sp[a], d),
    ensures
        scan_in_field(b, pts, d),
{
    assert(is_leading_point(pts, sp[a], d));
    assert forall|i: int| 0 <= i < pts.len() && is_side(pts, #[trigger] pts[i], d) && reads_outside(pts[i], d) implies blocked_before(
        b,
        pts,
        d,
        i,
    ) by {
        let x = lemma_line_index(pts, d, cv, firsts, sp, i);
        if x < a {
            assert(side_free(b, sp[x], d));
        }
        assert(x > a);
        assert(firsts[a] < firsts[x]);
        assert(first_on_line(pts, d, cv[x], firsts[x]));
        assert(first_on_line(pts, d, cv[a], firsts[a]));
        let k = firsts[a];
        assert forall|m: int| 0 <= m <= k implies line_of(#[trigger] pts[m], d) != line_of(pts[i], d) by {
            assert(m < firsts[x]);
        }
        assert(line_of(pts[k], d) == line_of(pts[k0], d));
        assert(is_side(pts, pts[k0], d));
    }
}

impl Tetris {
    /// Looks at the leading cells of the piece `points` in `direction`, line by
    /// line in the order in which the lines first show up in `points`: `None`
    /// when the look would read outside the field before it meets a blocked
    /// cell, otherwise whether the piece can move.
    pub fn movable_scan(&self, points: &Vec<Point>, direction: char) -> (r: Option<bool>)
        requires
            self.wf(),
            valid_direction(direction) || points@.len() == 0,
        ensures
            r is None <==> !scan_in_field(self.board@, points@, direction),
            r matches Some(v) ==> v == movable(self.board@, points@, direction),
    {
        let ghost pts = points@;
        let ghost b = self.board@;
        let ghost mut firsts: Seq<int> = Seq::empty();
        let mut coordinate_values: Vec<usize> = Vec::new();
        let mut i: usize = 0;
        while i < points.len()
            invariant
                pts == points@,
                i <= pts.len(),
                forall|k: int| 0 <= k < i ==> coordinate_values@.contains(line_of(#[trigger] pts[k], direction)),
                firsts.len() == coordinate_values@.len(),
                forall|m: int|
                    #![trigger coordinate_values@[m]]
                    #![trigger firsts[m]]
                    0 <= m < firsts.len() ==> firsts[m] < i && first_on_line(pts, direction, coordinate_values@[m], firsts[m]),
                forall|m1: int, m2: int| 0 <= m1 < m2 < firsts.len() ==> firsts[m1] < firsts[m2],
            decreases pts.len() - i,
        {
            let y = points[i].0;
            let x = points[i].1;
            let coordinate: usize = if direction == 'D' { x } else { y };
            let ghost before = coordinate_values@;
            let ghost firsts_before = firsts;
            if !vec_contains(&coordinate_values, coordinate) {
                coordinate_values.push(coordinate);
                proof {
                    firsts = firsts.push(i as int);
                    assert forall|j: int| 0 <= j < i implies line_of(#[trigger] pts[j], direction) != coordinate by {
                        assert(before.contains(line_of(pts[j], direction)));
                    }
                    assert(first_on_line(pts, direction, coordinate, i as int));
                }
            }
            assert forall|k: int| 0 <= k < i + 1 implies coordinate_values@.contains(
                line_of(#[trigger] pts[k], direction),
            ) by {
                if k < i {
                    let m = choose|m: int| 0 <= m < before.len() && before[m] == line_of(pts[k], direction);
                    assert(coordinate_values@[m] == before[m]);
                } else if before.contains(coordinate) {
                } else {
                    assert(coordinate_values@[before.len() as int] == coordinate);
                }
            }
            assert forall|m: int|
                #![trigger coordinate_values@[m]]
                #![trigger firsts[m]]
                0 <= m < firsts.len() implies firsts[m] < i + 1 && first_on_line(pts, direction, coordinate_values@[m], firsts[m]) by {
                if m < before.len() {
                    assert(coordinate_values@[m] == before[m]);
                    assert(firsts[m] == firsts_before[m]);
                    assert(first_on_line(pts, direction, before[m], firsts_before[m]));
                    assert(firsts_before[m] < i);
                } else {
                    assert(coordinate_values@[m] == coordinate);
                    assert(firsts[m] == i);
                }
            }
            assert forall|m1: int, m2: int| 0 <= m1 < m2 < firsts.len() implies firsts[m1] < firsts[m2] by {
                if m2 < firsts_before.len() {
                    assert(firsts[m1] == firsts_before[m1] && firsts[m2] == firsts_before[m2]);
                } else {
                    assert(firsts[m1] == firsts_before[m1]);
                    assert(firsts_before[m1] < i) by {
                        assert(first_on_line(pts, direction, before[m1], firsts_before[m1]));
                    }
                    assert(firsts[m2] == i);
                }
            }
            i = i + 1;
        }
        let mut side_points: Vec<Point> = Vec::new();
        let mut m: usize = 0;
        while m < coordinate_values.len()
            invariant
                pts == points@,
                b == self.board@,
                m <= coordinate_values@.len(),
                side_points@.len() == m,
                firsts.len() == coordinate_values@.len(),
                forall|mm: int|
                    0 <= mm < firsts.len() ==> first_on_line(pts, direction, #[trigger] coordinate_values@[mm], firsts[mm]),
                forall|m1: int, m2: int| 0 <= m1 < m2 < firsts.len() ==> firsts[m1] < firsts[m2],
                forall|k: int| 0 <= k < pts.len() ==> coordinate_values@.contains(line_of(#[trigger] pts[k], direction)),
                forall|a: int|
                    0 <= a < m ==> is_leading_point(pts, #[trigger] side_points@[a], direction) && line_of(side_points@[a], direction)
                        == coordinate_values@[a],
            decreases coordinate_values@.len() - m,
        {
            let c = coordinate_values[m];
            let mut found = false;
            let mut side: Point = (0, 0);
            let mut k: usize = 0;
            while k < points.len()
                invariant
                    pts == points@,
                    k <= pts.len(),
                    found ==> (exists|k2: int| 0 <= k2 < k && pts[k2] == side) && line_of(side, direction) == c
                        && forall|k2: int|
                        0 <= k2 < k && line_of(#[trigger] pts[k2], direction) == c ==> !beyond(pts[k2], side, direction),
                    !found ==> forall|k2: int| 0 <= k2 < k ==> line_of(#[trigger] pts[k2], direction) != c,
                decreases pts.len() - k,
            {
                let p = points[k];
                let pc: usize = if direction == 'D' { p.1 } else { p.0 };
                if pc == c {
                    if !found {
                        side = p;
                        found = true;
                    } else if direction == 'D' {
                        if p.0 > side.0 {
                            side = p;
                        }
                    } else if direction == 'R' {
                        if p.1 > side.1 {
                            side = p;
                        }
                    } else {
                        if p.1 < side.1 {
                            side = p;
                        }
                    }
                }
                assert(pts[k as int] == p);
                k = k + 1;
            }
            assert(found) by {
                assert(first_on_line(pts, direction, coordinate_values@[m as int], firsts[m as int]));
                assert(line_of(pts[firsts[m as int]], direction) == c);
            }
            side_points.push(side);
            assert(side_points@[m as int] == side);
            assert(is_leading_point(pts, side, direction));
            m = m + 1;
        }
        assert(scan_lines(pts, direction, coordinate_values@, firsts, side_points@));
        let mut a: usize = 0;
        while a < side_points.len()
            invariant
                pts == points@,
                b == self.board@,
                is_grid(b),
                a <= side_points@.len(),
                scan_lines(pts, direction, coordinate_values@, firsts, side_points@),
                forall|a2: int| 0 <= a2 < a ==> side_free(b, #[trigger] side_points@[a2], direction),
            decreases side_points@.len() - a,
        {
            let p = side_points[a];
            assert(is_leading_point(pts, side_points@[a as int], direction));
            let k0 = Ghost(choose|k: int| 0 <= k < pts.len() && pts[k] == side_points@[a as int]);
            assert(pts[k0@] == p);
            let stop = if direction == 'D' {
                p.0 == 21
            } else if direction == 'R' {
                p.1 == 9
            } else {
                p.1 == 0
            };
            let inside = if direction == 'D' {
                p.0 < 21 && p.1 < 10
            } else if direction == 'R' {
                p.0 < 22 && p.1 < 9
            } else {
                p.0 < 22 && p.1 <= 10
            };
            let blocked = if stop {
                true
            } else if !inside {
                proof {
                    assert(reads_outside(p, direction));
                    lemma_scan_stops_here(b, pts, direction, coordinate_values@, firsts, side_points@, a as int, k0@);
                }
                return None;
            } else if direction == 'D' {
                *self.board.get_element(p.0 + 1, p.1) > 0
            } else if direction == 'R' {
                *self.board.get_element(p.0, p.1 + 1) > 0
            } else {
                *self.board.get_element(p.0, p.1 - 1) > 0
            };
            if blocked {
                assert(is_side(pts, pts[k0@], direction) && !side_free(b, pts[k0@], direction));
                assert(!reads_outside(p, direction));
                proof {
                    lemma_scan_in_field_after_block(b, pts, direction, coordinate_values@, firsts, side_points@, a as int, k0@);
                }
                return Some(false);
            }
            a = a + 1;
        }
        assert forall|i2: int| 0 <= i2 < pts.len() && is_side(pts, #[trigger] pts[i2], direction) implies side_free(
            b,
            pts[i2],
            direction,
        ) by {
            let p = pts[i2];
            assert(coordinate_values@.contains(line_of(pts[i2], direction)));
            let mm = choose|mm: int|
                0 <= mm < coordinate_values@.len() && coordinate_values@[mm] == line_of(pts[i2], direction);
            let s = side_points@[mm];
            assert(is_leading_point(pts, s, direction));
            let k0 = choose|k: int| 0 <= k < pts.len() && pts[k] == side_points@[mm];
            assert(line_of(pts[k0], direction) == line_of(p, direction));
            assert(!beyond(pts[k0], p, direction));
            assert(!beyond(pts[i2], s, direction));
            assert(s == p);
            assert(side_free(b, s, direction));
        }
        assert(scan_in_field(b, pts, direction));
        Some(true)
    }

    /// Whether the piece `points` can move one cell in `direction`: for every
    /// line across the motion, the point of the piece furthest ahead must have a
    /// free cell ahead of it inside the field.
    pub fn movable_to(&mut self, points: &Vec<Point>, direction: char) -> (r: bool)
        requires
            old(self).wf(),
            valid_direction(direction) || points@.len() == 0,
            scan_in_field(old(self).board@, points@, direction),
        ensures
            *final(self) == *old(self),
            r == movable(old(self).board@, points@, direction),
    {
        let r = self.movable_scan(points, direction);
        r.unwrap()
    }

    /// Moves the piece `piece` one cell in `direction` when it can move:
    /// its cells are lifted off and written one cell further, the centre moves
    /// with it, and the moved piece is returned. When it cannot move, nothing
    /// changes and the piece is reported: as lost when it is moving down while
    /// touching the top row, as blocked otherwise. `piece` itself is not changed.
    pub fn move_to(&mut self, piece: &mut Vec<Point>, direction: char) -> (r: Result<Vec<Point>, Undroppable>)
        requires
            old(self).wf(),
            valid_direction(direction),
            scan_in_field(old(self).board@, old(piece)@, direction),
            movable(old(self).board@, old(piece)@, direction) ==> (all_in_bounds(old(piece)@)
                && (old(self).center matches Some(c) && center_step_in_range(c, direction))),
        ensures
            *final(piece) == *old(piece),
            final(self).wf(),
            final(self).current_shape == old(self).current_shape,
            final(self).current_piece == old(self).current_piece,
            final(self).score == old(self).score,
            movable(old(self).board@, old(piece)@, direction) ==> {
                &&& final(self).board@ == moved_board(old(self).board@, old(piece)@, direction)
                &&& final(self).center == Some(moved_center(old(self).center.unwrap(), direction))
                &&& r matches Ok(v) && v@ == shifted(old(piece)@, direction)
                &&& all_in_bounds(shifted(old(piece)@, direction))
            },
            !movable(old(self).board@, old(piece)@, direction) ==> {
                &&& *final(self) == *old(self)
                &&& r matches Err(u) && reports(u, old(piece)@, direction == 'D' && touches_top(old(piece)@))
            },
    {
        let ghost pts = piece@;
        let ghost b0 = self.board@;
        let points = copy_points(piece);
        if !self.movable_to(&points, direction) {
            let (smallest_y, _smallest_x, _biggest_y, _biggest_x) = Self::dimensions(&points);
            proof {
                lemma_seq_min_max(rows_of(pts));
                if touches_top(pts) {
                    let k = choose|k: int| 0 <= k < pts.len() && (#[trigger] pts[k]).0 == 0;
                    assert(rows_of(pts)[k] == 0);
                }
                if smallest_y == 0 {
                    let k = choose|k: int| 0 <= k < rows_of(pts).len() && rows_of(pts)[k] == 0;
                    assert(pts[k].0 == 0);
                }
            }
            if smallest_y == 0 && direction == 'D' {
                return Err(Undroppable::Lost(points));
            }
            return Err(Undroppable::Immovable(points));
        }
        proof {
            lemma_shift_in_bounds(b0, pts, direction);
        }
        let mut shapes: Vec<u8> = Vec::new();
        let mut i: usize = 0;
        while i < points.len()
            invariant
                points@ == pts,
                b0 == old(self).board@,
                is_grid(b0),
                all_in_bounds(pts),
                i <= pts.len(),
                self.board@ == lift_cells(b0, pts.take(i as int)).0,
                shapes@ == lift_cells(b0, pts.take(i as int)).1,
                is_grid(self.board@),
                self.current_shape == old(self).current_shape,
                self.current_piece == old(self).current_piece,
                self.score == old(self).score,
                self.center == old(self).center,
            decreases pts.len() - i,
        {
            let y = points[i].0;
            let x = points[i].1;
            assert(in_bounds(pts[i as int]));
            assert(pts.take(i + 1).drop_last() =~= pts.take(i as int));
            assert(pts.take(i + 1).last() == (y, x));
            shapes.push(*self.board.get_element(y, x));
            proof {
                lemma_set_cell_grid(self.board@, (y, x), 0);
            }
            self.board.set_element(y, x, 0);
            i = i + 1;
        }
        assert(pts.take(pts.len() as int) =~= pts);
        proof {
            lemma_lift_cells_grid(b0, pts);
        }
        let ghost lifted = self.board@;
        let ghost dest = shifted(pts, direction);
        let mut new_points: Vec<Point> = Vec::new();
        let mut i: usize = 0;
        while i < points.len()
            invariant
                points@ == pts,
                dest == shifted(pts, direction),
                forall|k: int| 0 <= k < pts.len() ==> can_step(#[trigger] pts[k], direction),
                all_in_bounds(dest),
                dest.len() == pts.len(),
                all_in_bounds(pts),
                valid_direction(direction),
                shapes@ == lift_cells(b0, pts).1,
                shapes@.len() == pts.len(),
                lifted == lift_cells(b0, pts).0,
                i <= pts.len(),
                new_points@ == dest.take(i as int),
                self.board@ == write_cells(lifted, dest.take(i as int), shapes@.take(i as int)),
                is_grid(self.board@),
                self.current_shape == old(self).current_shape,
                self.current_piece == old(self).current_piece,
                self.score == old(self).score,
                self.center == old(self).center,
            decreases pts.len() - i,
        {
            let y = points[i].0;
            let x = points[i].1;
            assert(in_bounds(dest[i as int]));
            assert(can_step(pts[i as int], direction));
            assert(dest[i as int] == step(pts[i as int], direction));
            let new_point: Point = if direction == 'D' {
                (y + 1, x)
            } else if direction == 'R' {
                (y, x + 1)
            } else {
                (y, x - 1)
            };
            assert(new_point == dest[i as int]);
            assert(dest.take(i + 1).drop_last() =~= dest.take(i as int));
            assert(shapes@.take(i + 1).drop_last() =~= shapes@.take(i as int));
            proof {
                lemma_set_cell_grid(self.board@, new_point, shapes@[i as int]);
            }
            self.board.set_element(new_point.0, new_point.1, shapes[i]);
            new_points.push(new_point);
            i = i + 1;
        }
        assert(dest.take(pts.len() as int) =~= dest);
        assert(shapes@.take(pts.len() as int) =~= shapes@);
        if let Some(center) = self.center {
            if direction == 'D' {
                self.center = Some((center.0 + 2, center.1));
            } else if direction == 'R' {
                self.center = Some((center.0, center.1 + 2));
            } else {
                self.center = Some((center.0, center.1 - 2));
            }
        }
        Ok(new_points)
    }

    /// Moves the piece down while it can move and reports it where it stops:
    /// as lost when it then touches the top row, as blocked otherwise.
    ///
    /// An empty piece can always move, so it is not accepted: the drop would not end.
    pub fn hard_drop(&mut self, piece: &Vec<Point>) -> (r: Undroppable)
        requires
            old(self).wf(),
            piece@.len() > 0,
            scan_in_field(old(self).board@, piece@, 'D'),
            movable(old(self).board@, piece@, 'D') ==> all_in_bounds(piece@),
            center_allows_drops(old(self).center, settle(old(self).board@, piece@, ROWS as nat).2),
        ensures
            final(self).wf(),
            final(self).board@ == settle(old(self).board@, piece@, ROWS as nat).0,
            final(self).center == center_after_drops(old(self).center, settle(old(self).board@, piece@, ROWS as nat).2),
            final(self).current_shape == old(self).current_shape,
            final(self).current_piece == old(self).current_piece,
            final(self).score == old(self).score,
            reports(r, settle(old(self).board@, piece@, ROWS as nat).1, touches_top(settle(old(self).board@, piece@, ROWS as nat).1)),
    {
        let ghost b0 = self.board@;
        let ghost pts0 = piece@;
        let ghost total = settle(b0, pts0, ROWS as nat);
        let mut points = copy_points(piece);
        let ghost mut moves: nat = 0;
        loop
            invariant
                old(self).wf(),
                b0 == old(self).board@,
                pts0 == piece@,
                total == settle(b0, pts0, ROWS as nat),
                center_allows_drops(old(self).center, total.2),
                pts0.len() > 0,
                is_grid(self.board@),
                scan_in_field(b0, pts0, 'D'),
                movable(b0, pts0, 'D') ==> all_in_bounds(pts0),
                moves == 0 ==> points@ == pts0 && self.board@ == b0,
                moves > 0 ==> all_in_bounds(points@),
                moves <= ROWS,
                points@.len() == pts0.len(),
                points@[0].0 == pts0[0].0 + moves,
                ({
                    let r = settle(self.board@, points@, (ROWS - moves) as nat);
                    r.0 == total.0 && r.1 == total.1 && r.2 + moves == total.2
                }),
                self.center == center_after_drops(old(self).center, moves),
                self.current_shape == old(self).current_shape,
                self.current_piece == old(self).current_piece,
                self.score == old(self).score,
            decreases ROWS - moves,
        {
            let ghost cur_b = self.board@;
            let ghost cur = points@;
            proof {
                if moves > 0 {
                    assert(in_bounds(points@[0]));
                    lemma_in_bounds_scan(cur_b, cur, 'D');
                }
                if movable(cur_b, cur, 'D') {
                    assert(in_bounds(points@[0]));
                    assert(moves < ROWS);
                    assert(settle(cur_b, cur, (ROWS - moves) as nat).2 >= 1);
                }
            }
            match self.move_to(&mut points, 'D') {
                Ok(p) => {
                    assert(p@ == shifted(cur, 'D'));
                    assert(p@[0] == step(cur[0], 'D'));
                    points = p;
                    proof {
                        moves = moves + 1;
                    }
                    assert(in_bounds(points@[0]));
                    assert(moves < ROWS);
                },
                Err(e) => {
                    assert(!movable(cur_b, cur, 'D'));
                    assert(settle(cur_b, cur, (ROWS - moves) as nat) == (cur_b, cur, 0nat));
                    return e;
                },
            }
        }
    }

    /// Clears the full rows, then lets each row, from the bottom one up, fall as
    /// a whole while the row below it is empty. When a row was full, the
    /// non-empty rows end up at the bottom of the field in the order they had,
    /// under empty rows.
    pub fn clear_lines(&mut self) -> (cleared: u16)
        requires
            old(self).wf(),
            has_full_row(old(self).board@) ==> center_allows_drops(
                old(self).center,
                sweep(cleared_rows(old(self).board@), ROWS as nat).1,
            ),
        ensures
            cleared == full_rows(old(self).board@).len(),
            !has_full_row(old(self).board@) ==> cleared == 0,
            final(self).wf(),
            !has_full_row(old(self).board@) ==> *final(self) == *old(self),
            has_full_row(old(self).board@) ==> {
                let s = sweep(cleared_rows(old(self).board@), ROWS as nat);
                &&& final(self).board@ == s.0
                &&& final(self).board@ == stacked(cleared_rows(old(self).board@))
                &&& final(self).center == center_after_drops(old(self).center, s.1)
            },
            final(self).current_shape == old(self).current_shape,
            final(self).current_piece == old(self).current_piece,
            final(self).score == old(self).score,
    {
        let ghost b0 = self.board@;
        let filled_lines = self.check_filled_lines();
        if filled_lines.len() == 0 {
            assert(!has_full_row(b0)) by {
                if has_full_row(b0) {
                    let r = choose|r: int| 0 <= r < ROWS && #[trigger] crate::grid::full_row(b0, r);
                    assert(filled_lines@.contains(r as usize));
                }
            }
            assert(full_rows(b0) =~= Set::<usize>::empty());
            return 0;
        }
        assert(has_full_row(b0)) by {
            assert(filled_lines@.contains(filled_lines@[0]));
        }
        let mut k: usize = 0;
        while k < filled_lines.len()
            invariant
                b0 == old(self).board@,
                is_grid(b0),
                k <= filled_lines@.len(),
                forall|r: usize| #[trigger] filled_lines@.contains(r) <==> (r < ROWS && crate::grid::full_row(b0, r as int)),
                is_grid(self.board@),
                self.board@ == Seq::new(
                    ROWS as nat,
                    |r: int| if filled_lines@.take(k as int).contains(r as usize) { Seq::new(COLS as nat, |_j: int| 0u8) } else { b0[r] },
                ),
                self.center == old(self).center,
                self.current_shape == old(self).current_shape,
                self.current_piece == old(self).current_piece,
                self.score == old(self).score,
            decreases filled_lines@.len() - k,
        {
            let line = filled_lines[k];
            assert(filled_lines@.contains(line));
            let ghost before = self.board@;
            self.set_line_to(line, 0);
            k = k + 1;
            assert(self.board@ =~~= Seq::new(
                ROWS as nat,
                |r: int| if filled_lines@.take(k as int).contains(r as usize) { Seq::new(COLS as nat, |_j: int| 0u8) } else { b0[r] },
            )) by {
                assert forall|r: int| #![trigger filled_lines@.take(k as int).contains(r as usize)] 0 <= r < ROWS implies (filled_lines@.take(k as int).contains(r as usize) <==> (
                    filled_lines@.take(k - 1).contains(r as usize) || r == line)) by {
                    if filled_lines@.take(k as int).contains(r as usize) {
                        let j = choose|j: int| 0 <= j < k && #[trigger] filled_lines@.take(k as int)[j] == r as usize;
                        if j < k - 1 {
                            assert(filled_lines@.take(k - 1)[j] == r as usize);
                        }
                    }
                    if filled_lines@.take(k - 1).contains(r as usize) {
                        let j = choose|j: int| 0 <= j < k - 1 && #[trigger] filled_lines@.take(k - 1)[j] == r as usize;
                        assert(filled_lines@.take(k as int)[j] == r as usize);
                    }
                    if r == line {
                        assert(filled_lines@.take(k as int)[k - 1] == line);
                    }
                }
            }
        }
        assert(self.board@ =~~= cleared_rows(b0)) by {
            assert(filled_lines@.take(k as int) =~= filled_lines@);
            assert forall|r: int| #![trigger crate::grid::full_row(b0, r)] 0 <= r < ROWS implies (filled_lines@.contains(r as usize) <==> crate::grid::full_row(b0, r)) by {
                assert(filled_lines@.contains(r as usize) <==> ((r as usize) < ROWS && crate::grid::full_row(b0, (r as usize) as int)));
            }
        }
        let ghost cleared = self.board@;
        let ghost total = sweep(cleared, ROWS as nat);
        let ghost mut moves: nat = 0;
        let mut i: usize = 22;
        while i > 0
            invariant
                i <= ROWS,
                total == sweep(cleared, ROWS as nat),
                center_allows_drops(old(self).center, total.1),
                is_grid(self.board@),
                sweep(self.board@, i as nat).0 == total.0,
                sweep(self.board@, i as nat).1 + moves == total.1,
                self.center == center_after_drops(old(self).center, moves),
                self.current_shape == old(self).current_shape,
                self.current_piece == old(self).current_piece,
                self.score == old(self).score,
            decreases i,
        {
            i = i - 1;
            let points = Self::line(i);
            let ghost s = settle(self.board@, points@, ROWS as nat);
            assert(all_in_bounds(points@));
            assert(points@.len() > 0);
            proof {
                lemma_in_bounds_scan(self.board@, points@, 'D');
            }
            let _stop = self.hard_drop(&points);
            proof {
                moves = moves + s.2;
            }
        }
        proof {
            law_clearing_stacks_rows(b0);
            filled_lines@.unique_seq_to_set();
            assert(filled_lines@.to_set() =~= full_rows(b0));
        }
        filled_lines.len() as u16
    }
}

} // verus!
