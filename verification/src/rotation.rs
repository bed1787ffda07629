use vstd::prelude::*;
use crate::board::rows_view;
use crate::grid::{
    all_in_bounds, cell, cols_of, fill_cells, in_bounds, is_grid, lemma_fill_cells_grid, lemma_seq_min_max, reads_before, rows_of,
    seq_max, seq_min, Point, COLS, ROWS,
};
use crate::laws::lemma_grid_ext;
use crate::motion::copy_points;
use crate::tetris::{center_in_range, shape_extent, Tetris};

verus! {

/// The value `v2 / 2` (a coordinate given in half cells) converted to a byte:
/// rounded toward zero, with negative values giving 0 and values above 255
/// giving 255.
pub open spec fn half_to_byte(v2: int) -> int {
    if v2 <= 0 {
        0
    } else if v2 / 2 > 255 {
        255
    } else {
        v2 / 2
    }
}

/// The value `v2 / 2` (a coordinate given in half cells) rounded toward zero.
pub open spec fn half_trunc(v2: int) -> int {
    if v2 >= 0 {
        v2 / 2
    } else {
        -((-v2) / 2)
    }
}

/// How many of the columns `x0, x0 + 1, ..., x_end - 1` lie in the field.
pub open spec fn columns_in_field(x0: int, x_end: int) -> int {
    let hi = if x_end < COLS { x_end } else { COLS as int };
    if hi > x0 {
        hi - x0
    } else {
        0
    }
}

/// The part of the field under the square of side `l` centred on `c` (in half
/// cells), its corners rounded toward zero and clamped to bytes: one row for
/// each row of the square, each holding the cells of that row that lie in the
/// field.
pub open spec fn window_rows(b: Seq<Seq<u8>>, c: (i64, i64), l: int) -> Seq<Seq<u8>> {
    let y0 = half_to_byte(c.0 - (l - 1));
    let y1 = half_to_byte(c.0 + (l - 1));
    let x0 = half_to_byte(c.1 - (l - 1));
    let x1 = half_to_byte(c.1 + (l - 1));
    Seq::new(
        if y0 <= y1 { (y1 - y0 + 1) as nat } else { 0 },
        |a: int|
            if y0 + a < ROWS {
                Seq::new(columns_in_field(x0, x1 + 1) as nat, |k: int| b[y0 + a][x0 + k])
            } else {
                Seq::empty()
            },
    )
}

/// The cell at row `p.0`, column `p.1` turned a quarter turn clockwise about
/// the centre `c` (given in half cells): the row becomes `p.1 + (cy - cx) / 2`
/// and the column `(cy + cx) / 2 - p.0`, the halves rounded toward zero (they
/// are whole when `cy + cx` is even, as for every shape the game places).
pub open spec fn turned_at(p: (int, int), c: (i64, i64)) -> (int, int) {
    (p.1 + half_trunc(c.0 - c.1), half_trunc(c.0 + c.1) - p.0)
}

/// The cell `p` turned a quarter turn clockwise about `c`.
pub open spec fn turned_point(p: Point, c: (i64, i64)) -> (int, int) {
    turned_at((p.0 as int, p.1 as int), c)
}

/// A pair of whole numbers as a cell.
pub open spec fn to_point(t: (int, int)) -> Point {
    (t.0 as usize, t.1 as usize)
}

/// The cells of the piece `pts` turned a quarter turn clockwise about `c`, in
/// the order of the piece.
pub open spec fn turned_piece(pts: Seq<Point>, c: (i64, i64)) -> Seq<Point> {
    pts.map_values(|p: Point| to_point(turned_point(p, c)))
}

/// `t` is a cell of the field that holds 0 in `z`.
pub open spec fn lands_free(z: Seq<Seq<u8>>, t: (int, int)) -> bool {
    0 <= t.0 < ROWS && 0 <= t.1 < COLS && z[t.0][t.1] == 0
}

/// Every cell of the piece `pts`, turned about `c`, lands on a cell of the
/// field that is free once the piece itself is lifted off `b`.
pub open spec fn turn_fits(b: Seq<Seq<u8>>, pts: Seq<Point>, c: (i64, i64)) -> bool {
    forall|k: int| 0 <= k < pts.len() ==> lands_free(fill_cells(b, pts, 0), #[trigger] turned_point(pts[k], c))
}

/// The conditions under which the piece `pts` of `t` can be turned: a field of
/// the right shape, a piece inside it and a centre within `CENTER_LIMIT`.
pub open spec fn turn_defined(t: Tetris, pts: Seq<Point>) -> bool {
    &&& t.wf()
    &&& all_in_bounds(pts)
    &&& t.center matches Some(c) && center_in_range(c)
}

/// The cells of `s` come in reading order, row by row and left to right within
/// a row, each once.
pub open spec fn in_reading_order(s: Seq<Point>) -> bool {
    forall|i: int, j: int| 0 <= i < j < s.len() ==> reads_before(#[trigger] s[i], #[trigger] s[j])
}

/// The value of the current shape, 0 when there is none.
pub open spec fn shape_value(s: Option<u8>) -> u8 {
    match s {
        Some(v) => v,
        None => 0,
    }
}

/// The largest span of rows or columns of a piece whose window can be read.
pub const EXTENT_LIMIT: usize = 0x1000_0000;

pub proof fn lemma_extent_bounds(pts: Seq<Point>)
    requires
        pts.len() > 0,
    ensures
        seq_min(rows_of(pts)) <= seq_max(rows_of(pts)),
        seq_min(cols_of(pts)) <= seq_max(cols_of(pts)),
        shape_extent(pts) >= 1,
{
    lemma_seq_min_max(rows_of(pts));
    lemma_seq_min_max(cols_of(pts));
    assert(rows_of(pts)[0] == pts[0].0);
    assert(cols_of(pts)[0] == pts[0].1);
}

/// Four quarter turns about a centre whose coordinates add up to an even number
/// bring every cell back to itself.
pub proof fn law_four_turns_identity(p: (int, int), c: (i64, i64))
    requires
        (c.0 + c.1) % 2 == 0,
    ensures
        turned_at(turned_at(turned_at(turned_at(p, c), c), c), c) == p,
{
}

/// The field after the piece `pts` is turned about `c`: its cells are cleared
/// and the turned cells take the value `v`.
pub open spec fn turn_board(b: Seq<Seq<u8>>, pts: Seq<Point>, c: (i64, i64), v: u8) -> Seq<Seq<u8>> {
    fill_cells(fill_cells(b, pts, 0), turned_piece(pts, c), v)
}

/// The field and the piece after `n` turns of `pts` about `c`.
pub open spec fn turns(b: Seq<Seq<u8>>, pts: Seq<Point>, c: (i64, i64), v: u8, n: nat) -> (Seq<Seq<u8>>, Seq<Point>)
    decreases n,
{
    if n == 0 {
        (b, pts)
    } else {
        let r = turns(b, pts, c, v, (n - 1) as nat);
        (turn_board(r.0, r.1, c, v), turned_piece(r.1, c))
    }
}

/// Each of the first `n` turns of `pts` about `c` fits.
pub open spec fn turns_fit(b: Seq<Seq<u8>>, pts: Seq<Point>, c: (i64, i64), v: u8, n: nat) -> bool {
    forall|i: nat| i < n ==> #[trigger] turn_fits(turns(b, pts, c, v, i).0, turns(b, pts, c, v, i).1, c)
}

/// A turn that fits lands each cell exactly on its turned position, inside the
/// field, and only on cells of the piece or cells holding 0.
proof fn lemma_turn_lands(b: Seq<Seq<u8>>, pts: Seq<Point>, c: (i64, i64), v: u8)
    requires
        is_grid(b),
        all_in_bounds(pts),
        turn_fits(b, pts, c),
    ensures
        all_in_bounds(turned_piece(pts, c)),
        turned_piece(pts, c).len() == pts.len(),
        forall|k: int|
            0 <= k < pts.len() ==> ((#[trigger] turned_piece(pts, c)[k]).0 as int, turned_piece(pts, c)[k].1 as int)
                == turned_point(pts[k], c),
        forall|q: Point| in_bounds(q) && turned_piece(pts, c).contains(q) ==> pts.contains(q) || cell(b, q) == 0,
        is_grid(turn_board(b, pts, c, v)),
        forall|q: Point|
            #![trigger cell(turn_board(b, pts, c, v), q)]
            in_bounds(q) ==> cell(turn_board(b, pts, c, v), q) == if turned_piece(pts, c).contains(q) {
                v
            } else if pts.contains(q) {
                0
            } else {
                cell(b, q)
            },
{
    let q1 = turned_piece(pts, c);
    let z = fill_cells(b, pts, 0);
    lemma_fill_cells_grid(b, pts, 0);
    assert forall|k: int| 0 <= k < pts.len() implies in_bounds(#[trigger] q1[k]) && (q1[k].0 as int, q1[k].1 as int)
        == turned_point(pts[k], c) by {
        assert(lands_free(z, turned_point(pts[k], c)));
    }
    assert forall|q: Point| in_bounds(q) && q1.contains(q) implies pts.contains(q) || cell(b, q) == 0 by {
        let k = choose|k: int| 0 <= k < q1.len() && q1[k] == q;
        assert(lands_free(z, turned_point(pts[k], c)));
        assert(cell(z, q) == 0);
    }
    lemma_fill_cells_grid(z, q1, v);
}

/// A turn depends only on which cells the piece covers, not on the order in
/// which it lists them: the turned cells, whether the turn fits and the field
/// after it are the same.
pub proof fn law_turn_depends_on_cells(g: Seq<Seq<u8>>, a: Seq<Point>, e: Seq<Point>, c: (i64, i64), v: u8)
    requires
        is_grid(g),
        all_in_bounds(a),
        all_in_bounds(e),
        a.to_set() == e.to_set(),
    ensures
        turned_piece(a, c).to_set() == turned_piece(e, c).to_set(),
        turn_fits(g, a, c) == turn_fits(g, e, c),
        turn_fits(g, a, c) ==> turn_board(g, a, c, v) == turn_board(g, e, c, v),
{
    assert forall|x: Point|
        #![trigger a.contains(x)]
        #![trigger e.contains(x)]
        a.contains(x) <==> e.contains(x) by {
        assert(a.to_set().contains(x) == a.contains(x));
        assert(e.to_set().contains(x) == e.contains(x));
        assert(a.to_set().contains(x) == e.to_set().contains(x));
    }
    let ta = turned_piece(a, c);
    let te = turned_piece(e, c);
    assert forall|x: Point| #[trigger] ta.contains(x) implies te.contains(x) by {
        let k = choose|k: int| 0 <= k < ta.len() && ta[k] == x;
        assert(a.contains(a[k]));
        let m = choose|m: int| 0 <= m < e.len() && e[m] == a[k];
        assert(te[m] == x);
    }
    assert forall|x: Point| #[trigger] te.contains(x) implies ta.contains(x) by {
        let k = choose|k: int| 0 <= k < te.len() && te[k] == x;
        assert(e.contains(e[k]));
        let m = choose|m: int| 0 <= m < a.len() && a[m] == e[k];
        assert(ta[m] == x);
    }
    assert(ta.to_set() =~= te.to_set());
    lemma_fill_cells_grid(g, a, 0);
    lemma_fill_cells_grid(g, e, 0);
    let za = fill_cells(g, a, 0);
    let ze = fill_cells(g, e, 0);
    assert forall|q: Point| in_bounds(q) implies #[trigger] cell(za, q) == cell(ze, q) by {
        assert(a.contains(q) == e.contains(q));
    }
    lemma_grid_ext(za, ze);
    if turn_fits(g, a, c) {
        assert forall|k: int| 0 <= k < e.len() implies lands_free(ze, #[trigger] turned_point(e[k], c)) by {
            assert(a.contains(e[k]));
            let m = choose|m: int| 0 <= m < a.len() && a[m] == e[k];
            assert(lands_free(za, turned_point(a[m], c)));
        }
    }
    if turn_fits(g, e, c) {
        assert forall|k: int| 0 <= k < a.len() implies lands_free(za, #[trigger] turned_point(a[k], c)) by {
            assert(e.contains(a[k]));
            let m = choose|m: int| 0 <= m < e.len() && e[m] == a[k];
            assert(lands_free(ze, turned_point(e[m], c)));
        }
    }
    if turn_fits(g, a, c) {
        lemma_turn_lands(g, a, c, v);
        lemma_turn_lands(g, e, c, v);
        assert forall|q: Point| in_bounds(q) implies #[trigger] cell(turn_board(g, a, c, v), q) == cell(
            turn_board(g, e, c, v),
            q,
        ) by {
            assert(ta.contains(q) == te.contains(q));
            assert(a.contains(q) == e.contains(q));
        }
        lemma_grid_ext(turn_board(g, a, c, v), turn_board(g, e, c, v));
    }
}

/// Four quarter turns of a piece about a centre whose coordinates add up to an
/// even number, each of which fits, bring back the piece and the field, when
/// the piece's cells hold the value the turns write.
pub proof fn law_four_turns_restore(b: Seq<Seq<u8>>, pts: Seq<Point>, c: (i64, i64), v: u8)
    requires
        is_grid(b),
        all_in_bounds(pts),
        (c.0 + c.1) % 2 == 0,
        forall|k: int| 0 <= k < pts.len() ==> #[trigger] cell(b, pts[k]) == v,
        turns_fit(b, pts, c, v, 4),
    ensures
        turns(b, pts, c, v, 4) == (b, pts),
{
    let r0 = turns(b, pts, c, v, 0);
    let r1 = turns(b, pts, c, v, 1);
    let r2 = turns(b, pts, c, v, 2);
    let r3 = turns(b, pts, c, v, 3);
    let r4 = turns(b, pts, c, v, 4);
    assert(r0 == (b, pts));
    assert(turn_fits(r0.0, r0.1, c));
    assert(turn_fits(r1.0, r1.1, c));
    assert(turn_fits(r2.0, r2.1, c));
    assert(turn_fits(r3.0, r3.1, c));
    lemma_turn_lands(r0.0, r0.1, c, v);
    lemma_turn_lands(r1.0, r1.1, c, v);
    lemma_turn_lands(r2.0, r2.1, c, v);
    lemma_turn_lands(r3.0, r3.1, c, v);
    let (p0, p1, p2, p3, p4) = (r0.1, r1.1, r2.1, r3.1, r4.1);
    assert(p4 =~= p0) by {
        assert forall|k: int| 0 <= k < p0.len() implies #[trigger] p4[k] == p0[k] by {
            let a = (p0[k].0 as int, p0[k].1 as int);
            assert((p1[k].0 as int, p1[k].1 as int) == turned_at(a, c));
            assert((p2[k].0 as int, p2[k].1 as int) == turned_at(turned_at(a, c), c));
            assert((p3[k].0 as int, p3[k].1 as int) == turned_at(turned_at(turned_at(a, c), c), c));
            law_four_turns_identity(a, c);
        }
    }
    assert forall|q: Point| in_bounds(q) implies #[trigger] cell(r4.0, q) == cell(b, q) by {
        assert(cell(r1.0, q) == if p1.contains(q) { v } else if p0.contains(q) { 0 } else { cell(b, q) });
        assert(cell(r2.0, q) == if p2.contains(q) { v } else if p1.contains(q) { 0 } else { cell(r1.0, q) });
        assert(cell(r3.0, q) == if p3.contains(q) { v } else if p2.contains(q) { 0 } else { cell(r2.0, q) });
        assert(cell(r4.0, q) == if p4.contains(q) { v } else if p3.contains(q) { 0 } else { cell(r3.0, q) });
        if p0.contains(q) {
            let k = choose|k: int| 0 <= k < p0.len() && p0[k] == q;
            assert(cell(b, p0[k]) == v);
        }
    }
    lemma_grid_ext(r4.0, b);
}

pub proof fn lemma_half_to_byte_monotone(a: int, b: int)
    requires
        a <= b,
    ensures
        half_to_byte(a) <= half_to_byte(b),
{
}

/// `v2 / 2` converted to a byte, rounded toward zero and clamped.
fn half_to_byte_exec(v2: i64) -> (r: u8)
    requires
        -0x4000_0000 <= v2 <= 0x4000_0000,
    ensures
        r == half_to_byte(v2 as int),
{
    if v2 <= 0 {
        0
    } else if v2 / 2 > 255 {
        255
    } else {
        (v2 / 2) as u8
    }
}

/// `v2 / 2` rounded toward zero.
fn half_trunc_exec(v2: i64) -> (r: i64)
    requires
        -0x4000_0000 <= v2 <= 0x4000_0000,
    ensures
        r == half_trunc(v2 as int),
{
    if v2 >= 0 {
        v2 / 2
    } else {
        -((-v2) / 2)
    }
}

/// `p` is one of the points of `v`.
fn has_point(v: &Vec<Point>, p: Point) -> (r: bool)
    ensures
        r == v@.contains(p),
{
    let mut i: usize = 0;
    while i < v.len()
        invariant
            i <= v@.len(),
            forall|k: int| 0 <= k < i ==> v@[k] != p,
        decreases v@.len() - i,
    {
        if v[i].0 == p.0 && v[i].1 == p.1 {
            assert(v@[i as int] == p);
            return true;
        }
        i = i + 1;
    }
    false
}

/// The cells of `cells`, each once, in reading order.
fn sorted_cells(cells: &Vec<Point>) -> (out: Vec<Point>)
    requires
        all_in_bounds(cells@),
    ensures
        out@.to_set() == cells@.to_set(),
        in_reading_order(out@),
        all_in_bounds(out@),
{
    let mut out: Vec<Point> = Vec::new();
    let mut r: usize = 0;
    while r < 22
        invariant
            all_in_bounds(cells@),
            r <= ROWS,
            in_reading_order(out@),
            forall|i: int| 0 <= i < out@.len() ==> cells@.contains(#[trigger] out@[i]) && reads_before(out@[i], (r, 0usize)),
            forall|q: Point| in_bounds(q) && reads_before(q, (r, 0usize)) && cells@.contains(q) ==> #[trigger] out@.contains(q),
        decreases ROWS - r,
    {
        let mut c: usize = 0;
        while c < 10
            invariant
                all_in_bounds(cells@),
                r < ROWS,
                c <= COLS,
                in_reading_order(out@),
                forall|i: int| 0 <= i < out@.len() ==> cells@.contains(#[trigger] out@[i]) && reads_before(out@[i], (r, c)),
                forall|q: Point| in_bounds(q) && reads_before(q, (r, c)) && cells@.contains(q) ==> #[trigger] out@.contains(q),
            decreases COLS - c,
        {
            if has_point(cells, (r, c)) {
                let ghost prev = out@;
                out.push((r, c));
                assert(out@[prev.len() as int] == (r, c));
                assert forall|q: Point| in_bounds(q) && reads_before(q, (r, (c + 1) as usize)) && cells@.contains(q) implies #[trigger] out@.contains(q) by {
                    if q == (r, c) {
                        assert(out@[prev.len() as int] == q);
                    } else {
                        assert(prev.contains(q));
                        let k = choose|k: int| 0 <= k < prev.len() && prev[k] == q;
                        assert(out@[k] == q);
                    }
                }
                assert forall|i: int, j: int| 0 <= i < j < out@.len() implies reads_before(#[trigger] out@[i], #[trigger] out@[j]) by {
                    if j < prev.len() {
                        assert(out@[i] == prev[i] && out@[j] == prev[j]);
                    } else {
                        assert(out@[i] == prev[i]);
                    }
                }
            } else {
                assert forall|q: Point| in_bounds(q) && reads_before(q, (r, (c + 1) as usize)) && cells@.contains(q) implies #[trigger] out@.contains(q) by {
                    assert(q != (r, c));
                }
            }
            c = c + 1;
        }
        r = r + 1;
    }
    assert forall|q: Point| #[trigger] cells@.contains(q) implies out@.contains(q) by {
        let k = choose|k: int| 0 <= k < cells@.len() && cells@[k] == q;
        assert(in_bounds(cells@[k]));
    }
    assert forall|k: int| 0 <= k < out@.len() implies in_bounds(#[trigger] out@[k]) by {
        let m = choose|m: int| 0 <= m < cells@.len() && cells@[m] == out@[k];
        assert(in_bounds(cells@[m]));
    }
    assert(out@.to_set() =~= cells@.to_set());
    out
}

impl Tetris {
    /// The cells of the field under the square of side `shape_length(points)`
    /// centred on the current centre, row by row; cells of the square outside
    /// the field are left out.
    pub fn shape_matrix(&self, points: &Vec<Point>) -> (matrix: Vec<Vec<u8>>)
        requires
            self.wf(),
            points@.len() > 0,
            seq_max(rows_of(points@)) - seq_min(rows_of(points@)) < EXTENT_LIMIT,
            seq_max(cols_of(points@)) - seq_min(cols_of(points@)) < EXTENT_LIMIT,
            self.center matches Some(c) && center_in_range(c),
        ensures
            rows_view(matrix@) == window_rows(self.board@, self.center.unwrap(), shape_extent(points@)),
    {
        proof {
            lemma_extent_bounds(points@);
        }
        let max_length = Self::shape_length(points);
        let center = self.center.unwrap();
        let ghost b = self.board@;
        let ghost l = shape_extent(points@);
        let half: i64 = max_length as i64 - 1;
        let min_y = half_to_byte_exec(center.0 - half);
        let max_y = half_to_byte_exec(center.0 + half);
        let min_x = half_to_byte_exec(center.1 - half);
        let max_x = half_to_byte_exec(center.1 + half);
        let ghost w = window_rows(b, center, l);
        proof {
            lemma_half_to_byte_monotone(center.0 - (l - 1), center.0 + (l - 1));
            lemma_half_to_byte_monotone(center.1 - (l - 1), center.1 + (l - 1));
        }
        let mut matrix: Vec<Vec<u8>> = Vec::new();
        let mut y: u16 = min_y as u16;
        while y <= max_y as u16
            invariant
                b == self.board@,
                is_grid(b),
                w == window_rows(b, center, l),
                min_y == half_to_byte(center.0 - (l - 1)),
                max_y == half_to_byte(center.0 + (l - 1)),
                min_x == half_to_byte(center.1 - (l - 1)),
                max_x == half_to_byte(center.1 + (l - 1)),
                min_y <= y <= max_y + 1,
                min_x <= max_x,
                w.len() == max_y - min_y + 1,
                rows_view(matrix@) == w.take(y - min_y),
            decreases max_y + 1 - y,
        {
            let mut inner_vector: Vec<u8> = Vec::new();
            let mut x: u16 = min_x as u16;
            while x <= max_x as u16
                invariant
                    b == self.board@,
                    is_grid(b),
                    min_y <= y <= max_y,
                    min_x <= max_x,
                    min_x <= x <= max_x + 1,
                    w == window_rows(b, center, l),
                    min_y == half_to_byte(center.0 - (l - 1)),
                    max_y == half_to_byte(center.0 + (l - 1)),
                    min_x == half_to_byte(center.1 - (l - 1)),
                    max_x == half_to_byte(center.1 + (l - 1)),
                    w.len() == max_y - min_y + 1,
                    rows_view(matrix@) == w.take(y - min_y),
                    inner_vector@ == (if y < ROWS {
                        Seq::new(columns_in_field(min_x as int, x as int) as nat, |k: int| b[y as int][min_x + k])
                    } else {
                        Seq::empty()
                    }),
                decreases max_x + 1 - x,
            {
                if Self::validate_coordinates((y as isize, x as isize)) {
                    inner_vector.push(*self.board.get_element(y as usize, x as usize));
                }
                x = x + 1;
                assert(inner_vector@ =~= (if y < ROWS {
                    Seq::new(columns_in_field(min_x as int, x as int) as nat, |k: int| b[y as int][min_x + k])
                } else {
                    Seq::empty()
                }));
            }
            let ghost prev = matrix@;
            let ghost row = inner_vector@;
            matrix.push(inner_vector);
            y = y + 1;
            assert(rows_view(matrix@) =~= w.take(y - min_y)) by {
                assert(w[y - 1 - min_y] =~= row);
                assert(rows_view(prev).len() == prev.len());
                assert(w.take(y - 1 - min_y).len() == y - 1 - min_y);
                assert forall|k: int| 0 <= k < matrix@.len() implies #[trigger] rows_view(matrix@)[k] == w.take(y - min_y)[k] by {
                    assert(rows_view(matrix@)[k] == matrix@[k]@);
                    assert(w.take(y - min_y)[k] == w[k]);
                    if k < prev.len() {
                        assert(rows_view(prev)[k] == prev[k]@);
                        assert(matrix@[k] == prev[k]);
                        assert(rows_view(prev)[k] == w.take(y - 1 - min_y)[k]);
                    } else {
                        assert(matrix@[k]@ == row);
                    }
                }
            }
        }
        assert(w.take(y - min_y) =~= w);
        matrix
    }

    /// Turns the piece `piece` a quarter turn clockwise about the centre.
    ///
    /// Each cell of the piece is turned about the centre. When every turned
    /// cell lands on a free cell of the field (cells of the piece itself count
    /// as free), the piece's cells are cleared, the turned cells take the
    /// current shape's value, and the turned cells are returned in reading
    /// order, each once. Otherwise the piece's cells are set to the current
    /// shape's value and the piece is returned as `Err`. Other blocks are
    /// neither copied nor moved.
    pub fn rotate(&mut self, piece: &Vec<Point>) -> (r: Result<Vec<Point>, Vec<Point>>)
        requires
            turn_defined(*old(self), piece@),
        ensures
            final(self).wf(),
            final(self).current_shape == old(self).current_shape,
            final(self).center == old(self).center,
            final(self).current_piece == old(self).current_piece,
            final(self).score == old(self).score,
            turn_fits(old(self).board@, piece@, old(self).center.unwrap()) ==> {
                let q = turned_piece(piece@, old(self).center.unwrap());
                &&& r matches Ok(v) && v@.to_set() == q.to_set() && in_reading_order(v@) && all_in_bounds(v@)
                &&& all_in_bounds(q)
                &&& final(self).board@ == turn_board(
                    old(self).board@,
                    piece@,
                    old(self).center.unwrap(),
                    shape_value(old(self).current_shape),
                )
            },
            !turn_fits(old(self).board@, piece@, old(self).center.unwrap()) ==> {
                &&& r matches Err(v) && v@ == piece@
                &&& final(self).board@ == fill_cells(old(self).board@, piece@, shape_value(old(self).current_shape))
            },
    {
        let ghost b0 = self.board@;
        let ghost pts = piece@;
        let points = copy_points(piece);
        let center = self.center.unwrap();
        let dy: i64 = half_trunc_exec(center.0 - center.1);
        let sx: i64 = half_trunc_exec(center.0 + center.1);
        let mut current_shape: u8 = 0;
        if let Some(c) = self.current_shape {
            current_shape = c;
        }
        let ghost z = fill_cells(b0, pts, 0);
        proof {
            lemma_fill_cells_grid(b0, pts, 0);
        }
        let mut turned: Vec<Point> = Vec::new();
        let mut i: usize = 0;
        while i < points.len()
            invariant
                b0 == self.board@,
                b0 == old(self).board@,
                self.current_shape == old(self).current_shape,
                self.center == old(self).center,
                self.current_piece == old(self).current_piece,
                self.score == old(self).score,
                current_shape == shape_value(old(self).current_shape),
                is_grid(b0),
                pts == piece@,
                points@ == pts,
                all_in_bounds(pts),
                z == fill_cells(b0, pts, 0),
                is_grid(z),
                forall|q: Point|
                    #![trigger cell(z, q)]
                    in_bounds(q) ==> cell(z, q) == if pts.contains(q) { 0 } else { cell(b0, q) },
                old(self).center == Some(center),
                center_in_range(center),
                dy == half_trunc(center.0 - center.1),
                sx == half_trunc(center.0 + center.1),
                i <= pts.len(),
                turned@ == turned_piece(pts, center).take(i as int),
                forall|k: int| 0 <= k < i ==> lands_free(z, #[trigger] turned_point(pts[k], center)),
            decreases pts.len() - i,
        {
            let p = points[i];
            assert(in_bounds(pts[i as int]));
            let row: i64 = p.1 as i64 + dy;
            let col: i64 = sx - p.0 as i64;
            assert((row as int, col as int) == turned_point(pts[i as int], center));
            if row < 0 || row > 21 || col < 0 || col > 9 {
                self.set_points_to(&points, current_shape);
                return Err(points);
            }
            let t: Point = (row as usize, col as usize);
            let taken = *self.board.get_element(t.0, t.1) > 0 && !has_point(&points, t);
            assert(cell(z, t) == z[row as int][col as int]);
            if taken {
                self.set_points_to(&points, current_shape);
                return Err(points);
            }
            turned.push(t);
            i = i + 1;
            assert(turned@ =~= turned_piece(pts, center).take(i as int));
        }
        assert(turned_piece(pts, center).take(pts.len() as int) =~= turned_piece(pts, center));
        assert(all_in_bounds(turned@)) by {
            assert forall|k: int| 0 <= k < turned@.len() implies in_bounds(#[trigger] turned@[k]) by {
                assert(lands_free(z, turned_point(pts[k], center)));
            }
        }
        self.set_points_to(&points, 0);
        self.set_points_to(&turned, current_shape);
        Ok(sorted_cells(&turned))
    }
}

} // verus!
