use vstd::prelude::*;
use crate::grid::{fill_cells, is_grid, lemma_set_cell_grid, all_in_bounds, in_bounds, Point, COLS, ROWS};
use crate::random::uniform_in;
use crate::rotation::shape_value;
use crate::tetris::{shape_center_of, Tetris};

verus! {

/// The rows of a shape given as an array of arrays.
pub open spec fn pattern_of<const W: usize, const H: usize>(shape: [[u8; W]; H]) -> Seq<Seq<u8>> {
    shape@.map_values(|r: [u8; W]| r@)
}

/// The cells of row `i` of `pattern` among its first `n` columns that hold 1,
/// shifted right by `col`, from left to right.
pub open spec fn pattern_row(pattern: Seq<Seq<u8>>, col: int, i: int, n: nat) -> Seq<Point>
    decreases n,
{
    if n == 0 {
        Seq::empty()
    } else {
        let prev = pattern_row(pattern, col, i, (n - 1) as nat);
        if pattern[i][n - 1] == 1 {
            prev.push((i as usize, (n - 1 + col) as usize))
        } else {
            prev
        }
    }
}

/// The cells of the first `k` rows of `pattern` that hold 1, shifted right by
/// `col`, in reading order.
pub open spec fn pattern_cells(pattern: Seq<Seq<u8>>, col: int, k: nat) -> Seq<Point>
    decreases k,
{
    if k == 0 {
        Seq::empty()
    } else {
        pattern_cells(pattern, col, (k - 1) as nat) + pattern_row(pattern, col, k - 1, pattern[k - 1].len())
    }
}

/// Every row of `pattern` has `w` cells.
pub open spec fn pattern_width(pattern: Seq<Seq<u8>>, w: nat) -> bool {
    forall|i: int| 0 <= i < pattern.len() ==> #[trigger] pattern[i].len() == w
}

/// The cells of `pattern` that hold 1 lie in its first `ROWS` rows.
pub open spec fn pattern_fits(pattern: Seq<Seq<u8>>) -> bool {
    forall|i: int, j: int| 0 <= i < pattern.len() && 0 <= j < pattern[i].len() && #[trigger] pattern[i][j] == 1 ==> i < ROWS
}

/// `after` is `before` with `pattern` placed at column `col` and the shape
/// returned as `pts`: the cells of the pattern that hold 1 take the current
/// shape's value, the centre is the shape's centre moved right by `col`, and
/// nothing else changes.
pub open spec fn placed(before: Tetris, pattern: Seq<Seq<u8>>, col: int, after: Tetris, pts: Seq<Point>) -> bool {
    let cells = pattern_cells(pattern, col, pattern.len());
    let c = shape_center_of(before.current_shape.unwrap());
    &&& pts == cells
    &&& all_in_bounds(pts)
    &&& after.board@ == fill_cells(before.board@, cells, shape_value(before.current_shape))
    &&& after.center == Some((c.0, (c.1 + 2 * col) as i64))
    &&& after.current_shape == before.current_shape
    &&& after.current_piece == before.current_piece
    &&& after.score == before.score
    &&& after.wf()
}

/// The pattern of shape `n`: 1 is T, 2 and 3 the two L shapes, 4 and 5 the two
/// skew shapes, 6 the square and 7 the straight line.
pub open spec fn shape_pattern(n: u8) -> Seq<Seq<u8>> {
    if n == 1 {
        seq![seq![0u8, 1, 0], seq![1u8, 1, 1]]
    } else if n == 2 {
        seq![seq![0u8, 0, 1], seq![1u8, 1, 1]]
    } else if n == 3 {
        seq![seq![1u8, 0, 0], seq![1u8, 1, 1]]
    } else if n == 4 {
        seq![seq![1u8, 1, 0], seq![0u8, 1, 1]]
    } else if n == 5 {
        seq![seq![0u8, 1, 1], seq![1u8, 1, 0]]
    } else if n == 6 {
        seq![seq![1u8, 1], seq![1u8, 1]]
    } else {
        seq![seq![1u8, 1, 1, 1]]
    }
}

/// The number of columns of shape `n`.
pub open spec fn shape_width(n: u8) -> int {
    if n == 6 {
        2
    } else if n == 7 {
        4
    } else {
        3
    }
}

/// `after` is `before` with shape `n` made current and its pattern placed at
/// column `col`, the placed cells being `pts`.
pub open spec fn placed_shape(before: Tetris, n: u8, col: int, after: Tetris, pts: Seq<Point>) -> bool {
    placed(Tetris { current_shape: Some(n), ..before }, shape_pattern(n), col, after, pts)
}

impl Tetris {
    /// Places `shape` with its left edge at `starting_column`: each cell of the
    /// shape that holds 1 is set to the current shape's value, and the centre is
    /// set to the shape's centre moved right by `starting_column`. Returns the
    /// placed cells in reading order.
    pub fn insert_shape_at<const W: usize, const H: usize>(&mut self, shape: [[u8; W]; H], starting_column: usize) -> (
        points: Vec<Point>)
        requires
            old(self).wf(),
            old(self).current_shape matches Some(n) && 1 <= n <= 7,
            H >= 1,
            W <= COLS,
            starting_column <= COLS - W,
            pattern_fits(pattern_of(shape)),
        ensures
            placed(*old(self), pattern_of(shape), starting_column as int, *final(self), points@),
    {
        let ghost pat = pattern_of(shape);
        let mut center = self.shape_center();
        center.1 = center.1 + 2 * (starting_column as i64);
        self.center = Some(center);
        let mut current_shape: u8 = 0;
        if let Some(p) = self.current_shape {
            current_shape = p;
        }
        let mut points: Vec<Point> = Vec::new();
        let mut i: usize = 0;
        while i < H
            invariant
                pat == pattern_of(shape),
                pattern_fits(pat),
                pat.len() == H,
                pattern_width(pat, W as nat),
                W <= COLS,
                starting_column <= COLS - W,
                i <= H,
                points@ == pattern_cells(pat, starting_column as int, i as nat),
                all_in_bounds(points@),
                is_grid(self.board@),
                self.board@ == fill_cells(old(self).board@, points@, current_shape),
                current_shape == shape_value(old(self).current_shape),
                self.current_shape == old(self).current_shape,
                self.current_piece == old(self).current_piece,
                self.score == old(self).score,
                self.center == Some(center),
            decreases H - i,
        {
            let row: [u8; W] = shape[i];
            assert(row@ == pat[i as int]);
            let mut j: usize = 0;
            while j < W
                invariant
                    pat == pattern_of(shape),
                    pattern_fits(pat),
                    pat.len() == H,
                    pattern_width(pat, W as nat),
                    row@ == pat[i as int],
                    W <= COLS,
                    starting_column <= COLS - W,
                    i < H,
                    j <= W,
                    points@ == pattern_cells(pat, starting_column as int, i as nat) + pattern_row(
                        pat,
                        starting_column as int,
                        i as int,
                        j as nat,
                    ),
                    all_in_bounds(points@),
                    is_grid(self.board@),
                    self.board@ == fill_cells(old(self).board@, points@, current_shape),
                    current_shape == shape_value(old(self).current_shape),
                    self.current_shape == old(self).current_shape,
                    self.current_piece == old(self).current_piece,
                    self.score == old(self).score,
                    self.center == Some(center),
                decreases W - j,
            {
                let ghost before = points@;
                if row[j] == 1 {
                    assert(pat[i as int][j as int] == 1);
                    let p: Point = (i, j + starting_column);
                    assert(in_bounds(p));
                    proof {
                        lemma_set_cell_grid(self.board@, p, current_shape);
                    }
                    self.board.set_element(i, j + starting_column, current_shape);
                    points.push(p);
                    assert(points@.drop_last() =~= before);
                }
                j = j + 1;
                assert(points@ =~= pattern_cells(pat, starting_column as int, i as nat) + pattern_row(
                    pat,
                    starting_column as int,
                    i as int,
                    j as nat,
                ));
            }
            i = i + 1;
            assert(points@ =~= pattern_cells(pat, starting_column as int, i as nat));
        }
        points
    }

    /// Places `shape` at a column drawn at random among those that keep it in
    /// the field; see `insert_shape_at`.
    pub fn insert_shape<const W: usize, const H: usize>(&mut self, shape: [[u8; W]; H]) -> (points: Vec<Point>)
        requires
            old(self).wf(),
            old(self).current_shape matches Some(n) && 1 <= n <= 7,
            H >= 1,
            W <= COLS,
            pattern_fits(pattern_of(shape)),
        ensures
            exists|col: int| 0 <= col <= COLS - W && #[trigger] placed(*old(self), pattern_of(shape), col, *final(self), points@),
    {
        let starting_column = uniform_in(0, 10 - W);
        self.insert_shape_at(shape, starting_column)
    }

    /// Makes `shape` the current shape and places its pattern at a random
    /// column; a number outside 1 to 7 places nothing.
    pub fn insert_shape_number(&mut self, shape: u8) -> (points: Vec<Point>)
        requires
            old(self).wf(),
        ensures
            final(self).current_shape == Some(shape),
            1 <= shape <= 7 ==> exists|col: int|
                0 <= col <= COLS - shape_width(shape) && #[trigger] placed_shape(*old(self), shape, col, *final(self), points@),
            !(1 <= shape <= 7) ==> points@.len() == 0 && final(self).board@ == old(self).board@ && final(self).center
                == old(self).center && final(self).current_piece == old(self).current_piece && final(self).score
                == old(self).score,
    {
        self.current_shape = Some(shape);
        let ghost before = *self;
        assert(before == Tetris { current_shape: Some(shape), ..*old(self) });
        let points = match shape {
            1 => {
                let s: [[u8; 3]; 2] = [[0, 1, 0], [1, 1, 1]];
                assert(pattern_of(s) =~~= shape_pattern(1));
                self.insert_shape::<3, 2>(s)
            },
            2 => {
                let s: [[u8; 3]; 2] = [[0, 0, 1], [1, 1, 1]];
                assert(pattern_of(s) =~~= shape_pattern(2));
                self.insert_shape::<3, 2>(s)
            },
            3 => {
                let s: [[u8; 3]; 2] = [[1, 0, 0], [1, 1, 1]];
                assert(pattern_of(s) =~~= shape_pattern(3));
                self.insert_shape::<3, 2>(s)
            },
            4 => {
                let s: [[u8; 3]; 2] = [[1, 1, 0], [0, 1, 1]];
                assert(pattern_of(s) =~~= shape_pattern(4));
                self.insert_shape::<3, 2>(s)
            },
            5 => {
                let s: [[u8; 3]; 2] = [[0, 1, 1], [1, 1, 0]];
                assert(pattern_of(s) =~~= shape_pattern(5));
                self.insert_shape::<3, 2>(s)
            },
            6 => {
                let s: [[u8; 2]; 2] = [[1, 1], [1, 1]];
                assert(pattern_of(s) =~~= shape_pattern(6));
                self.insert_shape::<2, 2>(s)
            },
            7 => {
                let s: [[u8; 4]; 1] = [[1, 1, 1, 1]];
                assert(pattern_of(s) =~~= shape_pattern(7));
                self.insert_shape::<4, 1>(s)
            },
            _ => Vec::new(),
        };
        proof {
            if 1 <= shape <= 7 {
                let col = choose|col: int|
                    0 <= col <= COLS - shape_width(shape) && #[trigger] placed(before, shape_pattern(shape), col, *self, points@);
                assert(placed_shape(*old(self), shape, col, *self, points@));
            }
        }
        points
    }

    /// Draws a shape number from 1 to 7 at random and places that shape; see
    /// `insert_shape_number`.
    pub fn insert_random_shape(&mut self) -> (points: Vec<Point>)
        requires
            old(self).wf(),
        ensures
            final(self).current_shape matches Some(n) && 1 <= n <= 7,
            exists|col: int|
                0 <= col <= COLS - shape_width(final(self).current_shape.unwrap()) && #[trigger] placed_shape(
                    *old(self),
                    final(self).current_shape.unwrap(),
                    col,
                    *final(self),
                    points@,
                ),
    {
        let shape = uniform_in(1, 7) as u8;
        self.insert_shape_number(shape)
    }
}

} // verus!
