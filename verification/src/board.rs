use vstd::prelude::*;

verus! {

/// A rectangular-or-ragged grid of cells, stored row by row.
pub struct Board<T> {
    board: Vec<Vec<T>>,
}

/// The rows of `rows` as sequences.
pub open spec fn rows_view<T>(rows: Seq<Vec<T>>) -> Seq<Seq<T>> {
    rows.map_values(|r: Vec<T>| r@)
}

/// The cell `(i, j)` of `s`, or `fallback` when row `i` is shorter than `j + 1`.
pub open spec fn cell_or<T>(s: Seq<Seq<T>>, i: int, j: int, fallback: T) -> T {
    if 0 <= j < s[i].len() {
        s[i][j]
    } else {
        fallback
    }
}

/// `s` turned a quarter turn clockwise: row `j` of the result is column `j` of
/// `s` read from the bottom row up. The result has as many rows as the first row
/// of `s` has cells; a cell that a short row of `s` does not reach holds `s[0][0]`.
pub open spec fn rotated<T>(s: Seq<Seq<T>>) -> Seq<Seq<T>> {
    let n = s.len();
    let m = s[0].len();
    Seq::new(m, |j: int| Seq::new(n, |k: int| cell_or(s, n - 1 - k, j, s[0][0])))
}

/// Every row of `s` has exactly `m` cells.
pub open spec fn is_rectangular<T>(s: Seq<Seq<T>>, m: nat) -> bool {
    forall|i: int| 0 <= i < s.len() ==> #[trigger] s[i].len() == m
}

/// A board can be turned when it has a first row with a first cell and no row
/// longer than the first.
pub open spec fn can_rotate<T>(s: Seq<Seq<T>>) -> bool {
    &&& s.len() > 0
    &&& s[0].len() > 0
    &&& forall|i: int| 0 <= i < s.len() ==> #[trigger] s[i].len() <= s[0].len()
}

/// Turning a rectangular board of `n` rows of `m` cells gives a rectangular
/// board of `m` rows of `n` cells whose cell `(j, k)` is the cell
/// `(n - 1 - k, j)` of the board before the turn.
pub proof fn lemma_rotated_rectangular<T>(s: Seq<Seq<T>>, m: nat)
    requires
        s.len() > 0,
        m > 0,
        is_rectangular(s, m),
    ensures
        rotated(s).len() == m,
        is_rectangular(rotated(s), s.len()),
        forall|j: int, k: int|
            0 <= j < m && 0 <= k < s.len() ==> #[trigger] rotated(s)[j][k] == s[s.len() - 1 - k][j],
{
    assert(s[0].len() == m);
}

/// Four quarter turns bring a non-empty rectangular board back to itself.
pub proof fn law_four_rotations_identity<T>(s: Seq<Seq<T>>, m: nat)
    requires
        s.len() > 0,
        m > 0,
        is_rectangular(s, m),
    ensures
        can_rotate(s),
        rotated(rotated(rotated(rotated(s)))) == s,
{
    let n = s.len();
    assert(s[0].len() == m);
    lemma_rotated_rectangular(s, m);
    let r1 = rotated(s);
    lemma_rotated_rectangular(r1, n);
    let r2 = rotated(r1);
    lemma_rotated_rectangular(r2, m);
    let r3 = rotated(r2);
    lemma_rotated_rectangular(r3, n);
    let r4 = rotated(r3);
    assert(r4.len() == n);
    assert forall|i: int| 0 <= i < n implies #[trigger] r4[i] =~= s[i] by {
        assert forall|j: int| 0 <= j < m implies r4[i][j] == s[i][j] by {
            assert(r4[i][j] == r3[m - 1 - j][i]);
            assert(r3[m - 1 - j][i] == r2[n - 1 - i][m - 1 - j]);
            assert(r2[n - 1 - i][m - 1 - j] == r1[j][n - 1 - i]);
            assert(r1[j][n - 1 - i] == s[i][j]);
        }
    }
    assert(r4 =~= s);
}

impl<T> View for Board<T> {
    type V = Seq<Seq<T>>;

    closed spec fn view(&self) -> Seq<Seq<T>> {
        rows_view(self.board@)
    }
}

impl<T: Copy> Board<T> {
    /// A board of `i` rows of `j` cells, each holding `default`.
    pub fn new(i: usize, j: usize, default: T) -> (b: Board<T>)
        ensures
            b@ == Seq::new(i as nat, |_r: int| Seq::new(j as nat, |_c: int| default)),
    {
        let mut rows: Vec<Vec<T>> = Vec::new();
        let mut r: usize = 0;
        while r < i
            invariant
                r <= i,
                rows@.len() == r,
                forall|k: int| 0 <= k < r ==> (#[trigger] rows@[k])@ == Seq::new(j as nat, |_c: int| default),
            decreases i - r,
        {
            let mut row: Vec<T> = Vec::new();
            let mut c: usize = 0;
            while c < j
                invariant
                    c <= j,
                    row@ == Seq::new(c as nat, |_c: int| default),
                decreases j - c,
            {
                row.push(default);
                c = c + 1;
                assert(row@ =~= Seq::new(c as nat, |_c: int| default));
            }
            rows.push(row);
            r = r + 1;
        }
        let b = Board { board: rows };
        assert(b@ =~= Seq::new(i as nat, |_r: int| Seq::new(j as nat, |_c: int| default)));
        b
    }

    /// The board whose rows are `board`.
    pub fn from(board: Vec<Vec<T>>) -> (b: Board<T>)
        ensures
            b@ == rows_view(board@),
    {
        Board { board }
    }

    /// The cell in row `i` and column `j`.
    pub fn get_element(&self, i: usize, j: usize) -> (e: &T)
        requires
            i < self@.len(),
            j < self@[i as int].len(),
        ensures
            *e == self@[i as int][j as int],
    {
        &self.board[i][j]
    }

    /// Writes `new_element` into row `i`, column `j`; nothing else changes.
    pub fn set_element(&mut self, i: usize, j: usize, new_element: T)
        requires
            i < old(self)@.len(),
            j < old(self)@[i as int].len(),
        ensures
            final(self)@ == old(self)@.update(i as int, old(self)@[i as int].update(j as int, new_element)),
    {
        let ghost before = self@;
        self.board[i][j] = new_element;
        assert(self@ =~= before.update(i as int, before[i as int].update(j as int, new_element)));
    }

    /// Turns the board a quarter turn clockwise.
    pub fn rotate_clockwise(&mut self)
        requires
            can_rotate(old(self)@),
        ensures
            final(self)@ == rotated(old(self)@),
    {
        let ghost s = self@;
        let n = self.board.len();
        let m = self.board[0].len();
        let first = self.board[0][0];
        let mut rotated_matrix: Vec<Vec<T>> = Vec::new();
        let mut r: usize = 0;
        while r < m
            invariant
                r <= m,
                rotated_matrix@.len() == r,
                forall|k: int| 0 <= k < r ==> (#[trigger] rotated_matrix@[k])@ == Seq::new(n as nat, |_c: int| first),
            decreases m - r,
        {
            let mut row: Vec<T> = Vec::new();
            let mut c: usize = 0;
            while c < n
                invariant
                    c <= n,
                    row@ == Seq::new(c as nat, |_c: int| first),
                decreases n - c,
            {
                row.push(first);
                c = c + 1;
                assert(row@ =~= Seq::new(c as nat, |_c: int| first));
            }
            rotated_matrix.push(row);
            r = r + 1;
        }
        let mut i: usize = 0;
        while i < n
            invariant
                s == self@,
                n == s.len(),
                m == s[0].len(),
                first == s[0][0],
                can_rotate(s),
                i <= n,
                rotated_matrix@.len() == m,
                forall|a: int| 0 <= a < m ==> (#[trigger] rotated_matrix@[a])@.len() == n,
                forall|a: int, k: int|
                    0 <= a < m && 0 <= k < n ==> (#[trigger] rotated_matrix@[a]@[k]) == (if n - 1 - k < i
                        && a < s[n - 1 - k].len() {
                        s[n - 1 - k][a]
                    } else {
                        first
                    }),
            decreases n - i,
        {
            let row_len = self.board[i].len();
            let mut j: usize = 0;
            while j < row_len
                invariant
                    s == self@,
                    n == s.len(),
                    m == s[0].len(),
                    first == s[0][0],
                    can_rotate(s),
                    i < n,
                    row_len == s[i as int].len(),
                    j <= row_len,
                    rotated_matrix@.len() == m,
                    forall|a: int| 0 <= a < m ==> (#[trigger] rotated_matrix@[a])@.len() == n,
                    forall|a: int, k: int|
                        0 <= a < m && 0 <= k < n ==> (#[trigger] rotated_matrix@[a]@[k]) == (if (n - 1
                            - k < i || (n - 1 - k == i && a < j)) && a < s[n - 1 - k].len() {
                            s[n - 1 - k][a]
                        } else {
                            first
                        }),
                decreases row_len - j,
            {
                assert(s[i as int] == self.board@[i as int]@);
                let element = self.board[i][j];
                rotated_matrix[j][n - i - 1] = element;
                j = j + 1;
            }
            i = i + 1;
        }
        self.board = rotated_matrix;
        assert(self@ =~= rotated(s)) by {
            assert forall|a: int| 0 <= a < m implies #[trigger] self@[a] =~= rotated(s)[a] by {
                assert forall|k: int| 0 <= k < n implies self@[a][k] == rotated(s)[a][k] by {
                    assert(rotated_matrix@[a]@[k] == self@[a][k]);
                }
            }
        }
    }

    /// A copy of the rows of the board.
    pub fn get_matrix(&self) -> (rows: Vec<Vec<T>>)
        ensures
            rows_view(rows@) == self@,
    {
        let mut out: Vec<Vec<T>> = Vec::new();
        let mut i: usize = 0;
        while i < self.board.len()
            invariant
                i <= self.board@.len(),
                out@.len() == i,
                forall|k: int| 0 <= k < i ==> (#[trigger] out@[k])@ == self.board@[k]@,
            decreases self.board@.len() - i,
        {
            let mut row: Vec<T> = Vec::new();
            let mut j: usize = 0;
            while j < self.board[i].len()
                invariant
                    i < self.board@.len(),
                    j <= self.board@[i as int]@.len(),
                    row@ == self.board@[i as int]@.subrange(0, j as int),
                decreases self.board@[i as int]@.len() - j,
            {
                row.push(self.board[i][j]);
                j = j + 1;
                assert(row@ =~= self.board@[i as int]@.subrange(0, j as int));
            }
            assert(row@ =~= self.board@[i as int]@);
            out.push(row);
            i = i + 1;
        }
        assert(rows_view(out@) =~= self@);
        out
    }
}

} // verus!
