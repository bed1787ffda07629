use vstd::prelude::*;
use crate::grid::{is_grid, COLS, ROWS};
use crate::laws::{lemma_line_moves_down, zero_row};
use crate::motion::{cleared_rows, has_full_row, is_side, movable, settle, side_free, sweep};
use crate::tetris::line_points;

verus! {

/// Every cell of the row holds 0.
pub open spec fn is_zero_row(r: Seq<u8>) -> bool {
    forall|j: int| 0 <= j < r.len() ==> r[j] == 0
}

/// The test that keeps a row: it holds a non-zero cell.
pub open spec fn non_empty_row() -> spec_fn(Seq<u8>) -> bool {
    |r: Seq<u8>| !is_zero_row(r)
}

/// The rows of `rows` that hold a non-zero cell, in their order.
pub open spec fn kept_rows(rows: Seq<Seq<u8>>) -> Seq<Seq<u8>> {
    rows.filter(non_empty_row())
}

/// The non-empty rows of `rows`, in their order, at the bottom, under as many
/// rows of zeros as it takes to keep the number of rows.
pub open spec fn stacked(rows: Seq<Seq<u8>>) -> Seq<Seq<u8>> {
    let k = kept_rows(rows);
    Seq::new((rows.len() - k.len()) as nat, |_i: int| zero_row()) + k
}

/// No empty row lies below a non-empty one.
pub open spec fn compact(rows: Seq<Seq<u8>>) -> bool {
    forall|i: int, j: int|
        #![trigger is_zero_row(rows[i]), is_zero_row(rows[j])]
        0 <= i < j < rows.len() && is_zero_row(rows[j]) ==> is_zero_row(rows[i])
}

/// Every row of `rows` has `COLS` cells.
pub open spec fn rows_of_width(rows: Seq<Seq<u8>>) -> bool {
    forall|i: int| 0 <= i < rows.len() ==> #[trigger] rows[i].len() == COLS
}

/// A whole row can move down exactly when there is a row below it and that
/// row is empty.
proof fn lemma_line_movable(b: Seq<Seq<u8>>, i: usize)
    requires
        is_grid(b),
        i < ROWS,
    ensures
        movable(b, line_points(i), 'D') <==> (i + 1 < ROWS && is_zero_row(b[i + 1])),
{
    let pts = line_points(i);
    assert forall|k: int| 0 <= k < pts.len() implies is_side(pts, #[trigger] pts[k], 'D') by {
        assert forall|m: int| 0 <= m < pts.len() && crate::motion::line_of(#[trigger] pts[m], 'D') == crate::motion::line_of(pts[k], 'D') implies !crate::motion::beyond(pts[m], pts[k], 'D') by {
            assert(pts[m] == pts[k]);
        }
    }
    if movable(b, pts, 'D') {
        assert(side_free(b, pts[0], 'D'));
        let row = b[i + 1];
        assert forall|j: int| 0 <= j < row.len() implies #[trigger] row[j] == 0 by {
            assert(side_free(b, pts[j], 'D'));
        }
    }
    if i + 1 < ROWS && is_zero_row(b[i + 1]) {
        assert forall|k: int| 0 <= k < pts.len() && is_side(pts, #[trigger] pts[k], 'D') implies side_free(b, pts[k], 'D') by {
            assert(b[i + 1][k] == 0);
        }
    }
}

/// A row of zeros on top of compact rows leaves them compact.
proof fn lemma_compact_prepend(z: Seq<u8>, rows: Seq<Seq<u8>>)
    requires
        is_zero_row(z),
        compact(rows),
    ensures
        compact(seq![z] + rows),
{
    let s = seq![z] + rows;
    assert forall|i: int, j: int|
        #![trigger is_zero_row(s[i]), is_zero_row(s[j])]
        0 <= i < j < s.len() && is_zero_row(s[j]) implies is_zero_row(s[i]) by {
        if i > 0 {
            assert(s[i] == rows[i - 1]);
            assert(s[j] == rows[j - 1]);
        }
    }
}

/// Swapping an empty row with the row above it, or replacing one empty row by
/// another, keeps the non-empty rows and their order.
proof fn lemma_kept_swap(b: Seq<Seq<u8>>, i: int, z: Seq<u8>)
    requires
        0 <= i,
        i + 1 < b.len(),
        is_zero_row(b[i + 1]),
        is_zero_row(z),
    ensures
        kept_rows(b.update(i + 1, b[i]).update(i, z)) == kept_rows(b),
{
    let p = non_empty_row();
    let m = b.update(i + 1, b[i]).update(i, z);
    let a = b.subrange(0, i);
    let c = b.subrange(i + 2, b.len() as int);
    assert(b =~= a + (seq![b[i]] + (seq![b[i + 1]] + c)));
    assert(m =~= a + (seq![z] + (seq![b[i]] + c)));
    Seq::filter_distributes_over_add(a, seq![b[i]] + (seq![b[i + 1]] + c), p);
    Seq::filter_distributes_over_add(a, seq![z] + (seq![b[i]] + c), p);
    (seq![b[i + 1]] + c).lemma_filter_prepend(b[i], p);
    c.lemma_filter_prepend(b[i + 1], p);
    (seq![b[i]] + c).lemma_filter_prepend(z, p);
    c.lemma_filter_prepend(b[i], p);
    assert((seq![b[i + 1]] + c).filter(p) == c.filter(p));
    assert((seq![z] + (seq![b[i]] + c)).filter(p) == (seq![b[i]] + c).filter(p));
}

/// A row dropped onto compact rows below it: the rows above it stay, the rows
/// from it down are compact, and the non-empty rows keep their order.
proof fn lemma_settle_line(b: Seq<Seq<u8>>, i: usize, fuel: nat)
    requires
        is_grid(b),
        i < ROWS,
        compact(b.subrange(i + 1, ROWS as int)),
        fuel + i + 1 >= ROWS,
    ensures
        is_grid(settle(b, line_points(i), fuel).0),
        settle(b, line_points(i), fuel).0.subrange(0, i as int) == b.subrange(0, i as int),
        compact(settle(b, line_points(i), fuel).0.subrange(i as int, ROWS as int)),
        kept_rows(settle(b, line_points(i), fuel).0) == kept_rows(b),
    decreases fuel,
{
    lemma_line_movable(b, i);
    let r = settle(b, line_points(i), fuel).0;
    if fuel > 0 && movable(b, line_points(i), 'D') {
        lemma_line_moves_down(b, i);
        let m = b.update(i + 1, b[i as int]).update(i as int, zero_row());
        assert(is_grid(m));
        assert(m.subrange(i + 2, ROWS as int) =~= b.subrange(i + 1, ROWS as int).subrange(1, ROWS - i - 1));
        assert(compact(m.subrange(i + 2, ROWS as int))) by {
            let t = b.subrange(i + 1, ROWS as int);
            let u = m.subrange(i + 2, ROWS as int);
            assert forall|x: int, y: int|
                #![trigger is_zero_row(u[x]), is_zero_row(u[y])]
                0 <= x < y < u.len() && is_zero_row(u[y]) implies is_zero_row(u[x]) by {
                assert(u[x] == t[x + 1]);
                assert(u[y] == t[y + 1]);
            }
        }
        lemma_settle_line(m, (i + 1) as usize, (fuel - 1) as nat);
        assert(r == settle(m, line_points((i + 1) as usize), (fuel - 1) as nat).0);
        let rs = r.subrange(i as int, ROWS as int);
        assert(r.subrange(0, i + 1) == m.subrange(0, i + 1));
        assert(r[i as int] == r.subrange(0, i + 1)[i as int]);
        assert(r[i as int] == zero_row());
        assert(rs =~= seq![zero_row()] + r.subrange(i + 1, ROWS as int));
        lemma_compact_prepend(zero_row(), r.subrange(i + 1, ROWS as int));
        assert(r.subrange(0, i as int) =~= r.subrange(0, i + 1).subrange(0, i as int));
        assert(b.subrange(0, i as int) =~= m.subrange(0, i + 1).subrange(0, i as int));
        lemma_kept_swap(b, i as int, zero_row());
    } else {
        assert(r == b);
        let s = b.subrange(i as int, ROWS as int);
        let t = b.subrange(i + 1, ROWS as int);
        assert forall|x: int, y: int|
            #![trigger is_zero_row(s[x]), is_zero_row(s[y])]
            0 <= x < y < s.len() && is_zero_row(s[y]) implies is_zero_row(s[x]) by {
            assert(s[y] == t[y - 1]);
            if y > 1 {
                assert(t[0] == b[i + 1]);
                assert(is_zero_row(t[0]));
            }
        }
    }
}

/// The rows of compact rows below the first are compact.
proof fn lemma_compact_tail(s: Seq<Seq<u8>>)
    requires
        compact(s),
        s.len() > 0,
    ensures
        compact(s.drop_first()),
{
    let t = s.drop_first();
    assert forall|x: int, y: int|
        #![trigger is_zero_row(t[x]), is_zero_row(t[y])]
        0 <= x < y < t.len() && is_zero_row(t[y]) implies is_zero_row(t[x]) by {
        assert(t[x] == s[x + 1]);
        assert(t[y] == s[y + 1]);
    }
}

/// An empty row on top of rows that are their own stacking.
#[verifier::spinoff_prover]
#[verifier::rlimit(40)]
proof fn lemma_stacked_zero_on_top(s0: Seq<u8>, t: Seq<Seq<u8>>)
    requires
        is_zero_row(s0),
        s0.len() == COLS,
        t == stacked(t),
    ensures
        seq![s0] + t == stacked(seq![s0] + t),
{
    let p = non_empty_row();
    let kt = kept_rows(t);
    t.lemma_filter_prepend(s0, p);
    assert(!p(s0));
    assert(kept_rows(seq![s0] + t) =~= kt);
    assert(s0 =~= zero_row());
    let zt = Seq::new((t.len() - kt.len()) as nat, |_i: int| zero_row());
    assert(stacked(seq![s0] + t) =~= seq![zero_row()] + (zt + kt));
}

/// A non-empty row on top of rows that are their own stacking and start with a
/// non-empty row, if any.
#[verifier::spinoff_prover]
#[verifier::rlimit(40)]
proof fn lemma_stacked_row_on_top(s0: Seq<u8>, t: Seq<Seq<u8>>)
    requires
        !is_zero_row(s0),
        t == stacked(t),
        t.len() > 0 ==> !is_zero_row(t[0]),
    ensures
        seq![s0] + t == stacked(seq![s0] + t),
{
    let p = non_empty_row();
    let kt = kept_rows(t);
    t.lemma_filter_len(p);
    t.lemma_filter_prepend(s0, p);
    assert(p(s0));
    assert(kept_rows(seq![s0] + t) =~= seq![s0] + kt);
    let zt = Seq::new((t.len() - kt.len()) as nat, |_i: int| zero_row());
    assert(zt.len() == 0) by {
        if zt.len() > 0 {
            assert(t[0] == (zt + kt)[0]);
            assert(t[0] == zero_row());
        }
    }
    assert(t =~= kt);
    assert(stacked(seq![s0] + t) =~= seq![s0] + kt);
}

/// Compact rows of full width are their own stacking.
proof fn lemma_compact_stacked(s: Seq<Seq<u8>>)
    requires
        compact(s),
        rows_of_width(s),
    ensures
        s == stacked(s),
    decreases s.len(),
{
    if s.len() == 0 {
        reveal(Seq::filter);
        assert(stacked(s) =~= s);
    } else {
        let s0 = s[0];
        let t = s.drop_first();
        assert(s =~= seq![s0] + t);
        lemma_compact_tail(s);
        assert(rows_of_width(t)) by {
            assert forall|x: int| 0 <= x < t.len() implies #[trigger] t[x].len() == COLS by {
                assert(t[x] == s[x + 1]);
            }
        }
        lemma_compact_stacked(t);
        if is_zero_row(s0) {
            lemma_stacked_zero_on_top(s0, t);
        } else {
            assert(t.len() > 0 ==> !is_zero_row(t[0])) by {
                if t.len() > 0 && is_zero_row(t[0]) {
                    assert(t[0] == s[1]);
                    assert(is_zero_row(s[1]));
                    assert(is_zero_row(s[0]));
                }
            }
            lemma_stacked_row_on_top(s0, t);
        }
    }
}

/// Dropping the rows `n - 1`, ..., `0` onto compact rows below them stacks the
/// non-empty rows of the field at the bottom, in their order.
proof fn lemma_sweep_stacks(b: Seq<Seq<u8>>, n: nat)
    requires
        is_grid(b),
        n <= ROWS,
        compact(b.subrange(n as int, ROWS as int)),
    ensures
        sweep(b, n).0 == stacked(b),
    decreases n,
{
    if n == 0 {
        assert(b.subrange(0, ROWS as int) =~= b);
        lemma_compact_stacked(b);
    } else {
        let i = (n - 1) as usize;
        lemma_settle_line(b, i, ROWS as nat);
        let r = settle(b, line_points(i), ROWS as nat).0;
        lemma_sweep_stacks(r, (n - 1) as nat);
        assert(stacked(r) == stacked(b));
    }
}

/// Once the full rows are cleared, the non-empty rows of the field end up at
/// its bottom, in the order they had, under rows of zeros.
pub proof fn law_clearing_stacks_rows(b: Seq<Seq<u8>>)
    requires
        is_grid(b),
    ensures
        has_full_row(b) ==> sweep(cleared_rows(b), ROWS as nat).0 == stacked(cleared_rows(b)),
        is_grid(stacked(cleared_rows(b))),
{
    let c = cleared_rows(b);
    assert(is_grid(c));
    let e = c.subrange(ROWS as int, ROWS as int);
    assert(compact(e));
    lemma_sweep_stacks(c, ROWS as nat);
    let p = non_empty_row();
    c.lemma_filter_len(p);
    let k = kept_rows(c);
    assert forall|x: int| 0 <= x < k.len() implies #[trigger] k[x].len() == COLS by {
        c.lemma_filter_pred(p, x);
        assert(c.filter(p).contains(k[x])) by {
            assert(c.filter(p)[x] == k[x]);
        }
        c.lemma_filter_contains_rev(p, k[x]);
    }
}

} // verus!
