use vstd::prelude::*;
use vstd::arithmetic::div_mod::{lemma_div_is_ordered, lemma_div_by_multiple, lemma_div_pos_is_pos};
use vstd::arithmetic::mul::lemma_mul_inequality;

verus! {

/// Fixed-point value that stands for the height `1.0`: normalised height
/// fields hold values in `0 ..= HEIGHT_UNIT`.
pub const HEIGHT_UNIT: i64 = 1_000_000;

/// A fixed-size two-dimensional grid stored row by row.
///
/// The cell at `(row, col)` lives at `row * width + col` in `cells`.
pub struct Grid<T> {
    pub width: usize,
    pub height: usize,
    pub cells: Vec<T>,
}

/// Position of `(row, col)` in the row-major storage of a grid `width` wide.
pub open spec fn cell_index(width: int, row: int, col: int) -> int {
    row * width + col
}

/// Row-major positions of distinct in-range cells are distinct and in range.
pub proof fn lemma_cell_index_bounds(width: int, height: int, row: int, col: int)
    requires
        0 <= row < height,
        0 <= col < width,
    ensures
        0 <= cell_index(width, row, col) < width * height,
{
    lemma_mul_inequality(row + 1, height, width);
    assert(0 <= row * width) by (nonlinear_arith)
        requires
            0 <= row,
            0 <= width,
    ;
    assert((row + 1) * width == row * width + width) by (nonlinear_arith);
    assert(height * width == width * height) by (nonlinear_arith);
}

pub proof fn lemma_cell_index_injective(width: int, r1: int, c1: int, r2: int, c2: int)
    requires
        0 <= c1 < width,
        0 <= c2 < width,
        0 <= r1,
        0 <= r2,
        cell_index(width, r1, c1) == cell_index(width, r2, c2),
    ensures
        r1 == r2,
        c1 == c2,
{
    if r1 < r2 {
        assert(r1 * width + width <= r2 * width) by (nonlinear_arith)
            requires
                r1 < r2,
                0 <= width,
        ;
    } else if r2 < r1 {
        assert(r2 * width + width <= r1 * width) by (nonlinear_arith)
            requires
                r2 < r1,
                0 <= width,
        ;
    }
}

impl<T> Grid<T> {
    /// The storage holds exactly one value per cell.
    pub open spec fn wf(&self) -> bool {
        self.cells@.len() == self.width * self.height
    }

    pub open spec fn in_bounds(&self, row: int, col: int) -> bool {
        0 <= row < self.height && 0 <= col < self.width
    }

    /// The value held at `(row, col)`.
    pub open spec fn cell(&self, row: int, col: int) -> T {
        self.cells@[cell_index(self.width as int, row, col)]
    }

    pub fn get(&self, row: usize, col: usize) -> (r: &T)
        requires
            self.wf(),
            self.in_bounds(row as int, col as int),
        ensures
            *r == self.cell(row as int, col as int),
    {
        let _n = self.cells.len();
        proof {
            lemma_cell_index_bounds(self.width as int, self.height as int, row as int, col as int);
        }
        &self.cells[row * self.width + col]
    }

    pub fn set(&mut self, row: usize, col: usize, value: T)
        requires
            old(self).wf(),
            old(self).in_bounds(row as int, col as int),
        ensures
            final(self).width == old(self).width,
            final(self).height == old(self).height,
            final(self).cells@ == old(self).cells@.update(
                cell_index(old(self).width as int, row as int, col as int),
                value,
            ),
    {
        let _n = self.cells.len();
        proof {
            lemma_cell_index_bounds(self.width as int, self.height as int, row as int, col as int);
        }
        let k = row * self.width + col;
        self.cells.set(k, value);
    }

    /// Reads a cell addressed by signed coordinates.
    pub fn get_signed(&self, pos: (i32, i32)) -> (r: &T)
        requires
            self.wf(),
            self.in_bounds(pos.0 as int, pos.1 as int),
        ensures
            *r == self.cell(pos.0 as int, pos.1 as int),
    {
        self.get(pos.0 as usize, pos.1 as usize)
    }

    /// Writes a cell addressed by signed coordinates.
    pub fn set_signed(&mut self, pos: (i32, i32), value: T)
        requires
            old(self).wf(),
            old(self).in_bounds(pos.0 as int, pos.1 as int),
        ensures
            final(self).width == old(self).width,
            final(self).height == old(self).height,
            final(self).cells@ == old(self).cells@.update(
                cell_index(old(self).width as int, pos.0 as int, pos.1 as int),
                value,
            ),
    {
        self.set(pos.0 as usize, pos.1 as usize, value)
    }
}

impl<T: Copy> Grid<T> {
    /// A `width` by `height` grid whose every cell holds `value`.
    pub fn new(width: usize, height: usize, value: T) -> (r: Grid<T>)
        requires
            width * height <= usize::MAX,
        ensures
            r.wf(),
            r.width == width,
            r.height == height,
            forall|k: int| 0 <= k < r.cells@.len() ==> r.cells@[k] == value,
    {
        let n = width * height;
        let mut cells: Vec<T> = Vec::new();
        let mut k: usize = 0;
        while k < n
            invariant
                k <= n,
                cells@.len() == k,
                forall|i: int| 0 <= i < k ==> cells@[i] == value,
            decreases n - k,
        {
            cells.push(value);
            k = k + 1;
        }
        Grid { width, height, cells }
    }
}

/// Writing `value` at an in-range cell and reading that cell back gives
/// `value`; every other cell keeps what it held.
pub proof fn lemma_set_then_get<T>(before: Grid<T>, after: Grid<T>, row: int, col: int, value: T)
    requires
        before.wf(),
        before.in_bounds(row, col),
        after.width == before.width,
        after.height == before.height,
        after.cells@ == before.cells@.update(cell_index(before.width as int, row, col), value),
    ensures
        after.wf(),
        after.cell(row, col) == value,
        forall|r: int, c: int|
            #![trigger after.cell(r, c)]
            before.in_bounds(r, c) && (r, c) != (row, col) ==> after.cell(r, c) == before.cell(r, c),
{
    lemma_cell_index_bounds(before.width as int, before.height as int, row, col);
    assert forall|r: int, c: int|
        #![trigger after.cell(r, c)]
        before.in_bounds(r, c) && (r, c) != (row, col) implies after.cell(r, c) == before.cell(r, c) by {
        lemma_cell_index_bounds(before.width as int, before.height as int, r, c);
        if cell_index(before.width as int, r, c) == cell_index(before.width as int, row, col) {
            lemma_cell_index_injective(before.width as int, r, c, row, col);
        }
    }
}

/// Smallest value of a non-empty sequence.
pub open spec fn seq_min(s: Seq<i64>) -> int
    decreases s.len(),
{
    if s.len() <= 1 {
        if s.len() == 0 { 0 } else { s[0] as int }
    } else {
        let m = seq_min(s.drop_last());
        if s.last() < m { s.last() as int } else { m }
    }
}

/// Largest value of a non-empty sequence.
pub open spec fn seq_max(s: Seq<i64>) -> int
    decreases s.len(),
{
    if s.len() <= 1 {
        if s.len() == 0 { 0 } else { s[0] as int }
    } else {
        let m = seq_max(s.drop_last());
        if s.last() > m { s.last() as int } else { m }
    }
}

pub proof fn lemma_seq_min_max(s: Seq<i64>)
    requires
        s.len() > 0,
    ensures
        forall|k: int| 0 <= k < s.len() ==> seq_min(s) <= #[trigger] s[k] <= seq_max(s),
        exists|k: int| 0 <= k < s.len() && s[k] == seq_min(s),
        exists|k: int| 0 <= k < s.len() && s[k] == seq_max(s),
    decreases s.len(),
{
    if s.len() > 1 {
        lemma_seq_min_max(s.drop_last());
        let kmin = choose|k: int| 0 <= k < s.len() - 1 && s.drop_last()[k] == seq_min(s.drop_last());
        let kmax = choose|k: int| 0 <= k < s.len() - 1 && s.drop_last()[k] == seq_max(s.drop_last());
        assert(s[kmin] == s.drop_last()[kmin]);
        assert(s[kmax] == s.drop_last()[kmax]);
        assert forall|k: int| 0 <= k < s.len() implies seq_min(s) <= #[trigger] s[k] <= seq_max(s) by {
            if k < s.len() - 1 {
                assert(s[k] == s.drop_last()[k]);
            }
        }
    } else {
        assert(s[0] == seq_min(s));
    }
}

/// Min-max rescaling of `x` from `lo ..= hi` onto `0 ..= HEIGHT_UNIT`,
/// rounded down; a flat range maps everything to `0`.
pub open spec fn rescale(x: int, lo: int, hi: int) -> int {
    if lo < hi {
        (x - lo) * HEIGHT_UNIT / (hi - lo)
    } else {
        0
    }
}

proof fn lemma_rescale_bounds(x: int, lo: int, hi: int)
    requires
        lo <= x <= hi,
    ensures
        0 <= rescale(x, lo, hi) <= HEIGHT_UNIT,
        x == lo ==> rescale(x, lo, hi) == 0,
        lo < hi && x == hi ==> rescale(x, lo, hi) == HEIGHT_UNIT,
{
    if lo < hi {
        let a = x - lo;
        let b = hi - lo;
        lemma_mul_inequality(a, b, HEIGHT_UNIT as int);
        lemma_div_is_ordered(a * HEIGHT_UNIT, b * HEIGHT_UNIT, b);
        assert(b * HEIGHT_UNIT == HEIGHT_UNIT * b) by (nonlinear_arith);
        lemma_div_by_multiple(HEIGHT_UNIT as int, b);
        assert(0 <= a * HEIGHT_UNIT) by (nonlinear_arith)
            requires
                0 <= a,
        ;
        lemma_div_pos_is_pos(a * HEIGHT_UNIT, b);
        if x == hi {
            assert(a == b);
        }
    }
}

impl Grid<i64> {
    /// Min-max normalisation: every cell `x` becomes
    /// `rescale(x, min, max)`, so a varied field afterwards spans exactly
    /// `0 ..= HEIGHT_UNIT` and a flat one becomes all zeros.
    pub fn normalize(&mut self)
        ensures
            final(self).width == old(self).width,
            final(self).height == old(self).height,
            final(self).cells@.len() == old(self).cells@.len(),
            forall|k: int|
                0 <= k < old(self).cells@.len() ==> #[trigger] final(self).cells@[k] == rescale(
                    old(self).cells@[k] as int,
                    seq_min(old(self).cells@),
                    seq_max(old(self).cells@),
                ),
            forall|k: int|
                0 <= k < final(self).cells@.len() ==> 0 <= #[trigger] final(self).cells@[k] <= HEIGHT_UNIT,
            final(self).cells@.len() > 0 && seq_min(old(self).cells@) < seq_max(old(self).cells@) ==> (
            seq_min(final(self).cells@) == 0 && seq_max(final(self).cells@) == HEIGHT_UNIT),
            seq_min(old(self).cells@) == seq_max(old(self).cells@) ==> forall|k: int|
                0 <= k < final(self).cells@.len() ==> #[trigger] final(self).cells@[k] == 0,
    {
        let ghost before = self.cells@;
        let n = self.cells.len();
        if n == 0 {
            return;
        }
        let mut lo: i64 = self.cells[0];
        let mut hi: i64 = self.cells[0];
        let mut k: usize = 1;
        while k < n
            invariant
                1 <= k <= n,
                n == before.len(),
                self.cells@ == before,
                self.width == old(self).width,
                self.height == old(self).height,
                lo == seq_min(before.subrange(0, k as int)),
                hi == seq_max(before.subrange(0, k as int)),
            decreases n - k,
        {
            assert(before.subrange(0, k as int + 1).drop_last() =~= before.subrange(0, k as int));
            let x = self.cells[k];
            if x < lo {
                lo = x;
            }
            if x > hi {
                hi = x;
            }
            k = k + 1;
        }
        assert(before.subrange(0, n as int) =~= before);
        proof {
            lemma_seq_min_max(before);
        }
        let mut k: usize = 0;
        while k < n
            invariant
                k <= n,
                n == before.len(),
                self.cells@.len() == n,
                self.width == old(self).width,
                self.height == old(self).height,
                lo == seq_min(before),
                hi == seq_max(before),
                forall|i: int| 0 <= i < n ==> seq_min(before) <= #[trigger] before[i] <= seq_max(before),
                forall|i: int| 0 <= i < k ==> #[trigger] self.cells@[i] == rescale(before[i] as int, lo as int, hi as int),
                forall|i: int| k <= i < n ==> #[trigger] self.cells@[i] == before[i],
            decreases n - k,
        {
            let x = self.cells[k];
            proof {
                lemma_rescale_bounds(x as int, lo as int, hi as int);
            }
            let v: i64 = if lo < hi {
                let num: u128 = ((x as i128 - lo as i128) as u128) * (HEIGHT_UNIT as u128);
                let den: u128 = (hi as i128 - lo as i128) as u128;
                (num / den) as i64
            } else {
                0
            };
            self.cells.set(k, v);
            k = k + 1;
        }
        proof {
            let after = self.cells@;
            assert forall|i: int| 0 <= i < n implies 0 <= #[trigger] after[i] <= HEIGHT_UNIT by {
                lemma_rescale_bounds(before[i] as int, lo as int, hi as int);
            }
            lemma_seq_min_max(after);
            if lo < hi {
                let kmin = choose|i: int| 0 <= i < n && before[i] == seq_min(before);
                let kmax = choose|i: int| 0 <= i < n && before[i] == seq_max(before);
                lemma_rescale_bounds(before[kmin] as int, lo as int, hi as int);
                lemma_rescale_bounds(before[kmax] as int, lo as int, hi as int);
                assert(after[kmin] == 0);
                assert(after[kmax] == HEIGHT_UNIT);
                let m0 = choose|i: int| 0 <= i < n && after[i] == seq_min(after);
                let m1 = choose|i: int| 0 <= i < n && after[i] == seq_max(after);
                assert(after[m0] >= 0);
                assert(after[m1] <= HEIGHT_UNIT);
            }
        }
    }
}

} // verus!
