use vstd::prelude::*;
use crate::grid::{Grid, HEIGHT_UNIT};

verus! {

/// Fixed-point value that stands for a cost of `1.0`: metrics return costs
/// in millionths. It equals `HEIGHT_UNIT`, so a height difference already
/// reads in cost units.
pub const COST_UNIT: u64 = 1_000_000;

/// `r` is the square root of `x` rounded down.
pub open spec fn is_floor_sqrt(r: int, x: int) -> bool {
    0 <= r && r * r <= x < (r + 1) * (r + 1)
}

/// Square root of `x` rounded down.
pub open spec fn floor_sqrt(x: nat) -> nat {
    choose|r: nat| is_floor_sqrt(r as int, x as int)
}

proof fn lemma_floor_sqrt_unique(r: int, x: nat)
    requires
        is_floor_sqrt(r, x as int),
    ensures
        floor_sqrt(x) == r,
{
    let q = floor_sqrt(x);
    assert(is_floor_sqrt(r as nat as int, x as int));
    assert(is_floor_sqrt(q as int, x as int));
    if q < r {
        assert((q + 1) * (q + 1) <= r * r) by (nonlinear_arith)
            requires
                0 <= q < r,
        ;
    } else if r < q {
        assert((r + 1) * (r + 1) <= q * q) by (nonlinear_arith)
            requires
                0 <= r < q,
        ;
    }
}

/// Square root of `x` rounded down, by binary search.
fn isqrt(x: u128) -> (r: u128)
    ensures
        is_floor_sqrt(r as int, x as int),
{
    let mut lo: u128 = 0;
    let mut hi: u128 = 0x1_0000_0000_0000_0000;
    assert(x < hi * hi) by (nonlinear_arith)
        requires
            x <= 0xffff_ffff_ffff_ffff_ffff_ffff_ffff_ffff,
            hi == 0x1_0000_0000_0000_0000,
    ;
    while hi - lo > 1
        invariant
            lo < hi <= 0x1_0000_0000_0000_0000,
            lo * lo <= x,
            x < hi * hi,
        decreases hi - lo,
    {
        let mid = lo + (hi - lo) / 2;
        assert(mid * mid <= 0xffff_ffff_ffff_ffff * 0xffff_ffff_ffff_ffff) by (nonlinear_arith)
            requires
                mid < 0x1_0000_0000_0000_0000,
        ;
        if mid * mid <= x {
            lo = mid;
        } else {
            hi = mid;
        }
    }
    assert(hi == lo + 1);
    lo
}

/// The square root of `x` rounded down.
pub fn sqrt_floor(x: u128) -> (r: u64)
    ensures
        r == floor_sqrt(x as nat),
        is_floor_sqrt(r as int, x as int),
{
    let r = isqrt(x);
    proof {
        lemma_floor_sqrt_unique(r as int, x as nat);
        if r >= 0x1_0000_0000_0000_0000 {
            assert(r * r >= 0x1_0000_0000_0000_0000_0000_0000_0000_0000) by (nonlinear_arith)
                requires
                    r >= 0x1_0000_0000_0000_0000,
            ;
        }
    }
    r as u64
}

pub open spec fn sq(x: int) -> int {
    x * x
}

pub open spec fn abs(x: int) -> int {
    if x < 0 { -x } else { x }
}

/// A cost of moving between two grid positions, in `COST_UNIT` fractions.
pub trait Distance2D {
    /// The metric can be evaluated.
    spec fn well_formed(&self) -> bool;

    /// The cost of going from `pos1` to `pos2`.
    spec fn cost(&self, pos1: (i32, i32), pos2: (i32, i32)) -> nat;

    fn evaluate(&self, pos1: (i32, i32), pos2: (i32, i32)) -> (r: u64)
        requires
            self.well_formed(),
        ensures
            r as nat == self.cost(pos1, pos2),
    ;
}

/// Straight-line distance `sqrt(dx² + dy²)`.
pub struct EuclideanDistance2D {}

/// `floor(sqrt(dx² + dy²) * COST_UNIT)`, computed exactly over integers.
pub open spec fn euclidean_cost(pos1: (i32, i32), pos2: (i32, i32), extra: int) -> nat {
    floor_sqrt(
        ((sq(pos2.0 - pos1.0) + sq(pos2.1 - pos1.1)) * sq(COST_UNIT as int) + sq(extra)) as nat,
    )
}

/// `(dx² + dy²) * COST_UNIT² + extra²` as a `u128`.
fn squared_span(pos1: (i32, i32), pos2: (i32, i32), extra: i64) -> (r: u128)
    requires
        -4 * HEIGHT_UNIT <= extra <= 4 * HEIGHT_UNIT,
    ensures
        r == (sq(pos2.0 - pos1.0) + sq(pos2.1 - pos1.1)) * sq(COST_UNIT as int) + sq(extra as int),
{
    let dx: i128 = pos2.0 as i128 - pos1.0 as i128;
    let dy: i128 = pos2.1 as i128 - pos1.1 as i128;
    let e: i128 = extra as i128;
    let u: i128 = COST_UNIT as i128;
    assert(0 <= dx * dx <= 0x4_0000_0000_0000_0000) by (nonlinear_arith)
        requires
            -0x1_0000_0000 <= dx <= 0x1_0000_0000,
    ;
    assert(0 <= dy * dy <= 0x4_0000_0000_0000_0000) by (nonlinear_arith)
        requires
            -0x1_0000_0000 <= dy <= 0x1_0000_0000,
    ;
    assert(0 <= e * e <= 16_000_000_000_000) by (nonlinear_arith)
        requires
            -4_000_000 <= e <= 4_000_000,
    ;
    let s: i128 = dx * dx + dy * dy;
    assert(0 <= s * (u * u) <= 0x8_0000_0000_0000_0000 * 1_000_000_000_000) by (nonlinear_arith)
        requires
            0 <= s <= 0x8_0000_0000_0000_0000,
            u == 1_000_000,
    ;
    (s * (u * u) + e * e) as u128
}

impl Distance2D for EuclideanDistance2D {
    open spec fn well_formed(&self) -> bool {
        true
    }

    open spec fn cost(&self, pos1: (i32, i32), pos2: (i32, i32)) -> nat {
        euclidean_cost(pos1, pos2, 0)
    }

    fn evaluate(&self, pos1: (i32, i32), pos2: (i32, i32)) -> (r: u64) {
        sqrt_floor(squared_span(pos1, pos2, 0))
    }
}

/// Grid distance `|dx| + |dy|`.
pub struct ManhattanDistance2D {}

impl Distance2D for ManhattanDistance2D {
    open spec fn well_formed(&self) -> bool {
        true
    }

    open spec fn cost(&self, pos1: (i32, i32), pos2: (i32, i32)) -> nat {
        ((abs(pos2.0 - pos1.0) + abs(pos2.1 - pos1.1)) * COST_UNIT) as nat
    }

    fn evaluate(&self, pos1: (i32, i32), pos2: (i32, i32)) -> (r: u64) {
        let dx: i64 = pos2.0 as i64 - pos1.0 as i64;
        let dy: i64 = pos2.1 as i64 - pos1.1 as i64;
        let ax: u64 = if dx < 0 { (-dx) as u64 } else { dx as u64 };
        let ay: u64 = if dy < 0 { (-dy) as u64 } else { dy as u64 };
        assert((ax + ay) * 1_000_000 <= 0x2_0000_0000 * 1_000_000) by (nonlinear_arith)
            requires
                ax + ay <= 0x2_0000_0000,
        ;
        (ax + ay) * COST_UNIT
    }
}

/// The zero metric: used as a heuristic it turns the search into
/// Dijkstra's algorithm.
pub struct NullDistance2D {}

impl Distance2D for NullDistance2D {
    open spec fn well_formed(&self) -> bool {
        true
    }

    open spec fn cost(&self, pos1: (i32, i32), pos2: (i32, i32)) -> nat {
        0
    }

    fn evaluate(&self, pos1: (i32, i32), pos2: (i32, i32)) -> (r: u64) {
        0
    }
}

/// Straight-line distance that also climbs: `sqrt(dx² + dy² + (2·h2 − 2·h1)²)`
/// with heights read from a normalised height field. A position outside
/// the field counts as height zero.
pub struct EuclideanDistanceWHeight2D<'d> {
    pub height_map: &'d Grid<i64>,
}

/// Height of the field at `pos`, or zero outside it.
pub open spec fn height_at(map: Grid<i64>, pos: (i32, i32)) -> int {
    if map.in_bounds(pos.0 as int, pos.1 as int) {
        map.cell(pos.0 as int, pos.1 as int) as int
    } else {
        0
    }
}

impl<'d> EuclideanDistanceWHeight2D<'d> {
    fn height_of(&self, pos: (i32, i32)) -> (r: i64)
        requires
            self.well_formed(),
        ensures
            r == height_at(*self.height_map, pos),
            0 <= r <= HEIGHT_UNIT,
    {
        if pos.0 >= 0 && pos.1 >= 0 && (pos.0 as usize) < self.height_map.height && (pos.1 as usize)
            < self.height_map.width {
            let h = *self.height_map.get_signed(pos);
            proof {
                crate::grid::lemma_cell_index_bounds(
                    self.height_map.width as int,
                    self.height_map.height as int,
                    pos.0 as int,
                    pos.1 as int,
                );
            }
            h
        } else {
            0
        }
    }
}

impl<'d> Distance2D for EuclideanDistanceWHeight2D<'d> {
    /// The field is well formed and normalised.
    open spec fn well_formed(&self) -> bool {
        &&& self.height_map.wf()
        &&& forall|k: int|
            0 <= k < self.height_map.cells@.len() ==> 0 <= #[trigger] self.height_map.cells@[k]
                <= HEIGHT_UNIT
    }

    open spec fn cost(&self, pos1: (i32, i32), pos2: (i32, i32)) -> nat {
        euclidean_cost(
            pos1,
            pos2,
            2 * height_at(*self.height_map, pos2) - 2 * height_at(*self.height_map, pos1),
        )
    }

    fn evaluate(&self, pos1: (i32, i32), pos2: (i32, i32)) -> (r: u64) {
        let h1 = self.height_of(pos1);
        let h2 = self.height_of(pos2);
        sqrt_floor(squared_span(pos1, pos2, 2 * h2 - 2 * h1))
    }
}

} // verus!
