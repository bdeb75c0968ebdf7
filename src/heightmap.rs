use vstd::prelude::*;
use vstd::arithmetic::div_mod::{lemma_div_is_ordered, lemma_div_by_multiple, lemma_fundamental_div_mod, lemma_mod_pos_bound, lemma_fundamental_div_mod_converse_mod, lemma_mod_multiples_basic};
use vstd::arithmetic::power2::{pow2, lemma2_to64, lemma_pow2_unfold, lemma_pow2_strictly_increases};
use rand::Rng;
use crate::grid::{Grid, HEIGHT_UNIT, cell_index, lemma_cell_index_bounds, seq_min, seq_max, rescale};
use crate::distance::{floor_sqrt, sqrt_floor};

verus! {

/// Largest magnitude that the midpoint steps accept in a cell or an offset.
pub const STEP_LIMIT: i64 = 0x2000_0000_0000_0000;

/// Relies on rand's `thread_rng` and `Rng::gen_range`: a value drawn
/// uniformly from `low ..= high` (the range is never empty).
#[verifier::external_body]
fn random_in(low: i64, high: i64) -> (r: i64)
    requires
        low <= high,
    ensures
        low <= r <= high,
{
    rand::thread_rng().gen_range(low..=high)
}

/// Side of the grid made for size exponent `n`: `2^(4 + n) + 1`.
pub open spec fn side_for(n: nat) -> nat {
    pow2(n + 4) + 1
}

/// Integer division rounded towards zero, as Rust's `/` on integers.
pub open spec fn trunc_div(x: int, d: int) -> int {
    if x >= 0 { x / d } else { -((-x) / d) }
}

/// Every value of `s` has magnitude at most `b`.
pub open spec fn bounded(s: Seq<i64>, b: int) -> bool {
    forall|k: int| 0 <= k < s.len() ==> -b <= #[trigger] s[k] <= b
}

proof fn lemma_trunc_div_bound(x: int, d: int, b: int)
    requires
        1 <= d,
        0 <= b,
        -(d * b) <= x <= d * b,
    ensures
        -b <= trunc_div(x, d) <= b,
{
    assert(d * b == b * d) by (nonlinear_arith);
    lemma_div_by_multiple(b, d);
    if x >= 0 {
        lemma_div_is_ordered(x, b * d, d);
        lemma_div_is_ordered(0, x, d);
    } else {
        lemma_div_is_ordered(-x, b * d, d);
        lemma_div_is_ordered(0, -x, d);
    }
}

/// Value of the cell `(r, c)`, or zero outside the grid.
pub open spec fn value_or_zero(map: Grid<i64>, r: int, c: int) -> int {
    if map.in_bounds(r, c) { map.cell(r, c) as int } else { 0 }
}

/// One if `(r, c)` lies in the grid, zero otherwise.
pub open spec fn present(map: Grid<i64>, r: int, c: int) -> int {
    if map.in_bounds(r, c) { 1 } else { 0 }
}

/// Sum of the in-grid cells `h` away from `(r, c)` along the axes.
pub open spec fn diamond_sum(map: Grid<i64>, r: int, c: int, h: int) -> int {
    value_or_zero(map, r - h, c) + value_or_zero(map, r, c - h) + value_or_zero(map, r + h, c)
        + value_or_zero(map, r, c + h)
}

/// Number of in-grid cells `h` away from `(r, c)` along the axes.
pub open spec fn diamond_count(map: Grid<i64>, r: int, c: int, h: int) -> int {
    present(map, r - h, c) + present(map, r, c - h) + present(map, r + h, c) + present(map, r, c + h)
}

/// The centre of the square with corner `(i, j)` and side `s`: the mean of
/// its four corners plus `offset`.
pub open spec fn diamond_value(map: Grid<i64>, i: int, j: int, s: int, offset: int) -> int {
    trunc_div(
        map.cell(i, j) as int + map.cell(i, j + s) as int + map.cell(i + s, j) as int + map.cell(
            i + s,
            j + s,
        ) as int,
        4,
    ) + offset
}

/// An edge midpoint: the mean of its in-grid neighbours `h` away plus `offset`.
pub open spec fn square_value(map: Grid<i64>, r: int, c: int, h: int, offset: int) -> int {
    trunc_div(diamond_sum(map, r, c, h), diamond_count(map, r, c, h)) + offset
}

fn divide_toward_zero(x: i128, d: i128) -> (r: i64)
    requires
        1 <= d <= 4,
        -(d * STEP_LIMIT) <= x <= d * STEP_LIMIT,
    ensures
        r == trunc_div(x as int, d as int),
        -STEP_LIMIT <= r <= STEP_LIMIT,
{
    proof {
        lemma_trunc_div_bound(x as int, d as int, STEP_LIMIT as int);
    }
    if x >= 0 {
        ((x as u128) / (d as u128)) as i64
    } else {
        -(((-x) as u128 / (d as u128)) as i64)
    }
}

/// Value of an in-grid cell as a wide integer.
fn value_at(map: &Grid<i64>, r: usize, c: usize) -> (v: i128)
    requires
        map.wf(),
        map.in_bounds(r as int, c as int),
        bounded(map.cells@, STEP_LIMIT as int),
    ensures
        v == map.cell(r as int, c as int),
        -STEP_LIMIT <= v <= STEP_LIMIT,
{
    proof {
        lemma_cell_index_bounds(map.width as int, map.height as int, r as int, c as int);
    }
    *map.get(r, c) as i128
}

/// Diamond step: sets the centre of the square with corner `(i, j)` and
/// side `s` to the mean of its corners plus `offset`.
pub fn diamond_step(map: &mut Grid<i64>, i: usize, j: usize, s: usize, offset: i64)
    requires
        old(map).wf(),
        i + s < old(map).height,
        j + s < old(map).width,
        bounded(old(map).cells@, STEP_LIMIT as int),
        -STEP_LIMIT <= offset <= STEP_LIMIT,
    ensures
        final(map).width == old(map).width,
        final(map).height == old(map).height,
        final(map).cells@ == old(map).cells@.update(
            cell_index(old(map).width as int, i + s / 2, j + s / 2),
            diamond_value(*old(map), i as int, j as int, s as int, offset as int) as i64,
        ),
        -2 * STEP_LIMIT <= diamond_value(*old(map), i as int, j as int, s as int, offset as int)
            <= 2 * STEP_LIMIT,
{
    let a = value_at(map, i, j);
    let b = value_at(map, i, j + s);
    let c = value_at(map, i + s, j);
    let d = value_at(map, i + s, j + s);
    let mean = divide_toward_zero(a + b + c + d, 4);
    let h = s / 2;
    map.set(i + h, j + h, mean + offset);
}

/// Square step for one edge midpoint `(r, c)`: sets it to the mean of the
/// in-grid cells `h` away along the axes plus `offset`.
pub fn square_point(map: &mut Grid<i64>, r: usize, c: usize, h: usize, offset: i64)
    requires
        old(map).wf(),
        old(map).in_bounds(r as int, c as int),
        diamond_count(*old(map), r as int, c as int, h as int) >= 1,
        bounded(old(map).cells@, STEP_LIMIT as int),
        -STEP_LIMIT <= offset <= STEP_LIMIT,
    ensures
        final(map).width == old(map).width,
        final(map).height == old(map).height,
        final(map).cells@ == old(map).cells@.update(
            cell_index(old(map).width as int, r as int, c as int),
            square_value(*old(map), r as int, c as int, h as int, offset as int) as i64,
        ),
        -2 * STEP_LIMIT <= square_value(*old(map), r as int, c as int, h as int, offset as int)
            <= 2 * STEP_LIMIT,
{
    let mut sum: i128 = 0;
    let mut count: i128 = 0;
    if h <= r {
        sum = sum + value_at(map, r - h, c);
        count = count + 1;
    }
    if h <= c {
        sum = sum + value_at(map, r, c - h);
        count = count + 1;
    }
    if h < map.height - r {
        sum = sum + value_at(map, r + h, c);
        count = count + 1;
    }
    if h < map.width - c {
        sum = sum + value_at(map, r, c + h);
        count = count + 1;
    }
    proof {
        assert(sum == diamond_sum(*map, r as int, c as int, h as int));
        assert(count == diamond_count(*map, r as int, c as int, h as int));
        assert(-(count * STEP_LIMIT) <= sum <= count * STEP_LIMIT);
    }
    let mean = divide_toward_zero(sum, count);
    map.set(r, c, mean + offset);
}

/// How much the magnitude bound of the field can grow while the square of
/// side `s` and every square it splits into are processed: each square
/// adds at most its side, five times.
pub open spec fn work(s: nat) -> nat
    decreases s,
{
    if s > 2 { 5 * s + 4 * work(s / 2) } else { 5 * s }
}

/// `s` is a power of two above one: it can be halved down to two.
pub open spec fn halvable(s: nat) -> bool
    decreases s,
{
    if s > 2 { s % 2 == 0 && halvable(s / 2) } else { s == 2 }
}

proof fn lemma_work_bound(s: nat)
    requires
        halvable(s),
    ensures
        work(s) + 5 * s <= 5 * s * s,
    decreases s,
{
    if s <= 2 {
        assert(s == 2);
        assert(work(s) == 10);
        assert(5 * s * s == 20) by (nonlinear_arith)
            requires
                s == 2,
        ;
    } else {
        let m = s / 2;
        assert(s == 2 * m);
        lemma_work_bound(m);
        assert(5 * s + 4 * work(m) + 5 * s <= 5 * s * s) by (nonlinear_arith)
            requires
                work(m) + 5 * m <= 5 * m * m,
                s == 2 * m,
        ;
    }
}

proof fn lemma_halvable_pow2(e: nat)
    requires
        e >= 1,
    ensures
        halvable(pow2(e)),
    decreases e,
{
    lemma_pow2_unfold(e);
    lemma2_to64();
    if e > 1 {
        lemma_halvable_pow2((e - 1) as nat);
        if e > 2 {
            lemma_pow2_strictly_increases(1, (e - 1) as nat);
        }
    }
}

/// Pending work of the squares waiting in a queue.
pub open spec fn queue_work(q: Seq<(usize, usize, usize)>) -> nat
    decreases q.len(),
{
    if q.len() == 0 { 0 } else { queue_work(q.drop_last()) + work(q.last().2 as nat) }
}

proof fn lemma_queue_work_front(q: Seq<(usize, usize, usize)>)
    requires
        q.len() > 0,
    ensures
        queue_work(q) == work(q[0].2 as nat) + queue_work(q.subrange(1, q.len() as int)),
    decreases q.len(),
{
    if q.len() == 1 {
        assert(q.subrange(1, 1) =~= Seq::<(usize, usize, usize)>::empty());
        assert(q.drop_last() =~= Seq::<(usize, usize, usize)>::empty());
    } else {
        lemma_queue_work_front(q.drop_last());
        assert(q.subrange(1, q.len() as int).drop_last() =~= q.drop_last().subrange(1, q.len() - 1));
    }
}

proof fn lemma_bounded_update(s: Seq<i64>, i: int, v: i64, b: int, b2: int)
    requires
        0 <= i < s.len(),
        bounded(s, b),
        b <= b2,
        -b2 <= v <= b2,
    ensures
        bounded(s.update(i, v), b2),
{
    assert forall|k: int| 0 <= k < s.update(i, v).len() implies -b2 <= #[trigger] s.update(i, v)[k] <= b2 by {
        if k != i {
            assert(s.update(i, v)[k] == s[k]);
        }
    }
}

proof fn lemma_cell_bounded(map: Grid<i64>, r: int, c: int, b: int)
    requires
        map.wf(),
        map.in_bounds(r, c),
        bounded(map.cells@, b),
    ensures
        -b <= map.cell(r, c) <= b,
{
    lemma_cell_index_bounds(map.width as int, map.height as int, r, c);
}

proof fn lemma_neighbour_bounded(map: Grid<i64>, r: int, c: int, b: int)
    requires
        map.wf(),
        bounded(map.cells@, b),
        0 <= b,
    ensures
        -(present(map, r, c) * b) <= value_or_zero(map, r, c) <= present(map, r, c) * b,
{
    if map.in_bounds(r, c) {
        lemma_cell_bounded(map, r, c, b);
    }
}

proof fn lemma_square_value_bound(map: Grid<i64>, r: int, c: int, h: int, b: int)
    requires
        map.wf(),
        bounded(map.cells@, b),
        0 <= b,
        diamond_count(map, r, c, h) >= 1,
    ensures
        -b <= trunc_div(diamond_sum(map, r, c, h), diamond_count(map, r, c, h)) <= b,
{
    lemma_neighbour_bounded(map, r - h, c, b);
    lemma_neighbour_bounded(map, r, c - h, b);
    lemma_neighbour_bounded(map, r + h, c, b);
    lemma_neighbour_bounded(map, r, c + h, b);
    let up = present(map, r - h, c);
    let left = present(map, r, c - h);
    let down = present(map, r + h, c);
    let right = present(map, r, c + h);
    assert((up + left + down + right) * b == up * b + left * b + down * b + right * b) by (nonlinear_arith);
    lemma_trunc_div_bound(diamond_sum(map, r, c, h), diamond_count(map, r, c, h), b);
}

/// Value of the cell `(r, c)` of a `dim` by `dim` field stored row by row,
/// or zero outside it.
pub open spec fn at_or_zero(cells: Seq<i64>, dim: int, r: int, c: int) -> int {
    if 0 <= r < dim && 0 <= c < dim { cells[cell_index(dim, r, c)] as int } else { 0 }
}

/// One if `(r, c)` lies in a `dim` by `dim` field, zero otherwise.
pub open spec fn inside(dim: int, r: int, c: int) -> int {
    if 0 <= r < dim && 0 <= c < dim { 1 } else { 0 }
}

/// `diamond_value` on the storage of a `dim` by `dim` field.
pub open spec fn centre_value(cells: Seq<i64>, dim: int, i: int, j: int, s: int, offset: int) -> int {
    trunc_div(
        cells[cell_index(dim, i, j)] as int + cells[cell_index(dim, i, j + s)] as int
            + cells[cell_index(dim, i + s, j)] as int + cells[cell_index(dim, i + s, j + s)] as int,
        4,
    ) + offset
}

/// `square_value` on the storage of a `dim` by `dim` field.
pub open spec fn edge_value(cells: Seq<i64>, dim: int, r: int, c: int, h: int, offset: int) -> int {
    trunc_div(
        at_or_zero(cells, dim, r - h, c) + at_or_zero(cells, dim, r, c - h) + at_or_zero(cells, dim, r + h, c)
            + at_or_zero(cells, dim, r, c + h),
        inside(dim, r - h, c) + inside(dim, r, c - h) + inside(dim, r + h, c) + inside(dim, r, c + h),
    ) + offset
}

/// Processing the square with corner `(i, j)` and side `s`: the diamond
/// step at its centre with offset `o0`, then the square step at its top,
/// left, bottom and right edge midpoints with offsets `o1` to `o4`.
pub open spec fn square_pass(
    cells: Seq<i64>,
    dim: int,
    i: int,
    j: int,
    s: int,
    o0: int,
    o1: int,
    o2: int,
    o3: int,
    o4: int,
) -> Seq<i64> {
    let h = s / 2;
    let c0 = cells.update(cell_index(dim, i + h, j + h), centre_value(cells, dim, i, j, s, o0) as i64);
    let c1 = c0.update(cell_index(dim, i, j + h), edge_value(c0, dim, i, j + h, h, o1) as i64);
    let c2 = c1.update(cell_index(dim, i + h, j), edge_value(c1, dim, i + h, j, h, o2) as i64);
    let c3 = c2.update(cell_index(dim, i + s, j + h), edge_value(c2, dim, i + s, j + h, h, o3) as i64);
    c3.update(cell_index(dim, i + h, j + s), edge_value(c3, dim, i + h, j + s, h, o4) as i64)
}

/// The four halves of a square of side above two, in queue order; none for
/// a square of side two.
pub open spec fn children(q: (usize, usize, usize)) -> Seq<(usize, usize, usize)> {
    let h = q.2 / 2;
    if q.2 > 2 {
        seq![
            (q.0, q.1, h),
            (q.0, (q.1 + h) as usize, h),
            ((q.0 + h) as usize, q.1, h),
            ((q.0 + h) as usize, (q.1 + h) as usize, h),
        ]
    } else {
        seq![]
    }
}

/// The `k`-th drawn offset, zero past the end of the draws.
pub open spec fn offset_at(offsets: Seq<i64>, k: int) -> int {
    if 0 <= k < offsets.len() { offsets[k] as int } else { 0 }
}

/// The field after the squares of `queue`, and every square they split
/// into, are processed breadth first; the `t`-th square processed uses the
/// offsets `5 t .. 5 t + 5`.
pub open spec fn run(
    dim: int,
    cells: Seq<i64>,
    queue: Seq<(usize, usize, usize)>,
    offsets: Seq<i64>,
    t: int,
) -> Seq<i64>
    decreases queue_work(queue),
    via run_decreases
{
    if queue.len() == 0 || queue[0].2 < 2 {
        cells
    } else {
        let q = queue[0];
        let next = square_pass(
            cells,
            dim,
            q.0 as int,
            q.1 as int,
            q.2 as int,
            offset_at(offsets, 5 * t),
            offset_at(offsets, 5 * t + 1),
            offset_at(offsets, 5 * t + 2),
            offset_at(offsets, 5 * t + 3),
            offset_at(offsets, 5 * t + 4),
        );
        run(dim, next, queue.drop_first() + children(q), offsets, t + 1)
    }
}

/// Every square processed from `queue` on gets offsets within its side.
pub open spec fn offsets_fit(queue: Seq<(usize, usize, usize)>, offsets: Seq<i64>, t: int) -> bool
    decreases queue_work(queue),
    via offsets_fit_decreases
{
    if queue.len() == 0 || queue[0].2 < 2 {
        true
    } else {
        let s = queue[0].2 as int;
        &&& forall|e: int| 0 <= e < 5 ==> -s <= #[trigger] offset_at(offsets, 5 * t + e) <= s
        &&& offsets_fit(queue.drop_first() + children(queue[0]), offsets, t + 1)
    }
}

proof fn lemma_queue_work_concat(a: Seq<(usize, usize, usize)>, b: Seq<(usize, usize, usize)>)
    ensures
        queue_work(a + b) == queue_work(a) + queue_work(b),
    decreases b.len(),
{
    if b.len() == 0 {
        assert(a + b =~= a);
    } else {
        assert((a + b).drop_last() =~= a + b.drop_last());
        lemma_queue_work_concat(a, b.drop_last());
    }
}

/// Processing the first square of a queue lowers its pending work by five
/// times that square's side.
proof fn lemma_queue_work_step(queue: Seq<(usize, usize, usize)>)
    requires
        queue.len() > 0,
        queue[0].2 >= 2,
    ensures
        queue_work(queue.drop_first() + children(queue[0])) + 5 * queue[0].2 == queue_work(queue),
{
    let q = queue[0];
    let h = (q.2 / 2) as usize;
    lemma_queue_work_front(queue);
    assert(queue.drop_first() =~= queue.subrange(1, queue.len() as int));
    lemma_queue_work_concat(queue.drop_first(), children(q));
    let c = children(q);
    if q.2 > 2 {
        assert(c.drop_last().drop_last().drop_last().drop_last() =~= Seq::<(usize, usize, usize)>::empty());
        assert(queue_work(Seq::<(usize, usize, usize)>::empty()) == 0);
        assert(c.drop_last().drop_last().drop_last().last().2 == h);
        assert(queue_work(c.drop_last().drop_last().drop_last()) == work(h as nat));
        assert(queue_work(c.drop_last().drop_last()) == 2 * work(h as nat));
        assert(queue_work(c.drop_last()) == 3 * work(h as nat));
        assert(queue_work(c) == 4 * work(h as nat));
    } else {
        assert(c =~= Seq::<(usize, usize, usize)>::empty());
    }
}

#[via_fn]
proof fn run_decreases(dim: int, cells: Seq<i64>, queue: Seq<(usize, usize, usize)>, offsets: Seq<i64>, t: int) {
    if !(queue.len() == 0 || queue[0].2 < 2) {
        lemma_queue_work_step(queue);
    }
}

#[via_fn]
proof fn offsets_fit_decreases(queue: Seq<(usize, usize, usize)>, offsets: Seq<i64>, t: int) {
    if !(queue.len() == 0 || queue[0].2 < 2) {
        lemma_queue_work_step(queue);
    }
}

/// A `dim` by `dim` field of zeros whose four corners hold `corners`.
pub open spec fn corner_grid(dim: int, corners: Seq<i64>) -> Seq<i64> {
    Seq::new((dim * dim) as nat, |k: int| 0i64).update(cell_index(dim, 0, 0), corners[0]).update(
        cell_index(dim, 0, dim - 1),
        corners[1],
    ).update(cell_index(dim, dim - 1, 0), corners[2]).update(cell_index(dim, dim - 1, dim - 1), corners[3])
}

/// The queue a field of size exponent `n` starts from: the whole grid.
pub open spec fn first_square(n: nat) -> Seq<(usize, usize, usize)> {
    seq![(0usize, 0usize, (side_for(n) - 1) as usize)]
}

/// The diamond-square field of size exponent `n` for the given corner
/// values (top left, top right, bottom left, bottom right) and offsets.
pub open spec fn field_from(n: nat, corners: Seq<i64>, offsets: Seq<i64>) -> Seq<i64> {
    run(side_for(n) as int, corner_grid(side_for(n) as int, corners), first_square(n), offsets, 0)
}

/// Min-max rescaling of every value onto `0 ..= HEIGHT_UNIT`.
pub open spec fn normalized(s: Seq<i64>) -> Seq<i64> {
    Seq::new(s.len(), |k: int| rescale(s[k] as int, seq_min(s), seq_max(s)) as i64)
}

/// The draws of a diamond-square run: four corners within the grid's side,
/// and each square's offsets within that square's side.
pub open spec fn draws_fit(n: nat, corners: Seq<i64>, offsets: Seq<i64>) -> bool {
    &&& corners.len() == 4
    &&& forall|k: int| 0 <= k < 4 ==> -(side_for(n) as int) <= #[trigger] corners[k] <= side_for(n) as int
    &&& offsets_fit(first_square(n), offsets, 0)
}

/// The diamond-square field, normalised when `normalize` is set.
pub open spec fn diamond_square_field(n: nat, corners: Seq<i64>, offsets: Seq<i64>, normalize: bool) -> Seq<i64> {
    if normalize {
        normalized(field_from(n, corners, offsets))
    } else {
        field_from(n, corners, offsets)
    }
}

/// A cell that is a corner of the grid: both coordinates are `0` or `dim - 1`.
pub open spec fn is_grid_corner(dim: int, r: int, c: int) -> bool {
    (r == 0 || r == dim - 1) && (c == 0 || c == dim - 1)
}

/// A number `h` past a multiple of `s` (with `0 < h < s`) is no multiple of
/// any `m` that `s` divides.
proof fn lemma_off_lattice(a: int, h: int, s: int, m: int)
    requires
        s >= 2,
        0 < h < s,
        a >= 0,
        a % s == 0,
        m >= 1,
        m % s == 0,
    ensures
        (a + h) % m != 0,
{
    lemma_fundamental_div_mod(a, s);
    let qa = a / s;
    assert(a + h == qa * s + h) by (nonlinear_arith)
        requires
            a == s * qa,
    ;
    lemma_fundamental_div_mod_converse_mod(a + h, s, qa, h);
    if (a + h) % m == 0 {
        lemma_fundamental_div_mod(a + h, m);
        lemma_fundamental_div_mod(m, s);
        let q1 = (a + h) / m;
        let q2 = m / s;
        assert(a + h == (q1 * q2) * s) by (nonlinear_arith)
            requires
                a + h == m * q1,
                m == s * q2,
        ;
        lemma_mod_multiples_basic(q1 * q2, s);
    }
}

/// Multiples of `s = 2 h`, and such multiples plus `h`, are multiples of `h`.
proof fn lemma_half_multiples(x: int, s: int, h: int)
    requires
        h >= 1,
        s == 2 * h,
        x >= 0,
        x % s == 0,
    ensures
        x % h == 0,
        (x + h) % h == 0,
{
    lemma_fundamental_div_mod(x, s);
    let q = x / s;
    assert(x == (2 * q) * h && x + h == (2 * q + 1) * h) by (nonlinear_arith)
        requires
            x == s * q,
            s == 2 * h,
    ;
    lemma_mod_multiples_basic(2 * q, h);
    lemma_mod_multiples_basic(2 * q + 1, h);
}

/// A cell whose coordinates are both multiples of `m` is never written by a
/// run whose squares are aligned on their sides, with sides dividing `m`.
proof fn lemma_run_keeps_lattice(
    dim: int,
    cells: Seq<i64>,
    queue: Seq<(usize, usize, usize)>,
    offsets: Seq<i64>,
    t: int,
    r0: int,
    c0: int,
    m: int,
)
    requires
        dim >= 2,
        dim - 1 <= usize::MAX,
        cells.len() == dim * dim,
        0 <= r0 < dim,
        0 <= c0 < dim,
        m >= 1,
        r0 % m == 0,
        c0 % m == 0,
        forall|x: int|
            0 <= x < queue.len() ==> (#[trigger] queue[x]).0 + queue[x].2 < dim && queue[x].1 + queue[x].2 < dim
                && halvable(queue[x].2 as nat) && queue[x].0 % queue[x].2 == 0 && queue[x].1 % queue[x].2 == 0
                && m % (queue[x].2 as int) == 0,
    ensures
        run(dim, cells, queue, offsets, t).len() == cells.len(),
        run(dim, cells, queue, offsets, t)[cell_index(dim, r0, c0)] == cells[cell_index(dim, r0, c0)],
    decreases queue_work(queue),
{
    if !(queue.len() == 0 || queue[0].2 < 2) {
        lemma_queue_work_step(queue);
        let q = queue[0];
        let i = q.0 as int;
        let j = q.1 as int;
        let s = q.2 as int;
        let h = s / 2;
        assert(halvable(q.2 as nat));
        assert(s == 2 * h) by {
            if s == 2 {
            } else {
                assert(s % 2 == 0);
            }
        }
        lemma_off_lattice(i, h, s, m);
        lemma_off_lattice(j, h, s, m);
        let p = cell_index(dim, r0, c0);
        lemma_cell_index_bounds(dim, dim, r0, c0);
        let written = seq![(i + h, j + h), (i, j + h), (i + h, j), (i + s, j + h), (i + h, j + s)];
        assert forall|e: int| 0 <= e < 5 implies 0 <= #[trigger] cell_index(dim, written[e].0, written[e].1) < dim * dim
            && cell_index(dim, written[e].0, written[e].1) != p by {
            lemma_cell_index_bounds(dim, dim, written[e].0, written[e].1);
            if cell_index(dim, written[e].0, written[e].1) == p {
                crate::grid::lemma_cell_index_injective(dim, written[e].0, written[e].1, r0, c0);
            }
        }
        assert(cell_index(dim, written[0].0, written[0].1) != p);
        assert(cell_index(dim, written[1].0, written[1].1) != p);
        assert(cell_index(dim, written[2].0, written[2].1) != p);
        assert(cell_index(dim, written[3].0, written[3].1) != p);
        assert(cell_index(dim, written[4].0, written[4].1) != p);
        let next = square_pass(
            cells,
            dim,
            i,
            j,
            s,
            offset_at(offsets, 5 * t),
            offset_at(offsets, 5 * t + 1),
            offset_at(offsets, 5 * t + 2),
            offset_at(offsets, 5 * t + 3),
            offset_at(offsets, 5 * t + 4),
        );
        assert(next.len() == cells.len());
        assert(next[p] == cells[p]);
        let rest = queue.drop_first() + children(q);
        if s > 2 {
            lemma_half_multiples(i, s, h);
            lemma_half_multiples(j, s, h);
            lemma_half_multiples(m, s, h);
        }
        assert forall|x: int| 0 <= x < rest.len() implies (#[trigger] rest[x]).0 + rest[x].2 < dim && rest[x].1
            + rest[x].2 < dim && halvable(rest[x].2 as nat) && rest[x].0 % rest[x].2 == 0 && rest[x].1 % rest[x].2 == 0
            && m % (rest[x].2 as int) == 0 by {
            if x < queue.len() - 1 {
                assert(rest[x] == queue[x + 1]);
            } else {
                let c = x - (queue.len() - 1);
                assert(rest[x] == children(q)[c]);
                assert(s > 2);
                assert(rest[x].2 as int == h);
                if c == 0 {
                    assert(rest[x].0 as int == i && rest[x].1 as int == j);
                } else if c == 1 {
                    assert(rest[x].0 as int == i && rest[x].1 as int == j + h);
                } else if c == 2 {
                    assert(rest[x].0 as int == i + h && rest[x].1 as int == j);
                } else {
                    assert(rest[x].0 as int == i + h && rest[x].1 as int == j + h);
                }
                assert((rest[x].0 as int) % h == 0);
                assert((rest[x].1 as int) % h == 0);
            }
        }
        lemma_run_keeps_lattice(dim, next, rest, offsets, t + 1, r0, c0, m);
    }
}

/// The starting field: its size, and the corner draws in its corners.
proof fn lemma_corner_grid(n: nat, corners: Seq<i64>)
    requires
        n <= 11,
        corners.len() == 4,
    ensures
        ({
            let dim = side_for(n) as int;
            let init = corner_grid(dim, corners);
            &&& 17 <= dim <= 32769
            &&& halvable((dim - 1) as nat)
            &&& first_square(n)[0].2 == dim - 1
            &&& init.len() == dim * dim
            &&& init[cell_index(dim, 0, 0)] == corners[0]
            &&& init[cell_index(dim, 0, dim - 1)] == corners[1]
            &&& init[cell_index(dim, dim - 1, 0)] == corners[2]
            &&& init[cell_index(dim, dim - 1, dim - 1)] == corners[3]
        }),
{
    let dim = side_for(n) as int;
    lemma2_to64();
    if n > 0 {
        lemma_pow2_strictly_increases(4, n + 4);
    }
    if n < 11 {
        lemma_pow2_strictly_increases(n + 4, 15);
    }
    lemma_halvable_pow2(n + 4);
    assert(17 <= dim <= 32769);
    let init = corner_grid(dim, corners);
    lemma_cell_index_bounds(dim, dim, 0, 0);
    lemma_cell_index_bounds(dim, dim, 0, dim - 1);
    lemma_cell_index_bounds(dim, dim, dim - 1, 0);
    lemma_cell_index_bounds(dim, dim, dim - 1, dim - 1);
    assert((dim - 1) * dim == dim * dim - dim) by (nonlinear_arith);
    let nn = dim * dim;
    assert(cell_index(dim, 0, 0) == 0);
    assert(cell_index(dim, 0, dim - 1) == dim - 1);
    assert(cell_index(dim, dim - 1, 0) == nn - dim);
    assert(cell_index(dim, dim - 1, dim - 1) == nn - 1);
    assert(init.len() == nn);
    assert(dim - 1 < nn - dim) by (nonlinear_arith)
        requires
            nn == dim * dim,
            dim >= 17,
    ;
    assert(nn - dim < nn - 1);
    assert(init[cell_index(dim, 0, 0)] == corners[0]);
    assert(init[cell_index(dim, 0, dim - 1)] == corners[1]);
    assert(init[cell_index(dim, dim - 1, 0)] == corners[2]);
    assert(init[cell_index(dim, dim - 1, dim - 1)] == corners[3]);
}

/// An unnormalised diamond-square field holds the corner draws in its four
/// corners: no square ever writes them.
pub proof fn lemma_field_corners(n: nat, corners: Seq<i64>, offsets: Seq<i64>)
    requires
        n <= 11,
        corners.len() == 4,
    ensures
        ({
            let dim = side_for(n) as int;
            let f = field_from(n, corners, offsets);
            &&& f.len() == dim * dim
            &&& f[cell_index(dim, 0, 0)] == corners[0]
            &&& f[cell_index(dim, 0, dim - 1)] == corners[1]
            &&& f[cell_index(dim, dim - 1, 0)] == corners[2]
            &&& f[cell_index(dim, dim - 1, dim - 1)] == corners[3]
        }),
{
    lemma_corner_grid(n, corners);
    let dim = side_for(n) as int;
    let init = corner_grid(dim, corners);
    let root = first_square(n);
    let span = dim - 1;
    lemma_mod_multiples_basic(0, span);
    lemma_mod_multiples_basic(1, span);
    assert(0int % span == 0 && span % span == 0) by {
        assert(0 * span == 0);
        assert(1 * span == span);
    }
    lemma_run_keeps_lattice(dim, init, root, offsets, 0, 0, 0, span);
    lemma_run_keeps_lattice(dim, init, root, offsets, 0, 0, span, span);
    lemma_run_keeps_lattice(dim, init, root, offsets, 0, span, 0, span);
    lemma_run_keeps_lattice(dim, init, root, offsets, 0, span, span, span);
}

/// After the first square, the centre holds the diamond step's value.
proof fn lemma_first_pass_centre(init: Seq<i64>, dim: int, span: int, h: int, offsets: Seq<i64>)
    requires
        dim >= 17,
        span == dim - 1,
        span == 2 * h,
        init.len() == dim * dim,
    ensures
        ({
            let next = square_pass(
                init,
                dim,
                0,
                0,
                span,
                offset_at(offsets, 0),
                offset_at(offsets, 1),
                offset_at(offsets, 2),
                offset_at(offsets, 3),
                offset_at(offsets, 4),
            );
            &&& next.len() == dim * dim
            &&& next[cell_index(dim, h, h)] == centre_value(init, dim, 0, 0, span, offset_at(offsets, 0)) as i64
        }),
{
    let centre = cell_index(dim, h, h);
    lemma_cell_index_bounds(dim, dim, h, h);
    let written = seq![(0int, h), (h, 0int), (span, h), (h, span)];
    assert forall|e: int| 0 <= e < 4 implies 0 <= #[trigger] cell_index(dim, written[e].0, written[e].1) < dim * dim
        && cell_index(dim, written[e].0, written[e].1) != centre by {
        lemma_cell_index_bounds(dim, dim, written[e].0, written[e].1);
        if cell_index(dim, written[e].0, written[e].1) == centre {
            crate::grid::lemma_cell_index_injective(dim, written[e].0, written[e].1, h, h);
        }
    }
    assert(cell_index(dim, written[0].0, written[0].1) != centre);
    assert(cell_index(dim, written[1].0, written[1].1) != centre);
    assert(cell_index(dim, written[2].0, written[2].1) != centre);
    assert(cell_index(dim, written[3].0, written[3].1) != centre);
}

/// The centre of an unnormalised diamond-square field is the mean of the
/// four corner draws, rounded towards zero, plus the first offset: the
/// first diamond step reads the corners, and no later square writes the
/// centre.
pub proof fn lemma_field_centre(n: nat, corners: Seq<i64>, offsets: Seq<i64>)
    requires
        n <= 11,
        corners.len() == 4,
    ensures
        ({
            let dim = side_for(n) as int;
            let h = (dim - 1) / 2;
            field_from(n, corners, offsets)[cell_index(dim, h, h)] == (trunc_div(
                corners[0] + corners[1] + corners[2] + corners[3],
                4,
            ) + offset_at(offsets, 0)) as i64
        }),
{
    lemma_corner_grid(n, corners);
    let dim = side_for(n) as int;
    let init = corner_grid(dim, corners);
    let root = first_square(n);
    let span = dim - 1;
    let h = span / 2;
    assert(span == 2 * h) by {
        assert(span % 2 == 0);
    }
    assert(halvable(h as nat));
    let next = square_pass(
        init,
        dim,
        0,
        0,
        span,
        offset_at(offsets, 0),
        offset_at(offsets, 1),
        offset_at(offsets, 2),
        offset_at(offsets, 3),
        offset_at(offsets, 4),
    );
    let rest = root.drop_first() + children(root[0]);
    assert(field_from(n, corners, offsets) == run(dim, next, rest, offsets, 1));
    lemma_first_pass_centre(init, dim, span, h, offsets);
    lemma_mod_multiples_basic(0, h);
    lemma_mod_multiples_basic(1, h);
    assert(0int % h == 0 && h % h == 0) by {
        assert(0 * h == 0);
        assert(1 * h == h);
    }
    assert(rest =~= children(root[0]));
    assert forall|x: int| 0 <= x < rest.len() implies (#[trigger] rest[x]).0 + rest[x].2 < dim && rest[x].1
        + rest[x].2 < dim && halvable(rest[x].2 as nat) && rest[x].0 % rest[x].2 == 0 && rest[x].1 % rest[x].2 == 0
        && h % (rest[x].2 as int) == 0 by {
        assert(rest[x].2 as int == h);
        assert(rest[x].0 as int == 0 || rest[x].0 as int == h);
        assert(rest[x].1 as int == 0 || rest[x].1 as int == h);
    }
    lemma_run_keeps_lattice(dim, next, rest, offsets, 1, h, h, h);
}

/// Side minus one of the grid for size exponent `n`.
fn grid_span(size_exponent: u32) -> (side: usize)
    requires
        size_exponent <= 11,
    ensures
        side == pow2((size_exponent + 4) as nat),
        side + 1 == side_for(size_exponent as nat),
        halvable(side as nat),
        side <= 32768,
        work(side as nat) <= 5 * 32768 * 32768,
{
    let mut side: usize = 16;
    let mut k: u32 = 0;
    proof {
        lemma2_to64();
    }
    while k < size_exponent
        invariant
            k <= size_exponent <= 11,
            side == pow2((k + 4) as nat),
        decreases size_exponent - k,
    {
        proof {
            lemma_pow2_unfold((k + 5) as nat);
            lemma_pow2_strictly_increases((k + 4) as nat, 15);
            lemma2_to64();
        }
        side = side * 2;
        k = k + 1;
    }
    proof {
        lemma_halvable_pow2((k + 4) as nat);
        if k + 4 < 15 {
            lemma_pow2_strictly_increases((k + 4) as nat, 15);
        }
        lemma_work_bound(side as nat);
        assert(5 * side * side <= 5 * 32768 * 32768) by (nonlinear_arith)
            requires
                side <= 32768,
        ;
    }
    side
}

/// Square step at one edge midpoint, keeping track of a magnitude bound.
fn edge_step(map: &mut Grid<i64>, r: usize, c: usize, h: usize, s: usize, o: i64, Ghost(b): Ghost<int>)
    requires
        old(map).wf(),
        old(map).width == old(map).height,
        old(map).in_bounds(r as int, c as int),
        diamond_count(*old(map), r as int, c as int, h as int) >= 1,
        bounded(old(map).cells@, b),
        0 <= b,
        b + s <= 0x1_0000_0000_0000,
        -s <= o <= s,
    ensures
        final(map).width == old(map).width,
        final(map).height == old(map).height,
        final(map).cells@ == old(map).cells@.update(
            cell_index(old(map).width as int, r as int, c as int),
            edge_value(old(map).cells@, old(map).width as int, r as int, c as int, h as int, o as int) as i64,
        ),
        final(map).wf(),
        bounded(final(map).cells@, b + s),
{
    proof {
        lemma_square_value_bound(*map, r as int, c as int, h as int, b);
        lemma_cell_index_bounds(map.width as int, map.height as int, r as int, c as int);
        lemma_bounded_update(
            map.cells@,
            cell_index(map.width as int, r as int, c as int),
            square_value(*map, r as int, c as int, h as int, o as int) as i64,
            b,
            b + s,
        );
    }
    square_point(map, r, c, h, o);
}

/// Processes the square with corner `(i, j)` and side `s` with the offsets
/// `o0` (centre) to `o4` (edge midpoints).
fn split_square(
    map: &mut Grid<i64>,
    i: usize,
    j: usize,
    s: usize,
    o0: i64,
    o1: i64,
    o2: i64,
    o3: i64,
    o4: i64,
    Ghost(b): Ghost<int>,
)
    requires
        old(map).wf(),
        old(map).width == old(map).height,
        i + s < old(map).height,
        j + s < old(map).width,
        s >= 2,
        s % 2 == 0,
        bounded(old(map).cells@, b),
        0 <= b,
        b + 5 * s <= 0x1_0000_0000_0000,
        -s <= o0 <= s,
        -s <= o1 <= s,
        -s <= o2 <= s,
        -s <= o3 <= s,
        -s <= o4 <= s,
    ensures
        final(map).width == old(map).width,
        final(map).height == old(map).height,
        final(map).cells@ == square_pass(
            old(map).cells@,
            old(map).width as int,
            i as int,
            j as int,
            s as int,
            o0 as int,
            o1 as int,
            o2 as int,
            o3 as int,
            o4 as int,
        ),
        final(map).wf(),
        bounded(final(map).cells@, b + 5 * s),
{
    let h = s / 2;
    let dim = map.width;
    proof {
        lemma_cell_bounded(*map, i as int, j as int, b);
        lemma_cell_bounded(*map, i as int, (j + s) as int, b);
        lemma_cell_bounded(*map, (i + s) as int, j as int, b);
        lemma_cell_bounded(*map, (i + s) as int, (j + s) as int, b);
        lemma_trunc_div_bound(
            map.cell(i as int, j as int) as int + map.cell(i as int, j + s) as int + map.cell(i + s, j as int) as int
                + map.cell(i + s, j + s) as int,
            4,
            b,
        );
        lemma_cell_index_bounds(dim as int, dim as int, i + h, j + h);
        lemma_bounded_update(
            map.cells@,
            cell_index(dim as int, i + h, j + h),
            diamond_value(*map, i as int, j as int, s as int, o0 as int) as i64,
            b,
            b + s,
        );
    }
    diamond_step(map, i, j, s, o0);
    proof {
        assert(present(*map, i as int, (j + h) - h) == 1);
    }
    edge_step(map, i, j + h, h, s, o1, Ghost(b + s));
    proof {
        assert(present(*map, (i + h) - h, j as int) == 1);
    }
    edge_step(map, i + h, j, h, s, o2, Ghost(b + 2 * s));
    proof {
        assert(present(*map, (i + s) as int, (j + h) - h) == 1);
    }
    edge_step(map, i + s, j + h, h, s, o3, Ghost(b + 3 * s));
    proof {
        assert(present(*map, (i + h) - h, (j + s) as int) == 1);
    }
    edge_step(map, i + h, j + s, h, s, o4, Ghost(b + 4 * s));
}

/// The next offset: a fresh draw within `-s ..= s`, or the given one.
fn next_offset(given: &Vec<i64>, k: u64, s: i64, draw: bool) -> (o: i64)
    requires
        0 <= s,
    ensures
        draw ==> -s <= o <= s,
        !draw ==> o == offset_at(given@, k as int),
{
    if draw {
        random_in(-s, s)
    } else if (k as u128) < (given.len() as u128) {
        given[k as usize]
    } else {
        0
    }
}

/// The offsets of `offsets` agree with the draws made so far.
pub open spec fn agrees(offsets: Seq<i64>, drawn: Seq<i64>) -> bool {
    forall|k: int| 0 <= k < drawn.len() ==> offset_at(offsets, k) == #[trigger] drawn[k]
}

/// Processing one more square keeps the remaining run equal to the whole
/// run, for every offset sequence that agrees with the draws made so far.
proof fn lemma_advance(
    dim: int,
    init: Seq<i64>,
    root: Seq<(usize, usize, usize)>,
    before: Seq<i64>,
    after: Seq<i64>,
    rest: Seq<(usize, usize, usize)>,
    next: Seq<(usize, usize, usize)>,
    old_drawn: Seq<i64>,
    drawn: Seq<i64>,
    t: int,
)
    requires
        rest.len() > 0,
        rest[0].2 >= 2,
        next == rest.drop_first() + children(rest[0]),
        t >= 0,
        old_drawn.len() == 5 * t,
        drawn.len() == 5 * t + 5,
        forall|k: int| 0 <= k < 5 * t ==> drawn[k] == old_drawn[k],
        forall|e: int| 0 <= e < 5 ==> -(rest[0].2 as int) <= #[trigger] drawn[5 * t + e] <= rest[0].2,
        after == square_pass(
            before,
            dim,
            rest[0].0 as int,
            rest[0].1 as int,
            rest[0].2 as int,
            drawn[5 * t] as int,
            drawn[5 * t + 1] as int,
            drawn[5 * t + 2] as int,
            drawn[5 * t + 3] as int,
            drawn[5 * t + 4] as int,
        ),
        forall|offs: Seq<i64>|
            #[trigger] agrees(offs, old_drawn) ==> run(dim, init, root, offs, 0) == run(dim, before, rest, offs, t)
                && offsets_fit(root, offs, 0) == offsets_fit(rest, offs, t),
    ensures
        forall|offs: Seq<i64>|
            #[trigger] agrees(offs, drawn) ==> run(dim, init, root, offs, 0) == run(dim, after, next, offs, t + 1)
                && offsets_fit(root, offs, 0) == offsets_fit(next, offs, t + 1),
{
    assert forall|offs: Seq<i64>| #[trigger] agrees(offs, drawn) implies run(dim, init, root, offs, 0) == run(
        dim,
        after,
        next,
        offs,
        t + 1,
    ) && offsets_fit(root, offs, 0) == offsets_fit(next, offs, t + 1) by {
        assert forall|k: int| 0 <= k < old_drawn.len() implies offset_at(offs, k) == #[trigger] old_drawn[k] by {
            assert(offset_at(offs, k) == drawn[k]);
        }
        assert(agrees(offs, old_drawn));
        assert(offset_at(offs, 5 * t) == drawn[5 * t]);
        assert(offset_at(offs, 5 * t + 1) == drawn[5 * t + 1]);
        assert(offset_at(offs, 5 * t + 2) == drawn[5 * t + 2]);
        assert(offset_at(offs, 5 * t + 3) == drawn[5 * t + 3]);
        assert(offset_at(offs, 5 * t + 4) == drawn[5 * t + 4]);
        assert forall|e: int| 0 <= e < 5 implies -(rest[0].2 as int) <= #[trigger] offset_at(offs, 5 * t + e)
            <= rest[0].2 by {
            assert(offset_at(offs, 5 * t + e) == drawn[5 * t + e]);
        }
    }
}

/// Runs diamond-square from the given corners, with offsets drawn afresh
/// when `draw` is set and taken from `given` otherwise; also hands back the
/// offsets used.
#[verifier::rlimit(60)]
fn fill_field(size_exponent: u32, corners: &Vec<i64>, given: &Vec<i64>, draw: bool) -> (res: (Grid<i64>, Ghost<Seq<i64>>))
    requires
        size_exponent <= 11,
        corners@.len() == 4,
        forall|k: int|
            0 <= k < 4 ==> -(side_for(size_exponent as nat) as int) <= #[trigger] corners@[k] <= side_for(
                size_exponent as nat,
            ) as int,
        !draw ==> offsets_fit(first_square(size_exponent as nat), given@, 0),
    ensures
        res.0.wf(),
        res.0.width == side_for(size_exponent as nat),
        res.0.height == side_for(size_exponent as nat),
        res.0.cells@ == field_from(size_exponent as nat, corners@, res.1@),
        offsets_fit(first_square(size_exponent as nat), res.1@, 0),
        !draw ==> res.0.cells@ == field_from(size_exponent as nat, corners@, given@),
{
    let ghost n = size_exponent as nat;
    let side = grid_span(size_exponent);
    let dim = side + 1;
    assert(dim * dim <= 32769 * 32769) by (nonlinear_arith)
        requires
            dim <= 32769,
    ;
    let mut map: Grid<i64> = Grid::new(dim, dim, 0);
    let ghost zeros = map.cells@;
    proof {
        lemma_cell_index_bounds(dim as int, dim as int, 0, 0);
        lemma_cell_index_bounds(dim as int, dim as int, 0, side as int);
        lemma_cell_index_bounds(dim as int, dim as int, side as int, 0);
        lemma_cell_index_bounds(dim as int, dim as int, side as int, side as int);
    }
    map.set(0, 0, corners[0]);
    map.set(0, side, corners[1]);
    map.set(side, 0, corners[2]);
    map.set(side, side, corners[3]);
    let ghost init = map.cells@;
    let ghost bound: int = dim as int;
    proof {
        assert(init =~= corner_grid(dim as int, corners@));
        assert forall|k: int| 0 <= k < init.len() implies -bound <= #[trigger] init[k] <= bound by {
            assert(zeros[k] == 0);
        }
    }
    let mut queue: Vec<(usize, usize, usize)> = Vec::new();
    queue.push((0, 0, side));
    let mut head: usize = 0;
    let mut t: u64 = 0;
    let ghost mut drawn: Seq<i64> = Seq::empty();
    proof {
        let q = queue@.subrange(0, 1);
        assert(q =~= first_square(n));
        assert(q.drop_last() =~= Seq::<(usize, usize, usize)>::empty());
        assert(queue_work(q.drop_last()) == 0);
        assert(queue_work(q) == work(side as nat));
    }
    while head < queue.len()
        invariant
            map.wf(),
            map.width == dim,
            map.height == dim,
            dim == side + 1,
            dim == side_for(n),
            n == size_exponent as nat,
            side <= 32768,
            work(side as nat) <= 5 * 32768 * 32768,
            head <= queue@.len(),
            forall|x: int|
                head <= x < queue@.len() ==> (#[trigger] queue@[x]).0 + queue@[x].2 < dim
                    && queue@[x].1 + queue@[x].2 < dim && halvable(queue@[x].2 as nat),
            bounded(map.cells@, bound),
            0 <= bound,
            bound + queue_work(queue@.subrange(head as int, queue@.len() as int)) <= dim + work(side as nat),
            10 * t + queue_work(queue@.subrange(head as int, queue@.len() as int)) <= work(side as nat),
            drawn.len() == 5 * t,
            init == corner_grid(dim as int, corners@),
            forall|offs: Seq<i64>|
                #[trigger] agrees(offs, drawn) ==> run(dim as int, init, first_square(n), offs, 0) == run(
                    dim as int,
                    map.cells@,
                    queue@.subrange(head as int, queue@.len() as int),
                    offs,
                    t as int,
                ) && offsets_fit(first_square(n), offs, 0) == offsets_fit(
                    queue@.subrange(head as int, queue@.len() as int),
                    offs,
                    t as int,
                ),
            !draw ==> forall|k: int| 0 <= k < drawn.len() ==> #[trigger] drawn[k] == offset_at(given@, k),
            !draw ==> offsets_fit(first_square(n), given@, 0),
        decreases queue_work(queue@.subrange(head as int, queue@.len() as int)),
    {
        let ghost rest = queue@.subrange(head as int, queue@.len() as int);
        let ghost before = map.cells@;
        let (i, j, s) = queue[head];
        proof {
            assert(rest[0] == (i, j, s));
            assert(halvable(s as nat));
            assert(s >= 2);
            lemma_queue_work_step(rest);
            if !draw {
                assert(agrees(given@, drawn));
                assert(offsets_fit(rest, given@, t as int));
                assert(-(s as int) <= offset_at(given@, 5 * t + 0) <= s);
                assert(-(s as int) <= offset_at(given@, 5 * t + 1) <= s);
                assert(-(s as int) <= offset_at(given@, 5 * t + 2) <= s);
                assert(-(s as int) <= offset_at(given@, 5 * t + 3) <= s);
                assert(-(s as int) <= offset_at(given@, 5 * t + 4) <= s);
            }
        }
        head = head + 1;
        let h = s / 2;
        let si = s as i64;
        let o0 = next_offset(given, 5 * t, si, draw);
        let o1 = next_offset(given, 5 * t + 1, si, draw);
        let o2 = next_offset(given, 5 * t + 2, si, draw);
        let o3 = next_offset(given, 5 * t + 3, si, draw);
        let o4 = next_offset(given, 5 * t + 4, si, draw);
        split_square(&mut map, i, j, s, o0, o1, o2, o3, o4, Ghost(bound));
        let ghost old_drawn = drawn;
        proof {
            bound = bound + 5 * s;
            drawn = drawn + seq![o0, o1, o2, o3, o4];
        }
        if s > 2 {
            queue.push((i, j, h));
            queue.push((i, j + h, h));
            queue.push((i + h, j, h));
            queue.push((i + h, j + h, h));
        }
        proof {
            let q = queue@.subrange(head as int, queue@.len() as int);
            assert(q =~= rest.drop_first() + children(rest[0]));
            assert(drawn[5 * t + 0] == o0);
            assert(drawn[5 * t + 1] == o1);
            assert(drawn[5 * t + 2] == o2);
            assert(drawn[5 * t + 3] == o3);
            assert(drawn[5 * t + 4] == o4);
            assert forall|e: int| 0 <= e < 5 implies -(s as int) <= #[trigger] drawn[5 * t + e] <= s by {
                if e == 0 {
                    assert(drawn[5 * t + e] == o0);
                } else if e == 1 {
                    assert(drawn[5 * t + e] == o1);
                } else if e == 2 {
                    assert(drawn[5 * t + e] == o2);
                } else if e == 3 {
                    assert(drawn[5 * t + e] == o3);
                } else {
                    assert(drawn[5 * t + e] == o4);
                }
            }
            lemma_advance(dim as int, init, first_square(n), before, map.cells@, rest, q, old_drawn, drawn, t as int);
            if !draw {
                assert forall|k: int| 0 <= k < drawn.len() implies #[trigger] drawn[k] == offset_at(given@, k) by {
                    if k < old_drawn.len() {
                        assert(drawn[k] == old_drawn[k]);
                    }
                }
            }
            assert forall|x: int|
                head <= x < queue@.len() implies (#[trigger] queue@[x]).0 + queue@[x].2 < dim
                    && queue@[x].1 + queue@[x].2 < dim && halvable(queue@[x].2 as nat) by {
                if x >= queue@.len() - 4 && s > 2 {
                    assert(s == 2 * h);
                }
            }
        }
        t = t + 1;
    }
    proof {
        let q = queue@.subrange(head as int, queue@.len() as int);
        assert(q.len() == 0);
        assert forall|k: int| 0 <= k < drawn.len() implies offset_at(drawn, k) == #[trigger] drawn[k] by {}
        assert(agrees(drawn, drawn));
        if !draw {
            assert forall|k: int| 0 <= k < drawn.len() implies offset_at(given@, k) == #[trigger] drawn[k] by {}
            assert(agrees(given@, drawn));
        }
    }
    (map, Ghost(drawn))
}

/// Diamond-square synthesis from given draws: `corners` are the values of
/// the top left, top right, bottom left and bottom right corners, and
/// `offsets[5 t .. 5 t + 5]` are the offsets of the `t`-th square processed
/// (its centre, then its top, left, bottom and right edge midpoints;
/// missing offsets count as zero). The grid has side `2^(4 + n) + 1`,
/// `n = size_exponent`; sizes up to `n = 11` (2^30 cells) are accepted,
/// which keeps the grid addressable on every target.
pub fn diamond_square_from(size_exponent: u32, corners: &Vec<i64>, offsets: &Vec<i64>, normalize: bool) -> (r: Grid<i64>)
    requires
        size_exponent <= 11,
        draws_fit(size_exponent as nat, corners@, offsets@),
    ensures
        r.wf(),
        r.width == side_for(size_exponent as nat),
        r.height == side_for(size_exponent as nat),
        r.cells@ == diamond_square_field(size_exponent as nat, corners@, offsets@, normalize),
{
    let (mut map, Ghost(_used)) = fill_field(size_exponent, corners, offsets, false);
    if normalize {
        let ghost raw = map.cells@;
        map.normalize();
        proof {
            assert(map.cells@ =~= normalized(raw));
        }
    }
    map
}

/// Diamond-square synthesis of a height field of side `2^(4 + n) + 1`,
/// `n = size_exponent` (up to `n = 11`, see `diamond_square_from`).
///
/// The four corners get random values in `-side ..= side`. Squares are
/// then processed breadth first from the whole grid down to squares of
/// side two: the centre of each becomes the mean of its corners, each edge
/// midpoint the mean of its in-grid neighbours half a side away, each plus
/// a random offset within the square's side. With `normalize` the field is
/// finally rescaled onto `0 ..= HEIGHT_UNIT`. The result is exactly what
/// `diamond_square_from` computes for the draws made.
pub fn diamond_square(size_exponent: u32, normalize: bool) -> (r: Grid<i64>)
    requires
        size_exponent <= 11,
    ensures
        r.wf(),
        r.width == side_for(size_exponent as nat),
        r.height == side_for(size_exponent as nat),
        exists|corners: Seq<i64>, offsets: Seq<i64>|
            #[trigger] draws_fit(size_exponent as nat, corners, offsets) && r.cells@ == diamond_square_field(
                size_exponent as nat,
                corners,
                offsets,
                normalize,
            ),
        normalize ==> forall|k: int| 0 <= k < r.cells@.len() ==> 0 <= #[trigger] r.cells@[k] <= HEIGHT_UNIT,
        normalize ==> seq_min(r.cells@) == 0,
        normalize ==> seq_max(r.cells@) == HEIGHT_UNIT || forall|k: int|
            0 <= k < r.cells@.len() ==> #[trigger] r.cells@[k] == 0,
        !normalize ==> forall|row: int, col: int|
            is_grid_corner(r.width as int, row, col) ==> -(r.width as int) <= #[trigger] r.cells@[cell_index(
                r.width as int,
                row,
                col,
            )] <= r.width,
        !normalize ==> ({
            let w = r.width as int;
            let mid = (w - 1) / 2;
            let mean = trunc_div(
                r.cells@[cell_index(w, 0, 0)] + r.cells@[cell_index(w, 0, w - 1)] + r.cells@[cell_index(w, w - 1, 0)]
                    + r.cells@[cell_index(w, w - 1, w - 1)],
                4,
            );
            -(w - 1) <= r.cells@[cell_index(w, mid, mid)] - mean <= w - 1
        }),
{
    let side = grid_span(size_exponent);
    let limit = (side + 1) as i64;
    let mut corners: Vec<i64> = Vec::new();
    let mut c: usize = 0;
    while c < 4
        invariant
            c <= 4,
            corners@.len() == c,
            limit == side_for(size_exponent as nat),
            forall|k: int| 0 <= k < c ==> -limit <= #[trigger] corners@[k] <= limit,
        decreases 4 - c,
    {
        corners.push(random_in(-limit, limit));
        c = c + 1;
    }
    let no_offsets: Vec<i64> = Vec::new();
    let (mut map, Ghost(used)) = fill_field(size_exponent, &corners, &no_offsets, true);
    let ghost raw = map.cells@;
    if normalize {
        map.normalize();
        proof {
            assert(map.cells@ =~= normalized(raw));
            assert(raw.len() >= 1) by {
                assert(side + 1 >= 1);
                assert((side + 1) * (side + 1) >= 1) by (nonlinear_arith)
                    requires
                        side + 1 >= 1,
                ;
            }
            crate::grid::lemma_seq_min_max(map.cells@);
        }
    }
    proof {
        assert(draws_fit(size_exponent as nat, corners@, used));
        assert(map.cells@ == diamond_square_field(size_exponent as nat, corners@, used, normalize));
        if !normalize {
            lemma_field_corners(size_exponent as nat, corners@, used);
            let d = side + 1;
            assert forall|row: int, col: int| is_grid_corner(d as int, row, col) implies -(d as int)
                <= #[trigger] map.cells@[cell_index(d as int, row, col)] <= d by {
                assert(-limit <= corners@[0] <= limit);
                assert(-limit <= corners@[1] <= limit);
                assert(-limit <= corners@[2] <= limit);
                assert(-limit <= corners@[3] <= limit);
            }
            lemma_field_centre(size_exponent as nat, corners@, used);
            let c = corners@;
            let sum = c[0] + c[1] + c[2] + c[3];
            lemma_trunc_div_bound(sum as int, 4, d as int);
            let root = first_square(size_exponent as nat);
            assert(root[0].2 == side);
            assert(-(side as int) <= offset_at(used, 5 * 0int + 0) <= side);
        }
    }
    map
}

/// `sum` weighted samples of the cell at storage index `k`, over the first
/// `m` octaves.
pub open spec fn weighted_sum(octaves: Seq<Grid<i64>>, weights: Seq<u32>, k: int, m: int) -> int
    decreases m,
{
    if m <= 0 {
        0
    } else {
        weighted_sum(octaves, weights, k, m - 1) + weights[m - 1] * octaves[m - 1].cells@[k]
    }
}

/// Sum of the first `m` weights.
pub open spec fn weight_total(weights: Seq<u32>, m: int) -> int
    decreases m,
{
    if m <= 0 { 0 } else { weight_total(weights, m - 1) + weights[m - 1] }
}

/// `v` (a fixed-point value) raised to the power `p`, each product rounded
/// towards zero.
pub open spec fn fixed_pow(v: int, p: nat) -> int
    decreases p,
{
    if p == 0 { HEIGHT_UNIT as int } else { trunc_div(fixed_pow(v, (p - 1) as nat) * v, HEIGHT_UNIT as int) }
}

/// Fixed-point offset of the centre of row (or column) `i` from the centre
/// of a side of `side` cells, as a fraction of the side: `(i + 1/2) / side - 1/2`.
pub open spec fn centre_offset(i: int, side: int) -> int {
    trunc_div((2 * i + 1 - side) * HEIGHT_UNIT, 2 * side)
}

/// The cell at storage index `k` of a noise field before normalisation:
/// the weighted mean of the octave samples, raised to `power`, and with
/// `island` pulled down by the distance from the centre (one at the
/// corners).
pub open spec fn noise_cell(
    side: int,
    octaves: Seq<Grid<i64>>,
    weights: Seq<u32>,
    power: nat,
    island: bool,
    k: int,
) -> int {
    let mean = trunc_div(
        weighted_sum(octaves, weights, k, octaves.len() as int),
        weight_total(weights, weights.len() as int),
    );
    let v = fixed_pow(mean, power);
    if island {
        let a = centre_offset(k / side, side);
        let b = centre_offset(k % side, side);
        trunc_div(HEIGHT_UNIT + v - floor_sqrt((2 * (a * a + b * b)) as nat), 2)
    } else {
        v
    }
}

proof fn lemma_fixed_pow_bound(v: int, p: nat)
    requires
        -HEIGHT_UNIT <= v <= HEIGHT_UNIT,
    ensures
        -HEIGHT_UNIT <= fixed_pow(v, p) <= HEIGHT_UNIT,
    decreases p,
{
    if p > 0 {
        lemma_fixed_pow_bound(v, (p - 1) as nat);
        let f = fixed_pow(v, (p - 1) as nat);
        assert(-(HEIGHT_UNIT * HEIGHT_UNIT) <= f * v <= HEIGHT_UNIT * HEIGHT_UNIT) by (nonlinear_arith)
            requires
                -1_000_000 <= f <= 1_000_000,
                -1_000_000 <= v <= 1_000_000,
        ;
        lemma_trunc_div_bound(f * v, HEIGHT_UNIT as int, HEIGHT_UNIT as int);
    }
}

fn divide_wide(x: i128, d: u128) -> (r: i64)
    requires
        1 <= d <= 0x1_0000_0000_0000_0000_0000_0000,
        -(d * HEIGHT_UNIT) <= x <= d * HEIGHT_UNIT,
    ensures
        r == trunc_div(x as int, d as int),
        -HEIGHT_UNIT <= r <= HEIGHT_UNIT,
{
    proof {
        lemma_trunc_div_bound(x as int, d as int, HEIGHT_UNIT as int);
    }
    if x >= 0 {
        ((x as u128) / d) as i64
    } else {
        -(((-x) as u128 / d) as i64)
    }
}

fn centre_offset_of(i: usize, side: usize) -> (r: i128)
    requires
        i < side <= 0x1_0000_0000,
    ensures
        r == centre_offset(i as int, side as int),
        -HEIGHT_UNIT <= r <= HEIGHT_UNIT,
{
    let t: i128 = 2 * (i as i128) + 1 - side as i128;
    assert(-0x1_0000_0000 * 1_000_000 <= t * 1_000_000 <= 0x1_0000_0000 * 1_000_000) by (nonlinear_arith)
        requires
            -0x1_0000_0000 <= t <= 0x1_0000_0000,
    ;
    let num: i128 = t * (HEIGHT_UNIT as i128);
    let den: i128 = 2 * side as i128;
    proof {
        assert(-(den * HEIGHT_UNIT) <= num <= den * HEIGHT_UNIT) by (nonlinear_arith)
            requires
                num == t * 1_000_000,
                den == 2 * side,
                -side <= t <= side,
        ;
        lemma_trunc_div_bound(num as int, den as int, HEIGHT_UNIT as int);
    }
    if num >= 0 {
        ((num as u128) / (den as u128)) as i128
    } else {
        -(((-num) as u128 / (den as u128)) as i128)
    }
}

/// Composes a `side` by `side` noise height field from octave samples.
///
/// Each octave is a grid of noise samples in `-HEIGHT_UNIT ..= HEIGHT_UNIT`
/// with its weight; every cell becomes `noise_cell(..)` (weighted mean,
/// `power`, island falloff) and the field is then normalised onto
/// `0 ..= HEIGHT_UNIT`. Weights are non-negative integers (only their
/// ratios matter) and the power is a whole number, applied by repeated
/// fixed-point multiplication: fractional powers and negative weights are
/// not offered.
pub fn noise_field(side: usize, octaves: &Vec<Grid<i64>>, weights: &Vec<u32>, power: u32, island: bool) -> (r: Grid<i64>)
    requires
        side * side <= usize::MAX,
        octaves@.len() == weights@.len(),
        weight_total(weights@, weights@.len() as int) > 0,
        forall|o: int|
            0 <= o < octaves@.len() ==> (#[trigger] octaves@[o]).wf() && octaves@[o].width == side
                && octaves@[o].height == side && bounded(octaves@[o].cells@, HEIGHT_UNIT as int),
    ensures
        r.wf(),
        r.width == side,
        r.height == side,
        ({
            let pre = Seq::new(
                (side * side) as nat,
                |k: int| noise_cell(side as int, octaves@, weights@, power as nat, island, k) as i64,
            );
            forall|k: int|
                0 <= k < r.cells@.len() ==> #[trigger] r.cells@[k] == rescale(
                    pre[k] as int,
                    seq_min(pre),
                    seq_max(pre),
                )
        }),
        forall|k: int| 0 <= k < r.cells@.len() ==> 0 <= #[trigger] r.cells@[k] <= HEIGHT_UNIT,
{
    let n = side * side;
    assert(side <= 0x1_0000_0000) by (nonlinear_arith)
        requires
            side * side <= 0xffff_ffff_ffff_ffff,
    ;
    let ghost pre = Seq::new(
        n as nat,
        |k: int| noise_cell(side as int, octaves@, weights@, power as nat, island, k) as i64,
    );
    let mut total: u128 = 0;
    let mut o: usize = 0;
    while o < weights.len()
        invariant
            o <= weights@.len(),
            total == weight_total(weights@, o as int),
            total <= o * 0xffff_ffff,
        decreases weights@.len() - o,
    {
        total = total + weights[o] as u128;
        o = o + 1;
    }
    let mut cells: Vec<i64> = Vec::new();
    let mut k: usize = 0;
    while k < n
        invariant
            n == side * side,
            side <= 0x1_0000_0000,
            k <= n,
            octaves@.len() == weights@.len(),
            total == weight_total(weights@, weights@.len() as int),
            total > 0,
            total <= weights@.len() * 0xffff_ffff,
            forall|o: int|
                0 <= o < octaves@.len() ==> (#[trigger] octaves@[o]).wf() && octaves@[o].width == side
                    && octaves@[o].height == side && bounded(octaves@[o].cells@, HEIGHT_UNIT as int),
            cells@.len() == k,
            pre.len() == n,
            forall|x: int| 0 <= x < n ==> #[trigger] pre[x] == noise_cell(side as int, octaves@, weights@, power as nat, island, x) as i64,
            forall|x: int| 0 <= x < k ==> #[trigger] cells@[x] == pre[x],
        decreases n - k,
    {
        let mut acc: i128 = 0;
        let mut o: usize = 0;
        while o < octaves.len()
            invariant
                k < n,
                n == side * side,
                o <= octaves@.len(),
                octaves@.len() == weights@.len(),
                forall|q: int|
                    0 <= q < octaves@.len() ==> (#[trigger] octaves@[q]).wf() && octaves@[q].width == side
                        && octaves@[q].height == side && bounded(octaves@[q].cells@, HEIGHT_UNIT as int),
                acc == weighted_sum(octaves@, weights@, k as int, o as int),
                -(weight_total(weights@, o as int) * HEIGHT_UNIT) <= acc <= weight_total(weights@, o as int) * HEIGHT_UNIT,
                weight_total(weights@, o as int) <= o * 0xffff_ffff,
            decreases octaves@.len() - o,
        {
            let octave = &octaves[o];
            let s = octave.cells[k];
            let w = weights[o];
            proof {
                assert(octaves@[o as int].cells@.len() == side * side);
                assert(-HEIGHT_UNIT <= octaves@[o as int].cells@[k as int] <= HEIGHT_UNIT);
                assert(-(w * HEIGHT_UNIT) <= w * s <= w * HEIGHT_UNIT) by (nonlinear_arith)
                    requires
                        -1_000_000 <= s <= 1_000_000,
                        0 <= w,
                ;
            }
            acc = acc + (w as i128) * (s as i128);
            o = o + 1;
        }
        let mean = divide_wide(acc, total);
        let mut v: i64 = HEIGHT_UNIT;
        let mut p: u32 = 0;
        while p < power
            invariant
                p <= power,
                -HEIGHT_UNIT <= mean <= HEIGHT_UNIT,
                v == fixed_pow(mean as int, p as nat),
                -HEIGHT_UNIT <= v <= HEIGHT_UNIT,
            decreases power - p,
        {
            proof {
                lemma_fixed_pow_bound(mean as int, (p + 1) as nat);
                assert(-(HEIGHT_UNIT * HEIGHT_UNIT) <= v * mean <= HEIGHT_UNIT * HEIGHT_UNIT) by (nonlinear_arith)
                    requires
                        -1_000_000 <= v <= 1_000_000,
                        -1_000_000 <= mean <= 1_000_000,
                ;
            }
            v = divide_wide((v as i128) * (mean as i128), HEIGHT_UNIT as u128);
            p = p + 1;
        }
        let value: i64 = if island {
            let row = k / side;
            let col = k % side;
            proof {
                lemma_fundamental_div_mod(k as int, side as int);
                lemma_mod_pos_bound(k as int, side as int);
                assert(row < side) by (nonlinear_arith)
                    requires
                        k == side * row + col,
                        0 <= col,
                        k < side * side,
                        side > 0,
                ;
            }
            let a = centre_offset_of(row, side);
            let b = centre_offset_of(col, side);
            assert(0 <= a * a <= 1_000_000_000_000) by (nonlinear_arith)
                requires
                    -1_000_000 <= a <= 1_000_000,
            ;
            assert(0 <= b * b <= 1_000_000_000_000) by (nonlinear_arith)
                requires
                    -1_000_000 <= b <= 1_000_000,
            ;
            let d = sqrt_floor((2 * (a * a + b * b)) as u128);
            proof {
                assert(d <= 2_000_000) by (nonlinear_arith)
                    requires
                        d * d <= 4_000_000_000_000,
                        d >= 0,
                ;
            }
            let shifted: i128 = HEIGHT_UNIT as i128 + v as i128 - d as i128;
            divide_wide(shifted, 2)
        } else {
            v
        };
        cells.push(value);
        k = k + 1;
    }
    let mut map = Grid { width: side, height: side, cells };
    proof {
        assert(map.cells@ =~= pre);
    }
    map.normalize();
    map
}

} // verus!
