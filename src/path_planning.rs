use vstd::prelude::*;
use crate::constraint::{PositionConstraint, all_allow, all_well_formed, respect_all};
use crate::distance::{Distance2D, NullDistance2D, abs};
use crate::utils::is_in_rect;
use crate::grid::{Grid, cell_index, lemma_cell_index_bounds, lemma_cell_index_injective};

verus! {

/// The four moves of a 4-connected grid: north, west, south, east.
pub open spec fn directions_4c() -> Seq<(i32, i32)> {
    seq![(-1i32, 0i32), (0i32, -1i32), (1i32, 0i32), (0i32, 1i32)]
}

fn neighbors_direction_4c() -> (r: Vec<(i32, i32)>)
    ensures
        r@ == directions_4c(),
{
    let r = vec![(-1i32, 0i32), (0i32, -1i32), (1i32, 0i32), (0i32, 1i32)];
    assert(r@ =~= directions_4c());
    r
}

/// `x` lies on a grid of `map_size.0` rows and `map_size.1` columns.
pub open spec fn on_map(x: (int, int), map_size: (i32, i32)) -> bool {
    0 <= x.0 < map_size.0 && 0 <= x.1 < map_size.1
}

/// A cell may be entered: it lies on the map and passes the goal rules if it
/// is the goal, the way rules otherwise.
pub open spec fn admissible<W: PositionConstraint, G: PositionConstraint>(
    x: (int, int),
    goal: (i32, i32),
    map_size: (i32, i32),
    way_position_constraints: Seq<W>,
    goal_position_constraints: Seq<G>,
) -> bool {
    &&& on_map(x, map_size)
    &&& if x == (goal.0 as int, goal.1 as int) {
        all_allow(goal_position_constraints, (x.0 as usize, x.1 as usize))
    } else {
        all_allow(way_position_constraints, (x.0 as usize, x.1 as usize))
    }
}

/// The cells reached from `position` along `directions`, in that order,
/// that are admissible.
pub open spec fn admissible_moves<W: PositionConstraint, G: PositionConstraint>(
    position: (i32, i32),
    goal: (i32, i32),
    map_size: (i32, i32),
    directions: Seq<(i32, i32)>,
    way_position_constraints: Seq<W>,
    goal_position_constraints: Seq<G>,
) -> Seq<(i32, i32)>
    decreases directions.len(),
{
    if directions.len() == 0 {
        seq![]
    } else {
        let rest = admissible_moves(
            position,
            goal,
            map_size,
            directions.drop_last(),
            way_position_constraints,
            goal_position_constraints,
        );
        let x = (position.0 + directions.last().0, position.1 + directions.last().1);
        if admissible(x, goal, map_size, way_position_constraints, goal_position_constraints) {
            rest.push((x.0 as i32, x.1 as i32))
        } else {
            rest
        }
    }
}

/// Cells `a` and `b` share a side.
pub open spec fn adjacent(a: (i32, i32), b: (i32, i32)) -> bool {
    abs(b.0 - a.0) + abs(b.1 - a.1) == 1
}

/// One move of a search: to a side neighbour that may be entered.
pub open spec fn is_step<W: PositionConstraint, G: PositionConstraint>(
    a: (i32, i32),
    b: (i32, i32),
    goal: (i32, i32),
    map_size: (i32, i32),
    way_position_constraints: Seq<W>,
    goal_position_constraints: Seq<G>,
) -> bool {
    adjacent(a, b) && admissible(
        (b.0 as int, b.1 as int),
        goal,
        map_size,
        way_position_constraints,
        goal_position_constraints,
    )
}

proof fn lemma_push_contains(s: Seq<(i32, i32)>, a: (i32, i32), b: (i32, i32))
    ensures
        s.push(a).contains(b) <==> (s.contains(b) || a == b),
{
    if s.push(a).contains(b) {
        let i = choose|i: int| 0 <= i < s.push(a).len() && s.push(a)[i] == b;
        if i < s.len() {
            assert(s[i] == b);
        }
    }
    if s.contains(b) {
        let i = choose|i: int| 0 <= i < s.len() && s[i] == b;
        assert(s.push(a)[i] == b);
    }
    if a == b {
        assert(s.push(a)[s.len() as int] == b);
    }
}

/// Membership in the admitted moves, one direction at a time.
proof fn lemma_moves_last<W: PositionConstraint, G: PositionConstraint>(
    position: (i32, i32),
    goal: (i32, i32),
    map_size: (i32, i32),
    directions: Seq<(i32, i32)>,
    w: Seq<W>,
    g: Seq<G>,
    b: (i32, i32),
)
    requires
        directions.len() > 0,
    ensures
        ({
            let x = (position.0 + directions.last().0, position.1 + directions.last().1);
            admissible_moves(position, goal, map_size, directions, w, g).contains(b) <==> (
            admissible_moves(position, goal, map_size, directions.drop_last(), w, g).contains(b)
                || ((b.0 as int, b.1 as int) == x && admissible(x, goal, map_size, w, g)))
        }),
{
    let x = (position.0 + directions.last().0, position.1 + directions.last().1);
    let rest = admissible_moves(position, goal, map_size, directions.drop_last(), w, g);
    if admissible(x, goal, map_size, w, g) {
        lemma_push_contains(rest, (x.0 as i32, x.1 as i32), b);
    }
}

/// Every cell admitted from `position` with the four moves is a step, and
/// every step is admitted.
pub proof fn lemma_moves_are_steps<W: PositionConstraint, G: PositionConstraint>(
    position: (i32, i32),
    goal: (i32, i32),
    map_size: (i32, i32),
    way_position_constraints: Seq<W>,
    goal_position_constraints: Seq<G>,
)
    ensures
        forall|b: (i32, i32)|
            admissible_moves(
                position,
                goal,
                map_size,
                directions_4c(),
                way_position_constraints,
                goal_position_constraints,
            ).contains(b) <==> is_step(
                position,
                b,
                goal,
                map_size,
                way_position_constraints,
                goal_position_constraints,
            ),
{
    let d = directions_4c();
    let w = way_position_constraints;
    let g = goal_position_constraints;
    assert(d.take(1).drop_last() =~= d.take(0));
    assert(d.take(2).drop_last() =~= d.take(1));
    assert(d.take(3).drop_last() =~= d.take(2));
    assert(d.drop_last() =~= d.take(3));
    assert(admissible_moves(position, goal, map_size, d.take(0), w, g) =~= seq![]);
    assert forall|b: (i32, i32)|
        admissible_moves(position, goal, map_size, d, w, g).contains(b) <==> is_step(
            position,
            b,
            goal,
            map_size,
            w,
            g,
        ) by {
        lemma_moves_last(position, goal, map_size, d.take(1), w, g, b);
        lemma_moves_last(position, goal, map_size, d.take(2), w, g, b);
        lemma_moves_last(position, goal, map_size, d.take(3), w, g, b);
        lemma_moves_last(position, goal, map_size, d, w, g, b);
    }
}

/// The cells one move away from `position` along `allowed_directions`, in
/// that order, that lie on the map and pass the rules: the goal is checked
/// against `goal_position_constraints` only, every other cell against
/// `way_position_constraints` only.
pub fn neighbors<W: PositionConstraint, G: PositionConstraint>(
    position: (i32, i32),
    goal: (i32, i32),
    map_size: (i32, i32),
    allowed_directions: &[(i32, i32)],
    way_position_constraints: &[W],
    goal_position_constraints: &[G],
) -> (r: Vec<(i32, i32)>)
    requires
        all_well_formed(way_position_constraints@),
        all_well_formed(goal_position_constraints@),
    ensures
        r@ == admissible_moves(
            position,
            goal,
            map_size,
            allowed_directions@,
            way_position_constraints@,
            goal_position_constraints@,
        ),
{
    let mut r: Vec<(i32, i32)> = Vec::new();
    let mut k: usize = 0;
    while k < allowed_directions.len()
        invariant
            k <= allowed_directions@.len(),
            all_well_formed(way_position_constraints@),
            all_well_formed(goal_position_constraints@),
            r@ == admissible_moves(
                position,
                goal,
                map_size,
                allowed_directions@.take(k as int),
                way_position_constraints@,
                goal_position_constraints@,
            ),
        decreases allowed_directions@.len() - k,
    {
        assert(allowed_directions@.take(k as int + 1).drop_last() =~= allowed_directions@.take(
            k as int,
        ));
        let d = allowed_directions[k];
        let x0: i64 = position.0 as i64 + d.0 as i64;
        let x1: i64 = position.1 as i64 + d.1 as i64;
        if i32::MIN as i64 <= x0 && x0 <= i32::MAX as i64 && i32::MIN as i64 <= x1 && x1
            <= i32::MAX as i64 {
            let x = (x0 as i32, x1 as i32);
            if is_in_rect(x, (0, 0, map_size.0, map_size.1), false) {
                let pos = (x.0 as usize, x.1 as usize);
                let ok = if x.0 == goal.0 && x.1 == goal.1 {
                    respect_all(goal_position_constraints, pos)
                } else {
                    respect_all(way_position_constraints, pos)
                };
                if ok {
                    r.push(x);
                }
            }
        }
        k = k + 1;
    }
    assert(allowed_directions@.take(allowed_directions@.len() as int) =~= allowed_directions@);
    r
}

/// The positions of a cost-annotated path.
pub open spec fn path_cells(path: Seq<(i32, i32, u64)>) -> Seq<(i32, i32)> {
    path.map_values(|t: (i32, i32, u64)| (t.0, t.1))
}

/// `cells` leads from `start` to `goal` by steps.
pub open spec fn is_path<W: PositionConstraint, G: PositionConstraint>(
    cells: Seq<(i32, i32)>,
    start: (i32, i32),
    goal: (i32, i32),
    map_size: (i32, i32),
    way_position_constraints: Seq<W>,
    goal_position_constraints: Seq<G>,
) -> bool {
    &&& cells.len() >= 1
    &&& cells[0] == start
    &&& cells.last() == goal
    &&& forall|k: int|
        0 <= k < cells.len() - 1 ==> #[trigger] is_step(
            cells[k],
            cells[k + 1],
            goal,
            map_size,
            way_position_constraints,
            goal_position_constraints,
        )
}

/// Sum of the step costs along `cells`.
pub open spec fn path_cost<D: Distance2D>(distance: D, cells: Seq<(i32, i32)>) -> nat
    decreases cells.len(),
{
    if cells.len() <= 1 {
        0
    } else {
        path_cost(distance, cells.drop_last()) + distance.cost(
            cells[cells.len() - 2],
            cells.last(),
        )
    }
}

proof fn lemma_path_cost_prefix<D: Distance2D>(distance: D, cells: Seq<(i32, i32)>, k: int)
    requires
        0 <= k < cells.len(),
    ensures
        path_cost(distance, cells.take(k + 1)) <= path_cost(distance, cells),
        k + 1 < cells.len() ==> path_cost(distance, cells.take(k + 2)) == path_cost(
            distance,
            cells.take(k + 1),
        ) + distance.cost(cells[k], cells[k + 1]),
    decreases cells.len(),
{
    if k + 1 < cells.len() {
        assert(cells.take(k + 2).drop_last() =~= cells.take(k + 1));
        assert(cells.drop_last().take(k + 1) =~= cells.take(k + 1));
        lemma_path_cost_prefix(distance, cells.drop_last(), k);
    } else {
        assert(cells.take(k + 1) =~= cells);
    }
}

/// `p` lies on the map.
pub open spec fn valid(map_size: (i32, i32), p: (i32, i32)) -> bool {
    on_map((p.0 as int, p.1 as int), map_size)
}

/// Row-major index of `p` on the map.
pub open spec fn at(map_size: (i32, i32), p: (i32, i32)) -> int {
    cell_index(map_size.1 as int, p.0 as int, p.1 as int)
}

proof fn lemma_at(map_size: (i32, i32), p: (i32, i32), q: (i32, i32))
    requires
        valid(map_size, p),
        valid(map_size, q),
    ensures
        0 <= at(map_size, p) < map_size.1 * map_size.0,
        at(map_size, p) == at(map_size, q) <==> p == q,
{
    lemma_cell_index_bounds(map_size.1 as int, map_size.0 as int, p.0 as int, p.1 as int);
    if at(map_size, p) == at(map_size, q) {
        lemma_cell_index_injective(map_size.1 as int, p.0 as int, p.1 as int, q.0 as int, q.1 as int);
    }
}

/// The edge `p -> q` needs no further work: going through `p` would
/// overflow, or `q` is already known at least as cheap.
spec fn relax_edge<D: Distance2D>(
    distance: D,
    gs: Seq<Option<u64>>,
    map_size: (i32, i32),
    p: (i32, i32),
    q: (i32, i32),
) -> bool {
    let via = gs[at(map_size, p)]->0 + distance.cost(p, q);
    via > u64::MAX || (gs[at(map_size, q)] is Some && gs[at(map_size, q)]->0 <= via)
}

spec fn relaxed<D: Distance2D, W: PositionConstraint, G: PositionConstraint>(
    goal: (i32, i32),
    map_size: (i32, i32),
    distance: D,
    w: Seq<W>,
    g: Seq<G>,
    gs: Seq<Option<u64>>,
    p: (i32, i32),
) -> bool {
    forall|q: (i32, i32)| #[trigger] is_step(p, q, goal, map_size, w, g) ==> relax_edge(distance, gs, map_size, p, q)
}

/// What the predecessor links keep true of the cell `p`: each link is a
/// step, costs add up at least along it, and the pair (best cost, time of
/// the last improvement) strictly decreases along it.
pub open spec fn chain_cell<D: Distance2D, W: PositionConstraint, G: PositionConstraint>(
    start: (i32, i32),
    goal: (i32, i32),
    map_size: (i32, i32),
    distance: D,
    w: Seq<W>,
    g: Seq<G>,
    gs: Seq<Option<u64>>,
    pv: Seq<Option<(i32, i32)>>,
    ord: Seq<int>,
    clock: int,
    p: (i32, i32),
) -> bool {
    let i = at(map_size, p);
    &&& (gs[i] is Some && p != start ==> pv[i] is Some)
    &&& (pv[i] is Some ==> {
        let q = pv[i]->0;
        let j = at(map_size, q);
        &&& valid(map_size, q)
        &&& is_step(q, p, goal, map_size, w, g)
        &&& gs[i] is Some
        &&& gs[j] is Some
        &&& gs[j]->0 + distance.cost(q, p) <= gs[i]->0
        &&& (gs[j]->0 < gs[i]->0 || ord[j] < ord[i])
    })
    &&& 0 <= ord[i] < clock
}

pub open spec fn chain_inv<D: Distance2D, W: PositionConstraint, G: PositionConstraint>(
    start: (i32, i32),
    goal: (i32, i32),
    map_size: (i32, i32),
    distance: D,
    w: Seq<W>,
    g: Seq<G>,
    gs: Seq<Option<u64>>,
    pv: Seq<Option<(i32, i32)>>,
    ord: Seq<int>,
    clock: int,
) -> bool {
    let n = map_size.1 * map_size.0;
    &&& gs.len() == n
    &&& pv.len() == n
    &&& ord.len() == n
    &&& valid(map_size, start)
    &&& gs[at(map_size, start)] == Some(0u64)
    &&& pv[at(map_size, start)] is None
    &&& forall|p: (i32, i32)|
        valid(map_size, p) ==> #[trigger] chain_cell(
            start,
            goal,
            map_size,
            distance,
            w,
            g,
            gs,
            pv,
            ord,
            clock,
            p,
        )
}

/// What the search keeps true of each cell `p` of the map.
spec fn cell_inv<D: Distance2D, W: PositionConstraint, G: PositionConstraint>(
    start: (i32, i32),
    goal: (i32, i32),
    map_size: (i32, i32),
    distance: D,
    w: Seq<W>,
    g: Seq<G>,
    gs: Seq<Option<u64>>,
    pv: Seq<Option<(i32, i32)>>,
    of: Seq<bool>,
    ol: Seq<(i32, i32)>,
    ord: Seq<int>,
    clock: int,
    expanding: Option<(i32, i32)>,
    p: (i32, i32),
) -> bool {
    let i = at(map_size, p);
    &&& chain_cell(start, goal, map_size, distance, w, g, gs, pv, ord, clock, p)
    &&& (of[i] ==> ol.contains(p) && gs[i] is Some)
    &&& (gs[i] is Some && !of[i] && expanding != Some(p) ==> relaxed(goal, map_size, distance, w, g, gs, p))
    &&& (p == goal && gs[i] is Some ==> of[i])
}

spec fn search_inv<D: Distance2D, W: PositionConstraint, G: PositionConstraint>(
    start: (i32, i32),
    goal: (i32, i32),
    map_size: (i32, i32),
    distance: D,
    w: Seq<W>,
    g: Seq<G>,
    gs: Seq<Option<u64>>,
    pv: Seq<Option<(i32, i32)>>,
    of: Seq<bool>,
    ol: Seq<(i32, i32)>,
    ord: Seq<int>,
    clock: int,
    expanding: Option<(i32, i32)>,
) -> bool {
    let n = map_size.1 * map_size.0;
    &&& gs.len() == n
    &&& pv.len() == n
    &&& of.len() == n
    &&& ord.len() == n
    &&& valid(map_size, start)
    &&& gs[at(map_size, start)] == Some(0u64)
    &&& pv[at(map_size, start)] is None
    &&& forall|k: int| 0 <= k < ol.len() ==> valid(map_size, #[trigger] ol[k]) && of[at(map_size, ol[k])]
    &&& forall|k1: int, k2: int| 0 <= k1 < ol.len() && 0 <= k2 < ol.len() && k1 != k2 ==> ol[k1] != ol[k2]
    &&& forall|p: (i32, i32)|
        valid(map_size, p) ==> #[trigger] cell_inv(
            start,
            goal,
            map_size,
            distance,
            w,
            g,
            gs,
            pv,
            of,
            ol,
            ord,
            clock,
            expanding,
            p,
        )
}

/// Weight of one cell's best cost for the termination measure: an unknown
/// cost weighs more than any known one.
spec fn weight(x: Option<u64>) -> nat {
    match x {
        Some(v) => v as nat,
        None => 0x1_0000_0000_0000_0000,
    }
}

spec fn potential(s: Seq<Option<u64>>) -> nat
    decreases s.len(),
{
    if s.len() == 0 {
        0
    } else {
        potential(s.drop_last()) + weight(s.last())
    }
}

proof fn lemma_potential_update(s: Seq<Option<u64>>, i: int, x: Option<u64>)
    requires
        0 <= i < s.len(),
    ensures
        potential(s.update(i, x)) == potential(s) - weight(s[i]) + weight(x),
    decreases s.len(),
{
    if i == s.len() - 1 {
        assert(s.update(i, x).drop_last() =~= s.drop_last());
    } else {
        assert(s.update(i, x).drop_last() =~= s.drop_last().update(i, x));
        lemma_potential_update(s.drop_last(), i, x);
    }
}

proof fn lemma_chain<D: Distance2D, W: PositionConstraint, G: PositionConstraint>(
    start: (i32, i32),
    goal: (i32, i32),
    map_size: (i32, i32),
    distance: D,
    w: Seq<W>,
    g: Seq<G>,
    gs: Seq<Option<u64>>,
    pv: Seq<Option<(i32, i32)>>,
    of: Seq<bool>,
    ol: Seq<(i32, i32)>,
    ord: Seq<int>,
    clock: int,
    expanding: Option<(i32, i32)>,
)
    requires
        search_inv(start, goal, map_size, distance, w, g, gs, pv, of, ol, ord, clock, expanding),
    ensures
        chain_inv(start, goal, map_size, distance, w, g, gs, pv, ord, clock),
{
    assert forall|p: (i32, i32)| valid(map_size, p) implies #[trigger] chain_cell(
        start,
        goal,
        map_size,
        distance,
        w,
        g,
        gs,
        pv,
        ord,
        clock,
        p,
    ) by {
        assert(cell_inv(start, goal, map_size, distance, w, g, gs, pv, of, ol, ord, clock, expanding, p));
    }
}

/// `chain` follows the predecessor links of `best_previous_node` from
/// `current`: every cell of it lies on the map, each links to the next, and
/// the last one has no link.
pub open spec fn link_chain(
    best_previous_node: Seq<Option<(i32, i32)>>,
    map_size: (i32, i32),
    current: (i32, i32),
    chain: Seq<(i32, i32)>,
) -> bool {
    &&& chain.len() >= 1
    &&& chain[0] == current
    &&& forall|k: int| 0 <= k < chain.len() ==> valid(map_size, #[trigger] chain[k])
    &&& forall|k: int|
        0 <= k < chain.len() - 1 ==> best_previous_node[at(map_size, #[trigger] chain[k])] == Some(chain[k + 1])
    &&& best_previous_node[at(map_size, chain.last())] is None
}

/// The cells from the first cell without a predecessor up to `current`,
/// following the predecessor links of `best_previous_node` backwards, in
/// walking order, each paired with its best known cost from
/// `distance_from_start`.
pub fn reconstruct_path(
    current: (i32, i32),
    map_size: (i32, i32),
    best_previous_node: &Grid<Option<(i32, i32)>>,
    distance_from_start: &Grid<Option<u64>>,
) -> (r: Vec<(i32, i32, u64)>)
    requires
        best_previous_node.wf(),
        best_previous_node.width == map_size.1,
        best_previous_node.height == map_size.0,
        distance_from_start.wf(),
        distance_from_start.width == map_size.1,
        distance_from_start.height == map_size.0,
        exists|chain: Seq<(i32, i32)>|
            #[trigger] link_chain(best_previous_node.cells@, map_size, current, chain) && forall|k: int|
                0 <= k < chain.len() ==> distance_from_start.cells@[at(map_size, #[trigger] chain[k])] is Some,
    ensures
        r@.len() >= 1,
        path_cells(r@).last() == current,
        forall|k: int| 0 <= k < r@.len() ==> valid(map_size, #[trigger] path_cells(r@)[k]),
        forall|k: int|
            0 <= k < r@.len() ==> distance_from_start.cells@[at(map_size, #[trigger] path_cells(r@)[k])] == Some(
                r@[k].2,
            ),
        best_previous_node.cells@[at(map_size, path_cells(r@)[0])] is None,
        forall|k: int|
            0 <= k < r@.len() - 1 ==> best_previous_node.cells@[at(map_size, #[trigger] path_cells(r@)[k + 1])]
                == Some(path_cells(r@)[k]),
{
    let ghost pv = best_previous_node.cells@;
    let ghost gs = distance_from_start.cells@;
    let ghost chain = choose|chain: Seq<(i32, i32)>|
        #[trigger] link_chain(pv, map_size, current, chain) && forall|k: int|
            0 <= k < chain.len() ==> gs[at(map_size, #[trigger] chain[k])] is Some;
    let mut back: Vec<(i32, i32)> = Vec::new();
    back.push(current);
    let mut cur = current;
    while best_previous_node.get_signed(cur).is_some()
        invariant
            best_previous_node.wf(),
            best_previous_node.width == map_size.1,
            best_previous_node.height == map_size.0,
            pv == best_previous_node.cells@,
            link_chain(pv, map_size, current, chain),
            1 <= back@.len() <= chain.len(),
            back@ == chain.take(back@.len() as int),
            cur == chain[back@.len() - 1],
        decreases chain.len() - back@.len(),
    {
        proof {
            assert(valid(map_size, chain[back@.len() - 1]));
            if back@.len() == chain.len() {
                assert(chain.last() == cur);
            }
        }
        let q = best_previous_node.get_signed(cur).unwrap();
        proof {
            assert(pv[at(map_size, chain[back@.len() - 1])] == Some(chain[back@.len() as int]));
        }
        back.push(q);
        cur = q;
        proof {
            assert(back@ =~= chain.take(back@.len() as int));
        }
    }
    proof {
        assert(valid(map_size, chain[back@.len() - 1]));
        let n = back@.len() as int;
        if n < chain.len() {
            assert(pv[at(map_size, chain[n - 1])] == Some(chain[n]));
        }
        assert(n == chain.len());
    }
    let mut r: Vec<(i32, i32, u64)> = Vec::new();
    let mut k: usize = back.len();
    while k > 0
        invariant
            k <= back@.len(),
            back@.len() >= 1,
            back@.len() == chain.len(),
            back@ == chain.take(back@.len() as int),
            link_chain(pv, map_size, current, chain),
            forall|i: int| 0 <= i < chain.len() ==> gs[at(map_size, #[trigger] chain[i])] is Some,
            distance_from_start.wf(),
            distance_from_start.width == map_size.1,
            distance_from_start.height == map_size.0,
            gs == distance_from_start.cells@,
            r@.len() == back@.len() - k,
            forall|i: int|
                0 <= i < r@.len() ==> (#[trigger] r@[i]).0 == back@[back@.len() - 1 - i].0 && r@[i].1
                    == back@[back@.len() - 1 - i].1 && gs[at(map_size, back@[back@.len() - 1 - i])] == Some(r@[i].2),
        decreases k,
    {
        k = k - 1;
        let c = back[k];
        proof {
            assert(back@[k as int] == chain[k as int]);
            assert(valid(map_size, chain[k as int]));
            assert(gs[at(map_size, chain[k as int])] is Some);
            lemma_cell_index_bounds(map_size.1 as int, map_size.0 as int, c.0 as int, c.1 as int);
        }
        let cost = distance_from_start.get_signed(c).unwrap();
        r.push((c.0, c.1, cost));
    }
    proof {
        let n = back@.len() as int;
        let cells = path_cells(r@);
        assert forall|i: int| 0 <= i < r@.len() implies cells[i] == chain[n - 1 - i] by {
            assert(r@[i].0 == back@[n - 1 - i].0 && r@[i].1 == back@[n - 1 - i].1);
            assert(back@[n - 1 - i] == chain[n - 1 - i]);
        }
        assert forall|i: int| 0 <= i < r@.len() implies valid(map_size, #[trigger] cells[i]) by {
            assert(cells[i] == chain[n - 1 - i]);
        }
        assert forall|i: int| 0 <= i < r@.len() implies gs[at(map_size, #[trigger] cells[i])] == Some(r@[i].2) by {
            assert(cells[i] == chain[n - 1 - i]);
            assert(back@[n - 1 - i] == chain[n - 1 - i]);
        }
        assert forall|i: int| 0 <= i < r@.len() - 1 implies pv[at(map_size, #[trigger] cells[i + 1])] == Some(cells[i]) by {
            assert(cells[i + 1] == chain[n - 2 - i]);
            assert(cells[i] == chain[n - 1 - i]);
        }
        assert(cells[0] == chain[n - 1]);
        assert(cells[r@.len() - 1] == chain[0]);
    }
    r
}

/// The cells of a cost-annotated path.
fn cells_of(path: &Vec<(i32, i32, u64)>) -> (r: Vec<(i32, i32)>)
    ensures
        r@ == path_cells(path@),
{
    let mut r: Vec<(i32, i32)> = Vec::new();
    let mut k: usize = 0;
    while k < path.len()
        invariant
            k <= path@.len(),
            r@ == path_cells(path@.take(k as int)),
        decreases path@.len() - k,
    {
        let t = path[k];
        r.push((t.0, t.1));
        k = k + 1;
        proof {
            assert(path_cells(path@.take(k as int)) =~= path_cells(path@.take(k - 1)).push((t.0, t.1)));
        }
    }
    assert(path@.take(path@.len() as int) =~= path@);
    r
}

/// Rank of a cell in the predecessor links: its best known cost, then the
/// time it was last improved; it strictly grows along every link.
spec fn link_rank(map_size: (i32, i32), gs: Seq<Option<u64>>, ord: Seq<int>, clock: int, p: (i32, i32)) -> int {
    gs[at(map_size, p)]->0 * (clock + 1) + ord[at(map_size, p)]
}

/// The predecessor links of a search, followed from any cell with a known
/// cost, form a finite chain of such cells with strictly falling rank.
proof fn lemma_link_chain<D: Distance2D, W: PositionConstraint, G: PositionConstraint>(
    start: (i32, i32),
    goal: (i32, i32),
    map_size: (i32, i32),
    distance: D,
    w: Seq<W>,
    g: Seq<G>,
    gs: Seq<Option<u64>>,
    pv: Seq<Option<(i32, i32)>>,
    ord: Seq<int>,
    clock: int,
    p: (i32, i32),
) -> (chain: Seq<(i32, i32)>)
    requires
        chain_inv(start, goal, map_size, distance, w, g, gs, pv, ord, clock),
        valid(map_size, p),
        gs[at(map_size, p)] is Some,
    ensures
        link_chain(pv, map_size, p, chain),
    decreases link_rank(map_size, gs, ord, clock, p),
{
    assert(chain_cell(start, goal, map_size, distance, w, g, gs, pv, ord, clock, p));
    if pv[at(map_size, p)] is None {
        seq![p]
    } else {
        let q = pv[at(map_size, p)]->0;
        assert(chain_cell(start, goal, map_size, distance, w, g, gs, pv, ord, clock, q));
        lemma_link_rank(start, goal, map_size, distance, w, g, gs, pv, ord, clock, p);
        let rest = lemma_link_chain(start, goal, map_size, distance, w, g, gs, pv, ord, clock, q);
        let chain = seq![p] + rest;
        assert forall|k: int| 0 <= k < chain.len() - 1 implies pv[at(map_size, #[trigger] chain[k])] == Some(chain[k + 1]) by {
            if k > 0 {
                assert(chain[k] == rest[k - 1]);
                assert(chain[k + 1] == rest[k]);
            }
        }
        assert forall|k: int| 0 <= k < chain.len() implies valid(map_size, #[trigger] chain[k]) by {
            if k > 0 {
                assert(chain[k] == rest[k - 1]);
            }
        }
        assert(chain.last() == rest.last());
        chain
    }
}

/// A link leads to a cell of strictly lower rank.
proof fn lemma_link_rank<D: Distance2D, W: PositionConstraint, G: PositionConstraint>(
    start: (i32, i32),
    goal: (i32, i32),
    map_size: (i32, i32),
    distance: D,
    w: Seq<W>,
    g: Seq<G>,
    gs: Seq<Option<u64>>,
    pv: Seq<Option<(i32, i32)>>,
    ord: Seq<int>,
    clock: int,
    p: (i32, i32),
)
    requires
        chain_inv(start, goal, map_size, distance, w, g, gs, pv, ord, clock),
        valid(map_size, p),
        pv[at(map_size, p)] is Some,
    ensures
        0 <= link_rank(map_size, gs, ord, clock, pv[at(map_size, p)]->0) < link_rank(map_size, gs, ord, clock, p),
{
    let q = pv[at(map_size, p)]->0;
    assert(chain_cell(start, goal, map_size, distance, w, g, gs, pv, ord, clock, p));
    assert(chain_cell(start, goal, map_size, distance, w, g, gs, pv, ord, clock, q));
    let gp = gs[at(map_size, p)]->0 as int;
    let gq = gs[at(map_size, q)]->0 as int;
    let op = ord[at(map_size, p)];
    let oq = ord[at(map_size, q)];
    assert(0 <= gq * (clock + 1) + oq < gp * (clock + 1) + op) by (nonlinear_arith)
        requires
            0 <= gq <= gp,
            gq < gp || oq < op,
            0 <= oq < clock,
            0 <= op < clock,
    ;
}

/// Cells whose rank strictly grows along a sequence are pairwise distinct.
proof fn lemma_rank_distinct(
    map_size: (i32, i32),
    gs: Seq<Option<u64>>,
    ord: Seq<int>,
    clock: int,
    cells: Seq<(i32, i32)>,
    k1: int,
    k2: int,
)
    requires
        forall|k: int|
            0 <= k < cells.len() - 1 ==> link_rank(map_size, gs, ord, clock, #[trigger] cells[k]) < link_rank(
                map_size,
                gs,
                ord,
                clock,
                cells[k + 1],
            ),
        0 <= k1 < k2 < cells.len(),
    ensures
        link_rank(map_size, gs, ord, clock, cells[k1]) < link_rank(map_size, gs, ord, clock, cells[k2]),
        cells[k1] != cells[k2],
    decreases k2 - k1,
{
    if k2 > k1 + 1 {
        lemma_rank_distinct(map_size, gs, ord, clock, cells, k1, k2 - 1);
        assert(link_rank(map_size, gs, ord, clock, cells[k2 - 1]) < link_rank(map_size, gs, ord, clock, cells[k2]));
    }
}

/// A walk along the predecessor links of a search, ending at the goal,
/// starts at `start`, moves by steps along which the best known costs add
/// up at least, and never visits a cell twice.
proof fn lemma_path_from_links<D: Distance2D, W: PositionConstraint, G: PositionConstraint>(
    start: (i32, i32),
    goal: (i32, i32),
    map_size: (i32, i32),
    distance: D,
    w: Seq<W>,
    g: Seq<G>,
    gs: Seq<Option<u64>>,
    pv: Seq<Option<(i32, i32)>>,
    ord: Seq<int>,
    clock: int,
    cells: Seq<(i32, i32)>,
)
    requires
        chain_inv(start, goal, map_size, distance, w, g, gs, pv, ord, clock),
        cells.len() >= 1,
        cells.last() == goal,
        gs[at(map_size, goal)] is Some,
        forall|k: int| 0 <= k < cells.len() ==> valid(map_size, #[trigger] cells[k]),
        pv[at(map_size, cells[0])] is None,
        forall|k: int| 0 <= k < cells.len() - 1 ==> pv[at(map_size, #[trigger] cells[k + 1])] == Some(cells[k]),
    ensures
        cells[0] == start,
        gs[at(map_size, cells[0])] == Some(0u64),
        forall|k: int| 0 <= k < cells.len() ==> gs[at(map_size, #[trigger] cells[k])] is Some,
        forall|k: int|
            0 <= k < cells.len() - 1 ==> #[trigger] is_step(cells[k], cells[k + 1], goal, map_size, w, g)
                && gs[at(map_size, cells[k])]->0 + distance.cost(cells[k], cells[k + 1]) <= gs[at(map_size, cells[k + 1])]->0,
        forall|k1: int, k2: int| 0 <= k1 < k2 < cells.len() ==> cells[k1] != cells[k2],
{
    assert forall|k: int| 0 <= k < cells.len() - 1 implies #[trigger] is_step(cells[k], cells[k + 1], goal, map_size, w, g)
        && gs[at(map_size, cells[k])]->0 + distance.cost(cells[k], cells[k + 1]) <= gs[at(map_size, cells[k + 1])]->0 by {
        assert(pv[at(map_size, cells[k + 1])] == Some(cells[k]));
        assert(chain_cell(start, goal, map_size, distance, w, g, gs, pv, ord, clock, cells[k + 1]));
    }
    assert forall|k: int| 0 <= k < cells.len() - 1 implies link_rank(map_size, gs, ord, clock, #[trigger] cells[k])
        < link_rank(map_size, gs, ord, clock, cells[k + 1]) by {
        assert(pv[at(map_size, cells[k + 1])] == Some(cells[k]));
        lemma_link_rank(start, goal, map_size, distance, w, g, gs, pv, ord, clock, cells[k + 1]);
    }
    assert forall|k: int| 0 <= k < cells.len() implies gs[at(map_size, #[trigger] cells[k])] is Some by {
        if k < cells.len() - 1 {
            assert(pv[at(map_size, cells[k + 1])] == Some(cells[k]));
            assert(chain_cell(start, goal, map_size, distance, w, g, gs, pv, ord, clock, cells[k + 1]));
        }
    }
    assert(chain_cell(start, goal, map_size, distance, w, g, gs, pv, ord, clock, cells[0]));
    assert forall|k1: int, k2: int| 0 <= k1 < k2 < cells.len() implies cells[k1] != cells[k2] by {
        lemma_rank_distinct(map_size, gs, ord, clock, cells, k1, k2);
    }
}

/// Pairs each cell of `cells` with the cost of the path up to it.
fn path_with_costs<D: Distance2D>(
    distance: &D,
    cells: &Vec<(i32, i32)>,
    map_size: (i32, i32),
    Ghost(gs): Ghost<Seq<Option<u64>>>,
) -> (r: Vec<(i32, i32, u64)>)
    requires
        distance.well_formed(),
        cells@.len() >= 1,
        gs[at(map_size, cells@[0])] == Some(0u64),
        forall|k: int| 0 <= k < cells@.len() ==> gs[at(map_size, #[trigger] cells@[k])] is Some,
        forall|k: int|
            0 <= k < cells@.len() - 1 ==> gs[at(map_size, #[trigger] cells@[k])]->0 + distance.cost(cells@[k], cells@[k + 1])
                <= gs[at(map_size, cells@[k + 1])]->0,
    ensures
        path_cells(r@) == cells@,
        forall|k: int| 0 <= k < r@.len() ==> (#[trigger] r@[k]).2 == path_cost(*distance, cells@.take(k + 1)),
        path_cost(*distance, cells@) <= gs[at(map_size, cells@.last())]->0,
{
    let mut r: Vec<(i32, i32, u64)> = Vec::new();
    let first = cells[0];
    r.push((first.0, first.1, 0));
    let mut acc: u64 = 0;
    let mut k: usize = 1;
    proof {
        assert(cells@.take(1).len() == 1);
    }
    while k < cells.len()
        invariant
            distance.well_formed(),
            1 <= k <= cells@.len(),
            r@.len() == k,
            acc == path_cost(*distance, cells@.take(k as int)),
            acc <= gs[at(map_size, cells@[k - 1])]->0,
            gs[at(map_size, cells@[0])] == Some(0u64),
            forall|i: int| 0 <= i < cells@.len() ==> gs[at(map_size, #[trigger] cells@[i])] is Some,
            forall|i: int|
                0 <= i < cells@.len() - 1 ==> gs[at(map_size, #[trigger] cells@[i])]->0 + distance.cost(cells@[i], cells@[i + 1])
                    <= gs[at(map_size, cells@[i + 1])]->0,
            forall|i: int| 0 <= i < k ==> (#[trigger] r@[i]).0 == cells@[i].0 && r@[i].1 == cells@[i].1,
            forall|i: int| 0 <= i < k ==> (#[trigger] r@[i]).2 == path_cost(*distance, cells@.take(i + 1)),
        decreases cells@.len() - k,
    {
        let a = cells[k - 1];
        let b = cells[k];
        let d = distance.evaluate(a, b);
        proof {
            lemma_path_cost_prefix(*distance, cells@, k as int - 1);
            assert(gs[at(map_size, cells@[k as int - 1])]->0 + distance.cost(cells@[k as int - 1], cells@[k as int])
                <= gs[at(map_size, cells@[k as int])]->0);
        }
        acc = acc + d;
        r.push((b.0, b.1, acc));
        k = k + 1;
    }
    assert(path_cells(r@) =~= cells@);
    assert(cells@.take(cells@.len() as int) =~= cells@);
    r
}

/// Walking forward along a path, each cell's best known cost is at most the
/// cost of the path up to it, so a closed search leaves no affordable path.
proof fn lemma_path_reaches<D: Distance2D, W: PositionConstraint, G: PositionConstraint>(
    start: (i32, i32),
    goal: (i32, i32),
    map_size: (i32, i32),
    distance: D,
    w: Seq<W>,
    g: Seq<G>,
    gs: Seq<Option<u64>>,
    pv: Seq<Option<(i32, i32)>>,
    of: Seq<bool>,
    ol: Seq<(i32, i32)>,
    ord: Seq<int>,
    clock: int,
    cells: Seq<(i32, i32)>,
    k: int,
)
    requires
        search_inv(start, goal, map_size, distance, w, g, gs, pv, of, ol, ord, clock, None),
        ol.len() == 0,
        is_path(cells, start, goal, map_size, w, g),
        path_cost(distance, cells) <= u64::MAX,
        0 <= k < cells.len(),
    ensures
        valid(map_size, cells[k]),
        gs[at(map_size, cells[k])] is Some,
        gs[at(map_size, cells[k])]->0 <= path_cost(distance, cells.take(k + 1)),
    decreases k,
{
    if k == 0 {
        assert(cells.take(1).len() == 1);
    } else {
        lemma_path_reaches(start, goal, map_size, distance, w, g, gs, pv, of, ol, ord, clock, cells, k - 1);
        let p = cells[k - 1];
        let q = cells[k];
        assert(is_step(cells[k - 1], cells[k], goal, map_size, w, g));
        assert(cell_inv(start, goal, map_size, distance, w, g, gs, pv, of, ol, ord, clock, None, p));
        assert(!ol.contains(p));
        lemma_path_cost_prefix(distance, cells, k - 1);
        lemma_path_cost_prefix(distance, cells, k);
        assert(relax_edge(distance, gs, map_size, p, q));
    }
}

proof fn lemma_no_path<D: Distance2D, W: PositionConstraint, G: PositionConstraint>(
    start: (i32, i32),
    goal: (i32, i32),
    map_size: (i32, i32),
    distance: D,
    w: Seq<W>,
    g: Seq<G>,
    gs: Seq<Option<u64>>,
    pv: Seq<Option<(i32, i32)>>,
    of: Seq<bool>,
    ol: Seq<(i32, i32)>,
    ord: Seq<int>,
    clock: int,
)
    requires
        search_inv(start, goal, map_size, distance, w, g, gs, pv, of, ol, ord, clock, None),
        ol.len() == 0,
    ensures
        forall|cells: Seq<(i32, i32)>|
            is_path(cells, start, goal, map_size, w, g) ==> #[trigger] path_cost(distance, cells) > u64::MAX,
{
    assert forall|cells: Seq<(i32, i32)>|
        is_path(cells, start, goal, map_size, w, g) implies #[trigger] path_cost(distance, cells) > u64::MAX by {
        if path_cost(distance, cells) <= u64::MAX {
            let k = cells.len() - 1;
            lemma_path_reaches(start, goal, map_size, distance, w, g, gs, pv, of, ol, ord, clock, cells, k);
            assert(cell_inv(start, goal, map_size, distance, w, g, gs, pv, of, ol, ord, clock, None, goal));
        }
    }
}

/// Taking `ol[best]` off the open list to expand it.
proof fn lemma_pop<D: Distance2D, W: PositionConstraint, G: PositionConstraint>(
    start: (i32, i32),
    goal: (i32, i32),
    map_size: (i32, i32),
    distance: D,
    w: Seq<W>,
    g: Seq<G>,
    gs: Seq<Option<u64>>,
    pv: Seq<Option<(i32, i32)>>,
    of: Seq<bool>,
    ol: Seq<(i32, i32)>,
    ord: Seq<int>,
    clock: int,
    best: int,
)
    requires
        search_inv(start, goal, map_size, distance, w, g, gs, pv, of, ol, ord, clock, None),
        0 <= best < ol.len(),
        ol[best] != goal,
    ensures
        ({
            let pos = ol[best];
            let ol2 = ol.update(best, ol.last()).drop_last();
            let of2 = of.update(at(map_size, pos), false);
            &&& search_inv(start, goal, map_size, distance, w, g, gs, pv, of2, ol2, ord, clock, Some(pos))
            &&& valid(map_size, pos)
            &&& gs[at(map_size, pos)] is Some
        }),
{
    let pos = ol[best];
    let a = at(map_size, pos);
    let n = ol.len();
    let ol2 = ol.update(best, ol.last()).drop_last();
    let of2 = of.update(a, false);
    assert(valid(map_size, pos) && of[a]);
    assert(cell_inv(start, goal, map_size, distance, w, g, gs, pv, of, ol, ord, clock, None, pos));
    lemma_at(map_size, pos, pos);
    assert forall|k: int| 0 <= k < ol2.len() implies ol2[k] == ol[if k == best { n - 1 } else { k }] && (if k == best { n - 1 } else { k }) != best by {}
    assert forall|k: int| 0 <= k < ol2.len() implies valid(map_size, #[trigger] ol2[k]) && of2[at(map_size, ol2[k])] by {
        let k2 = if k == best { n - 1 } else { k };
        assert(ol[k2] != pos);
        assert(valid(map_size, ol[k2]) && of[at(map_size, ol[k2])]);
        lemma_at(map_size, ol[k2], pos);
    }
    assert forall|k1: int, k2: int| 0 <= k1 < ol2.len() && 0 <= k2 < ol2.len() && k1 != k2 implies ol2[k1] != ol2[k2] by {
        let j1 = if k1 == best { n - 1 } else { k1 };
        let j2 = if k2 == best { n - 1 } else { k2 };
        assert(ol2[k1] == ol[j1]);
        assert(ol2[k2] == ol[j2]);
    }
    assert forall|p: (i32, i32)| valid(map_size, p) implies #[trigger] cell_inv(start, goal, map_size, distance, w, g, gs, pv, of2, ol2, ord, clock, Some(pos), p) by {
        assert(cell_inv(start, goal, map_size, distance, w, g, gs, pv, of, ol, ord, clock, None, p));
        let i = at(map_size, p);
        lemma_at(map_size, p, pos);
        if of2[i] {
            assert(p != pos);
            let k = choose|k: int| 0 <= k < ol.len() && ol[k] == p;
            assert(k != best);
            if k == n - 1 {
                assert(ol2[best] == p);
            } else {
                assert(ol2[k] == p);
            }
            assert(ol2.contains(p));
        }
    }
}

/// Recording `t` as the better cost of `nb`, reached from `pos`.
proof fn lemma_improve<D: Distance2D, W: PositionConstraint, G: PositionConstraint>(
    start: (i32, i32),
    goal: (i32, i32),
    map_size: (i32, i32),
    distance: D,
    w: Seq<W>,
    g: Seq<G>,
    gs: Seq<Option<u64>>,
    pv: Seq<Option<(i32, i32)>>,
    of: Seq<bool>,
    ol: Seq<(i32, i32)>,
    ord: Seq<int>,
    clock: int,
    pos: (i32, i32),
    nb: (i32, i32),
    t: u64,
)
    requires
        search_inv(start, goal, map_size, distance, w, g, gs, pv, of, ol, ord, clock, Some(pos)),
        valid(map_size, pos),
        !of[at(map_size, pos)],
        gs[at(map_size, pos)] is Some,
        is_step(pos, nb, goal, map_size, w, g),
        t == gs[at(map_size, pos)]->0 + distance.cost(pos, nb),
        gs[at(map_size, nb)] is None || t < gs[at(map_size, nb)]->0,
    ensures
        ({
            let m = at(map_size, nb);
            let gs2 = gs.update(m, Some(t));
            let pv2 = pv.update(m, Some(pos));
            let of2 = of.update(m, true);
            let ol2 = if of[m] { ol } else { ol.push(nb) };
            let ord2 = ord.update(m, clock);
            &&& search_inv(start, goal, map_size, distance, w, g, gs2, pv2, of2, ol2, ord2, clock + 1, Some(pos))
            &&& valid(map_size, nb)
            &&& nb != pos
            &&& gs2[at(map_size, pos)] == gs[at(map_size, pos)]
            &&& !of2[at(map_size, pos)]
            &&& relax_edge(distance, gs2, map_size, pos, nb)
            &&& forall|q: (i32, i32)| valid(map_size, q) && relax_edge(distance, gs, map_size, pos, q) ==> #[trigger] relax_edge(distance, gs2, map_size, pos, q)
            &&& 2 * potential(gs2) + ol2.len() < 2 * potential(gs) + ol.len()
        }),
{
    let m = at(map_size, nb);
    let a = at(map_size, pos);
    let gs2 = gs.update(m, Some(t));
    let pv2 = pv.update(m, Some(pos));
    let of2 = of.update(m, true);
    let ol2 = if of[m] { ol } else { ol.push(nb) };
    let ord2 = ord.update(m, clock);
    assert(valid(map_size, nb));
    lemma_at(map_size, nb, pos);
    lemma_at(map_size, nb, start);
    lemma_at(map_size, start, nb);
    lemma_at(map_size, pos, pos);
    assert(cell_inv(start, goal, map_size, distance, w, g, gs, pv, of, ol, ord, clock, Some(pos), pos));
    assert(cell_inv(start, goal, map_size, distance, w, g, gs, pv, of, ol, ord, clock, Some(pos), nb));
    assert(nb != start);
    assert forall|k: int| 0 <= k < ol2.len() implies valid(map_size, #[trigger] ol2[k]) && of2[at(map_size, ol2[k])] by {
        if k < ol.len() {
            assert(valid(map_size, ol[k]) && of[at(map_size, ol[k])]);
            assert(ol2[k] == ol[k]);
            lemma_at(map_size, ol[k], nb);
        } else {
            assert(ol2[k] == nb);
        }
    }
    if !of[m] {
        assert forall|k: int| 0 <= k < ol.len() implies ol[k] != nb by {
            assert(valid(map_size, ol[k]) && of[at(map_size, ol[k])]);
        }
    }
    assert forall|k1: int, k2: int| 0 <= k1 < ol2.len() && 0 <= k2 < ol2.len() && k1 != k2 implies ol2[k1] != ol2[k2] by {
        if k1 < ol.len() && k2 < ol.len() {
            assert(ol2[k1] == ol[k1] && ol2[k2] == ol[k2]);
        } else if k1 < ol.len() {
            assert(ol2[k1] == ol[k1]);
        } else if k2 < ol.len() {
            assert(ol2[k2] == ol[k2]);
        }
    }
    assert forall|p: (i32, i32)| valid(map_size, p) implies #[trigger] cell_inv(start, goal, map_size, distance, w, g, gs2, pv2, of2, ol2, ord2, clock + 1, Some(pos), p) by {
        assert(cell_inv(start, goal, map_size, distance, w, g, gs, pv, of, ol, ord, clock, Some(pos), p));
        let i = at(map_size, p);
        lemma_at(map_size, p, nb);
        if p == nb {
            assert(ol2.contains(nb)) by {
                if of[m] {
                    assert(ol.contains(nb));
                } else {
                    assert(ol2[ol.len() as int] == nb);
                }
            }
        } else {
            if pv[i] is Some {
                let q = pv[i]->0;
                lemma_at(map_size, q, nb);
            }
            if of2[i] {
                let k = choose|k: int| 0 <= k < ol.len() && ol[k] == p;
                assert(ol2[k] == p);
            }
            if gs2[i] is Some && !of2[i] && Some(pos) != Some(p) {
                assert forall|q: (i32, i32)| #[trigger] is_step(p, q, goal, map_size, w, g) implies relax_edge(distance, gs2, map_size, p, q) by {
                    assert(relax_edge(distance, gs, map_size, p, q));
                    lemma_at(map_size, q, nb);
                }
            }
        }
    }
    assert forall|q: (i32, i32)| valid(map_size, q) && relax_edge(distance, gs, map_size, pos, q) implies #[trigger] relax_edge(distance, gs2, map_size, pos, q) by {
        lemma_at(map_size, q, nb);
    }
    lemma_potential_update(gs, m, Some(t));
    assert(search_inv(start, goal, map_size, distance, w, g, gs2, pv2, of2, ol2, ord2, clock + 1, Some(pos)));
    assert(gs2[at(map_size, pos)] == gs[at(map_size, pos)]);
    assert(relax_edge(distance, gs2, map_size, pos, nb));
    assert(2 * potential(gs2) + ol2.len() < 2 * potential(gs) + ol.len());
}

/// Once every step out of the expanded cell is relaxed, it is closed.
proof fn lemma_close<D: Distance2D, W: PositionConstraint, G: PositionConstraint>(
    start: (i32, i32),
    goal: (i32, i32),
    map_size: (i32, i32),
    distance: D,
    w: Seq<W>,
    g: Seq<G>,
    gs: Seq<Option<u64>>,
    pv: Seq<Option<(i32, i32)>>,
    of: Seq<bool>,
    ol: Seq<(i32, i32)>,
    ord: Seq<int>,
    clock: int,
    pos: (i32, i32),
)
    requires
        search_inv(start, goal, map_size, distance, w, g, gs, pv, of, ol, ord, clock, Some(pos)),
        relaxed(goal, map_size, distance, w, g, gs, pos),
    ensures
        search_inv(start, goal, map_size, distance, w, g, gs, pv, of, ol, ord, clock, None),
{
    assert forall|p: (i32, i32)| valid(map_size, p) implies #[trigger] cell_inv(start, goal, map_size, distance, w, g, gs, pv, of, ol, ord, clock, None, p) by {
        assert(cell_inv(start, goal, map_size, distance, w, g, gs, pv, of, ol, ord, clock, Some(pos), p));
    }
}

/// The heuristic never overestimates: from every cell, its estimate of the
/// cost to `goal` is at most the cost of every path from that cell to
/// `goal`.
pub open spec fn admissible_heuristic<D: Distance2D, H: Distance2D, W: PositionConstraint, G: PositionConstraint>(
    distance: D,
    heuristic: H,
    goal: (i32, i32),
    map_size: (i32, i32),
    way_position_constraints: Seq<W>,
    goal_position_constraints: Seq<G>,
) -> bool {
    forall|cells: Seq<(i32, i32)>|
        is_path(cells, cells[0], goal, map_size, way_position_constraints, goal_position_constraints)
            ==> heuristic.cost(cells[0], goal) <= #[trigger] path_cost(distance, cells)
}

/// The zero heuristic is admissible with every metric, so a search that
/// uses it always returns a least-cost path.
pub proof fn lemma_null_heuristic_admissible<D: Distance2D, W: PositionConstraint, G: PositionConstraint>(
    distance: D,
    goal: (i32, i32),
    map_size: (i32, i32),
    way_position_constraints: Seq<W>,
    goal_position_constraints: Seq<G>,
)
    ensures
        admissible_heuristic(distance, NullDistance2D {}, goal, map_size, way_position_constraints, goal_position_constraints),
{
}

/// `path` is a path from `start` to `goal` that visits no cell twice (so
/// only its last cell is the goal) and whose entries carry the cost of the
/// path up to them; when the heuristic is admissible, no path costs less.
pub open spec fn found_path<D: Distance2D, H: Distance2D, W: PositionConstraint, G: PositionConstraint>(
    path: Seq<(i32, i32, u64)>,
    start: (i32, i32),
    goal: (i32, i32),
    map_size: (i32, i32),
    distance: D,
    heuristic: H,
    way_position_constraints: Seq<W>,
    goal_position_constraints: Seq<G>,
) -> bool {
    &&& is_path(
        path_cells(path),
        start,
        goal,
        map_size,
        way_position_constraints,
        goal_position_constraints,
    )
    &&& forall|k: int|
        0 <= k < path.len() ==> (#[trigger] path[k]).2 == path_cost(distance, path_cells(path).take(k + 1))
    &&& forall|k1: int, k2: int|
        #![trigger path_cells(path)[k1], path_cells(path)[k2]]
        0 <= k1 < k2 < path.len() ==> path_cells(path)[k1] != path_cells(path)[k2]
    &&& admissible_heuristic(
        distance,
        heuristic,
        goal,
        map_size,
        way_position_constraints,
        goal_position_constraints,
    ) ==> forall|cells: Seq<(i32, i32)>|
        is_path(cells, start, goal, map_size, way_position_constraints, goal_position_constraints)
            ==> path_cost(distance, path_cells(path)) <= #[trigger] path_cost(distance, cells)
}

/// No path from `start` to `goal` has a cost that fits in a `u64`.
pub open spec fn no_path<D: Distance2D, W: PositionConstraint, G: PositionConstraint>(
    start: (i32, i32),
    goal: (i32, i32),
    map_size: (i32, i32),
    distance: D,
    way_position_constraints: Seq<W>,
    goal_position_constraints: Seq<G>,
) -> bool {
    forall|cells: Seq<(i32, i32)>|
        is_path(cells, start, goal, map_size, way_position_constraints, goal_position_constraints)
            ==> #[trigger] path_cost(distance, cells) > u64::MAX
}

/// What a search may return. A start off the map finds a path only when it
/// is the goal itself.
pub open spec fn search_outcome<D: Distance2D, H: Distance2D, W: PositionConstraint, G: PositionConstraint>(
    r: Option<Seq<(i32, i32, u64)>>,
    start: (i32, i32),
    goal: (i32, i32),
    map_size: (i32, i32),
    distance: D,
    heuristic: H,
    way_position_constraints: Seq<W>,
    goal_position_constraints: Seq<G>,
) -> bool {
    &&& (match r {
        Some(path) => found_path(
            path,
            start,
            goal,
            map_size,
            distance,
            heuristic,
            way_position_constraints,
            goal_position_constraints,
        ),
        None => valid(map_size, start) ==> no_path(
            start,
            goal,
            map_size,
            distance,
            way_position_constraints,
            goal_position_constraints,
        ),
    })
    &&& (!valid(map_size, start) ==> (r is Some <==> start == goal))
}

/// Two searches on the same inputs with an admissible heuristic agree:
/// either both find a path and the two paths have the same total cost, the
/// least possible, or neither finds one.
pub proof fn lemma_search_repeatable<D: Distance2D, H: Distance2D, W: PositionConstraint, G: PositionConstraint>(
    first: Option<Seq<(i32, i32, u64)>>,
    second: Option<Seq<(i32, i32, u64)>>,
    start: (i32, i32),
    goal: (i32, i32),
    map_size: (i32, i32),
    distance: D,
    heuristic: H,
    way_position_constraints: Seq<W>,
    goal_position_constraints: Seq<G>,
)
    requires
        search_outcome(first, start, goal, map_size, distance, heuristic, way_position_constraints, goal_position_constraints),
        search_outcome(second, start, goal, map_size, distance, heuristic, way_position_constraints, goal_position_constraints),
        admissible_heuristic(distance, heuristic, goal, map_size, way_position_constraints, goal_position_constraints),
    ensures
        first is Some <==> second is Some,
        first is Some && second is Some ==> first->0.last().2 == second->0.last().2,
{
    if first is Some {
        lemma_total_cost(first->0, distance);
    }
    if second is Some {
        lemma_total_cost(second->0, distance);
    }
    if first is Some && second is Some {
        assert(path_cost(distance, path_cells(first->0)) <= path_cost(distance, path_cells(second->0)));
        assert(path_cost(distance, path_cells(second->0)) <= path_cost(distance, path_cells(first->0)));
    }
}

proof fn lemma_total_cost<D: Distance2D>(path: Seq<(i32, i32, u64)>, distance: D)
    requires
        path.len() >= 1,
        forall|k: int|
            0 <= k < path.len() ==> (#[trigger] path[k]).2 == path_cost(distance, path_cells(path).take(k + 1)),
    ensures
        path.last().2 == path_cost(distance, path_cells(path)),
{
    assert(path_cells(path).take(path.len() as int) =~= path_cells(path));
    assert(path[path.len() - 1].2 == path_cost(distance, path_cells(path).take(path.len() as int)));
}

/// Priority of a cell whose best known cost is `cost`: that cost plus the
/// heuristic estimate, saturated.
spec fn priority_of<H: Distance2D>(heuristic: H, goal: (i32, i32), cost: u64, p: (i32, i32)) -> u64 {
    if cost + heuristic.cost(p, goal) > u64::MAX {
        u64::MAX
    } else {
        (cost + heuristic.cost(p, goal)) as u64
    }
}

/// Every open cell carries the priority of its current best cost.
spec fn prio_inv<H: Distance2D>(
    goal: (i32, i32),
    map_size: (i32, i32),
    heuristic: H,
    gs: Seq<Option<u64>>,
    of: Seq<bool>,
    pr: Seq<u64>,
) -> bool {
    &&& pr.len() == map_size.1 * map_size.0
    &&& forall|p: (i32, i32)|
        valid(map_size, p) && #[trigger] of[at(map_size, p)] ==> gs[at(map_size, p)] is Some
            && pr[at(map_size, p)] == priority_of(heuristic, goal, gs[at(map_size, p)]->0, p)
}

/// The cost of a path splits at any of its cells.
proof fn lemma_path_cost_split<D: Distance2D>(distance: D, cells: Seq<(i32, i32)>, j: int)
    requires
        0 <= j < cells.len(),
    ensures
        path_cost(distance, cells) == path_cost(distance, cells.take(j + 1)) + path_cost(
            distance,
            cells.subrange(j, cells.len() as int),
        ),
    decreases cells.len(),
{
    let n = cells.len() as int;
    if j == n - 1 {
        assert(cells.take(j + 1) =~= cells);
        assert(cells.subrange(j, n).len() == 1);
    } else {
        let dl = cells.drop_last();
        lemma_path_cost_split(distance, dl, j);
        assert(dl.take(j + 1) =~= cells.take(j + 1));
        let sub = cells.subrange(j, n);
        assert(sub.drop_last() =~= dl.subrange(j, n - 1));
        assert(sub[sub.len() - 2] == cells[n - 2]);
        assert(sub.last() == cells.last());
    }
}

/// Along a path, the cost so far plus the estimate at a cell never exceeds
/// the whole path's cost.
proof fn lemma_admissible_suffix<D: Distance2D, H: Distance2D, W: PositionConstraint, G: PositionConstraint>(
    start: (i32, i32),
    goal: (i32, i32),
    map_size: (i32, i32),
    distance: D,
    heuristic: H,
    w: Seq<W>,
    g: Seq<G>,
    cells: Seq<(i32, i32)>,
    j: int,
)
    requires
        is_path(cells, start, goal, map_size, w, g),
        admissible_heuristic(distance, heuristic, goal, map_size, w, g),
        0 <= j < cells.len(),
    ensures
        path_cost(distance, cells.take(j + 1)) + heuristic.cost(cells[j], goal) <= path_cost(distance, cells),
{
    let n = cells.len() as int;
    let sub = cells.subrange(j, n);
    assert forall|k: int| 0 <= k < sub.len() - 1 implies #[trigger] is_step(sub[k], sub[k + 1], goal, map_size, w, g) by {
        assert(is_step(cells[j + k], cells[j + k + 1], goal, map_size, w, g));
    }
    assert(is_path(sub, sub[0], goal, map_size, w, g));
    lemma_path_cost_split(distance, cells, j);
}

/// Every affordable path has, up to its `k`-th cell, an open cell whose best
/// known cost is at most the cost of the path up to it, or else its `k`-th
/// cell is closed with such a cost.
proof fn lemma_frontier<D: Distance2D, W: PositionConstraint, G: PositionConstraint>(
    start: (i32, i32),
    goal: (i32, i32),
    map_size: (i32, i32),
    distance: D,
    w: Seq<W>,
    g: Seq<G>,
    gs: Seq<Option<u64>>,
    pv: Seq<Option<(i32, i32)>>,
    of: Seq<bool>,
    ol: Seq<(i32, i32)>,
    ord: Seq<int>,
    clock: int,
    cells: Seq<(i32, i32)>,
    k: int,
)
    requires
        search_inv(start, goal, map_size, distance, w, g, gs, pv, of, ol, ord, clock, None),
        is_path(cells, start, goal, map_size, w, g),
        path_cost(distance, cells) <= u64::MAX,
        0 <= k < cells.len(),
    ensures
        (exists|j: int|
            0 <= j <= k && valid(map_size, cells[j]) && #[trigger] of[at(map_size, cells[j])] && gs[at(map_size, cells[j])] is Some
                && gs[at(map_size, cells[j])]->0 <= path_cost(distance, cells.take(j + 1))) || (valid(map_size, cells[k])
            && !of[at(map_size, cells[k])] && gs[at(map_size, cells[k])] is Some && gs[at(map_size, cells[k])]->0
            <= path_cost(distance, cells.take(k + 1))),
    decreases k,
{
    if k == 0 {
        assert(cells.take(1).len() == 1);
        if of[at(map_size, cells[0])] {
            assert(of[at(map_size, cells[0])]);
        }
    } else {
        lemma_frontier(start, goal, map_size, distance, w, g, gs, pv, of, ol, ord, clock, cells, k - 1);
        let found = exists|j: int|
            0 <= j <= k - 1 && valid(map_size, cells[j]) && #[trigger] of[at(map_size, cells[j])] && gs[at(map_size, cells[j])] is Some
                && gs[at(map_size, cells[j])]->0 <= path_cost(distance, cells.take(j + 1));
        if !found {
            let p = cells[k - 1];
            let q = cells[k];
            assert(is_step(cells[k - 1], cells[k], goal, map_size, w, g));
            assert(cell_inv(start, goal, map_size, distance, w, g, gs, pv, of, ol, ord, clock, None, p));
            lemma_path_cost_prefix(distance, cells, k - 1);
            lemma_path_cost_prefix(distance, cells, k);
            assert(relax_edge(distance, gs, map_size, p, q));
            if of[at(map_size, q)] {
                assert(of[at(map_size, cells[k])]);
            }
        } else {
            let j = choose|j: int|
                0 <= j <= k - 1 && valid(map_size, cells[j]) && #[trigger] of[at(map_size, cells[j])] && gs[at(map_size, cells[j])] is Some
                    && gs[at(map_size, cells[j])]->0 <= path_cost(distance, cells.take(j + 1));
            assert(of[at(map_size, cells[j])]);
        }
    }
}

/// When the goal leaves the open list with the least priority, its best
/// known cost is at most the cost of every path.
proof fn lemma_goal_optimal<D: Distance2D, H: Distance2D, W: PositionConstraint, G: PositionConstraint>(
    start: (i32, i32),
    goal: (i32, i32),
    map_size: (i32, i32),
    distance: D,
    heuristic: H,
    w: Seq<W>,
    g: Seq<G>,
    gs: Seq<Option<u64>>,
    pv: Seq<Option<(i32, i32)>>,
    of: Seq<bool>,
    ol: Seq<(i32, i32)>,
    ord: Seq<int>,
    clock: int,
    pr: Seq<u64>,
    best: int,
)
    requires
        search_inv(start, goal, map_size, distance, w, g, gs, pv, of, ol, ord, clock, None),
        prio_inv(goal, map_size, heuristic, gs, of, pr),
        admissible_heuristic(distance, heuristic, goal, map_size, w, g),
        0 <= best < ol.len(),
        ol[best] == goal,
        forall|k: int| 0 <= k < ol.len() ==> pr[at(map_size, ol[best])] <= #[trigger] pr[at(map_size, ol[k])],
    ensures
        gs[at(map_size, goal)] is Some,
        forall|cells: Seq<(i32, i32)>|
            is_path(cells, start, goal, map_size, w, g) ==> gs[at(map_size, goal)]->0 <= #[trigger] path_cost(distance, cells),
{
    assert(valid(map_size, ol[best]) && of[at(map_size, ol[best])]);
    assert(cell_inv(start, goal, map_size, distance, w, g, gs, pv, of, ol, ord, clock, None, goal));
    let gg = gs[at(map_size, goal)]->0;
    assert(pr[at(map_size, goal)] == priority_of(heuristic, goal, gg, goal));
    assert forall|cells: Seq<(i32, i32)>|
        is_path(cells, start, goal, map_size, w, g) implies gg <= #[trigger] path_cost(distance, cells) by {
        if path_cost(distance, cells) <= u64::MAX {
            let last = cells.len() - 1;
            lemma_frontier(start, goal, map_size, distance, w, g, gs, pv, of, ol, ord, clock, cells, last);
            assert(cell_inv(start, goal, map_size, distance, w, g, gs, pv, of, ol, ord, clock, None, cells[last]));
            let j = choose|j: int|
                0 <= j <= last && valid(map_size, cells[j]) && #[trigger] of[at(map_size, cells[j])] && gs[at(map_size, cells[j])] is Some
                    && gs[at(map_size, cells[j])]->0 <= path_cost(distance, cells.take(j + 1));
            let n = cells[j];
            lemma_admissible_suffix(start, goal, map_size, distance, heuristic, w, g, cells, j);
            assert(cell_inv(start, goal, map_size, distance, w, g, gs, pv, of, ol, ord, clock, None, n));
            let k = choose|k: int| 0 <= k < ol.len() && ol[k] == n;
            assert(pr[at(map_size, ol[best])] <= pr[at(map_size, ol[k])]);
            assert(pr[at(map_size, n)] == priority_of(heuristic, goal, gs[at(map_size, n)]->0, n));
        }
    }
}

/// A* search from `start` to `goal` on a grid of `map_size.0` rows and
/// `map_size.1` columns, moving to side neighbours.
///
/// `distance` prices each move and `heuristic` estimates the remaining
/// cost. A cell equal to `goal` is checked against
/// `goal_position_constraints` only, every other cell against
/// `way_position_constraints` only, so the goal may be a cell that could
/// not be crossed. The result lists each cell of the path from `start` to
/// `goal` with the cost of the path up to it, the sum of the step costs;
/// with an admissible heuristic the path is a cheapest one. `None` means
/// that no path whose cost fits in a `u64` exists; a start off the map
/// gives `None` unless it is the goal itself. Improved cells are re-opened
/// with their new priority.
pub fn astar_2d_map<D: Distance2D, H: Distance2D, W: PositionConstraint, G: PositionConstraint>(
    start: (i32, i32),
    goal: (i32, i32),
    map_size: (i32, i32),
    distance: D,
    heuristic: H,
    way_position_constraints: &[W],
    goal_position_constraints: &[G],
) -> (r: Option<Vec<(i32, i32, u64)>>)
    requires
        distance.well_formed(),
        heuristic.well_formed(),
        all_well_formed(way_position_constraints@),
        all_well_formed(goal_position_constraints@),
        map_size.0 * map_size.1 <= usize::MAX,
    ensures
        match r {
            Some(path) => found_path(
                path@,
                start,
                goal,
                map_size,
                distance,
                heuristic,
                way_position_constraints@,
                goal_position_constraints@,
            ),
            None => valid(map_size, start) ==> no_path(
                start,
                goal,
                map_size,
                distance,
                way_position_constraints@,
                goal_position_constraints@,
            ),
        },
        !valid(map_size, start) ==> (r is Some <==> start == goal),
{
    if !(0 <= start.0 && start.0 < map_size.0 && 0 <= start.1 && start.1 < map_size.1) {
        if start.0 == goal.0 && start.1 == goal.1 {
            let mut path: Vec<(i32, i32, u64)> = Vec::new();
            path.push((start.0, start.1, 0));
            proof {
                assert(path_cells(path@) =~= seq![start]);
                assert(path_cells(path@).take(1) =~= seq![start]);
            }
            return Some(path);
        }
        return None;
    }

    let ghost w = way_position_constraints@;
    let ghost g = goal_position_constraints@;
    let rows = map_size.0 as usize;
    let cols = map_size.1 as usize;
    assert(map_size.1 * map_size.0 == map_size.0 * map_size.1) by (nonlinear_arith);
    let mut distance_from_start: Grid<Option<u64>> = Grid::new(cols, rows, None);
    let mut best_previous_node: Grid<Option<(i32, i32)>> = Grid::new(cols, rows, None);
    let mut open_flag: Grid<bool> = Grid::new(cols, rows, false);
    let mut priority: Grid<u64> = Grid::new(cols, rows, 0);
    let mut open_list: Vec<(i32, i32)> = Vec::new();
    let ghost mut ord: Seq<int> = Seq::new((map_size.1 * map_size.0) as nat, |i: int| 0int);
    let ghost mut clock: int = 1;
    let ghost gs0 = distance_from_start.cells@;
    let ghost of0 = open_flag.cells@;
    distance_from_start.set_signed(start, Some(0));
    open_flag.set_signed(start, true);
    let estimate = heuristic.evaluate(start, goal);
    priority.set_signed(start, estimate);
    open_list.push(start);
    proof {
        let gs = distance_from_start.cells@;
        let pv = best_previous_node.cells@;
        let of = open_flag.cells@;
        let ol = open_list@;
        lemma_at(map_size, start, start);
        assert(ol[0] == start);
        assert forall|p: (i32, i32)| valid(map_size, p) implies #[trigger] cell_inv(
            start,
            goal,
            map_size,
            distance,
            w,
            g,
            gs,
            pv,
            of,
            ol,
            ord,
            clock,
            None,
            p,
        ) by {
            lemma_at(map_size, p, start);
            if p != start {
                assert(gs[at(map_size, p)] == gs0[at(map_size, p)]);
                assert(of[at(map_size, p)] == of0[at(map_size, p)]);
            }
            assert(pv[at(map_size, p)] is None);
        }
        let pr = priority.cells@;
        assert forall|p: (i32, i32)| valid(map_size, p) && #[trigger] of[at(map_size, p)] implies gs[at(map_size, p)] is Some
            && pr[at(map_size, p)] == priority_of(heuristic, goal, gs[at(map_size, p)]->0, p) by {
            lemma_at(map_size, p, start);
            if p != start {
                assert(of[at(map_size, p)] == of0[at(map_size, p)]);
            }
        }
    }
    let directions = neighbors_direction_4c();
    while open_list.len() > 0
        invariant
            distance.well_formed(),
            heuristic.well_formed(),
            w == way_position_constraints@,
            g == goal_position_constraints@,
            all_well_formed(w),
            all_well_formed(g),
            directions@ == directions_4c(),
            distance_from_start.wf(),
            best_previous_node.wf(),
            open_flag.wf(),
            priority.wf(),
            distance_from_start.width == cols && distance_from_start.height == rows,
            best_previous_node.width == cols && best_previous_node.height == rows,
            open_flag.width == cols && open_flag.height == rows,
            priority.width == cols && priority.height == rows,
            cols == map_size.1,
            rows == map_size.0,
            search_inv(
                start,
                goal,
                map_size,
                distance,
                w,
                g,
                distance_from_start.cells@,
                best_previous_node.cells@,
                open_flag.cells@,
                open_list@,
                ord,
                clock,
                None,
            ),
            prio_inv(goal, map_size, heuristic, distance_from_start.cells@, open_flag.cells@, priority.cells@),
        decreases 2 * potential(distance_from_start.cells@) + open_list@.len(),
    {
        let ghost measure = 2 * potential(distance_from_start.cells@) + open_list@.len();
        let ghost ol0 = open_list@;
        let mut best: usize = 0;
        let mut i: usize = 1;
        while i < open_list.len()
            invariant
                priority.wf(),
                priority.width == cols && priority.height == rows,
                cols == map_size.1,
                rows == map_size.0,
                open_list@ == ol0,
                best < ol0.len(),
                1 <= i <= ol0.len(),
                forall|k: int| 0 <= k < ol0.len() ==> valid(map_size, #[trigger] ol0[k]),
                forall|k: int| 0 <= k < i ==> priority.cells@[at(map_size, ol0[best as int])] <= #[trigger] priority.cells@[at(map_size, ol0[k])],
            decreases ol0.len() - i,
        {
            if *priority.get_signed(open_list[i]) < *priority.get_signed(open_list[best]) {
                best = i;
            }
            i = i + 1;
        }
        let pos = open_list.swap_remove(best);
        if pos.0 == goal.0 && pos.1 == goal.1 {
            proof {
                lemma_chain(
                    start,
                    goal,
                    map_size,
                    distance,
                    w,
                    g,
                    distance_from_start.cells@,
                    best_previous_node.cells@,
                    open_flag.cells@,
                    ol0,
                    ord,
                    clock,
                    None,
                );
                assert(valid(map_size, ol0[best as int]));
                assert(cell_inv(
                    start,
                    goal,
                    map_size,
                    distance,
                    w,
                    g,
                    distance_from_start.cells@,
                    best_previous_node.cells@,
                    open_flag.cells@,
                    ol0,
                    ord,
                    clock,
                    None,
                    pos,
                ));
            }
            proof {
                let chain = lemma_link_chain(
                    start,
                    goal,
                    map_size,
                    distance,
                    w,
                    g,
                    distance_from_start.cells@,
                    best_previous_node.cells@,
                    ord,
                    clock,
                    goal,
                );
                assert forall|k: int| 0 <= k < chain.len() implies distance_from_start.cells@[at(
                    map_size,
                    #[trigger] chain[k],
                )] is Some by {
                    assert(chain_cell(
                        start,
                        goal,
                        map_size,
                        distance,
                        w,
                        g,
                        distance_from_start.cells@,
                        best_previous_node.cells@,
                        ord,
                        clock,
                        chain[k],
                    ));
                    if k > 0 {
                        assert(best_previous_node.cells@[at(map_size, chain[k - 1])] == Some(chain[k]));
                        assert(chain_cell(
                            start,
                            goal,
                            map_size,
                            distance,
                            w,
                            g,
                            distance_from_start.cells@,
                            best_previous_node.cells@,
                            ord,
                            clock,
                            chain[k - 1],
                        ));
                    }
                }
            }
            let linked = reconstruct_path(goal, map_size, &best_previous_node, &distance_from_start);
            let cells = cells_of(&linked);
            proof {
                lemma_path_from_links(
                    start,
                    goal,
                    map_size,
                    distance,
                    w,
                    g,
                    distance_from_start.cells@,
                    best_previous_node.cells@,
                    ord,
                    clock,
                    cells@,
                );
                let gs = distance_from_start.cells@;
                assert forall|k: int| 0 <= k < cells@.len() - 1 implies gs[at(map_size, #[trigger] cells@[k])]->0
                    + distance.cost(cells@[k], cells@[k + 1]) <= gs[at(map_size, cells@[k + 1])]->0 by {
                    assert(is_step(cells@[k], cells@[k + 1], goal, map_size, w, g));
                }
            }
            let path = path_with_costs(&distance, &cells, map_size, Ghost(distance_from_start.cells@));
            proof {
                if admissible_heuristic(distance, heuristic, goal, map_size, w, g) {
                    lemma_goal_optimal(
                        start,
                        goal,
                        map_size,
                        distance,
                        heuristic,
                        w,
                        g,
                        distance_from_start.cells@,
                        best_previous_node.cells@,
                        open_flag.cells@,
                        ol0,
                        ord,
                        clock,
                        priority.cells@,
                        best as int,
                    );
                    assert(path_cells(path@) == cells@);
                }
            }
            return Some(path);
        }
        proof {
            lemma_pop(
                start,
                goal,
                map_size,
                distance,
                w,
                g,
                distance_from_start.cells@,
                best_previous_node.cells@,
                open_flag.cells@,
                ol0,
                ord,
                clock,
                best as int,
            );
            lemma_at(map_size, pos, pos);
        }
        let ghost of_before = open_flag.cells@;
        open_flag.set_signed(pos, false);
        proof {
            let gs = distance_from_start.cells@;
            let of = open_flag.cells@;
            let pr = priority.cells@;
            assert forall|p: (i32, i32)| valid(map_size, p) && #[trigger] of[at(map_size, p)] implies gs[at(map_size, p)] is Some
                && pr[at(map_size, p)] == priority_of(heuristic, goal, gs[at(map_size, p)]->0, p) by {
                lemma_at(map_size, p, pos);
                assert(of_before[at(map_size, p)]);
            }
        }
        let neighbours = neighbors(
            pos,
            goal,
            map_size,
            directions.as_slice(),
            way_position_constraints,
            goal_position_constraints,
        );
        proof {
            lemma_moves_are_steps(pos, goal, map_size, w, g);
            assert forall|k: int| 0 <= k < neighbours@.len() implies #[trigger] is_step(pos, neighbours@[k], goal, map_size, w, g) by {
                assert(neighbours@.contains(neighbours@[k]));
            }
        }
        let gpos: u64 = distance_from_start.get_signed(pos).unwrap();
        let mut j: usize = 0;
        while j < neighbours.len()
            invariant
                distance.well_formed(),
                heuristic.well_formed(),
                w == way_position_constraints@,
                g == goal_position_constraints@,
                all_well_formed(w),
                all_well_formed(g),
                directions@ == directions_4c(),
                distance_from_start.wf(),
                best_previous_node.wf(),
                open_flag.wf(),
                priority.wf(),
                distance_from_start.width == cols && distance_from_start.height == rows,
                best_previous_node.width == cols && best_previous_node.height == rows,
                open_flag.width == cols && open_flag.height == rows,
                priority.width == cols && priority.height == rows,
                cols == map_size.1,
                rows == map_size.0,
                valid(map_size, pos),
                !open_flag.cells@[at(map_size, pos)],
                distance_from_start.cells@[at(map_size, pos)] == Some(gpos),
                forall|k: int| 0 <= k < neighbours@.len() ==> #[trigger] is_step(pos, neighbours@[k], goal, map_size, w, g),
                neighbours@ == admissible_moves(pos, goal, map_size, directions_4c(), w, g),
                forall|q: (i32, i32)|
                    admissible_moves(pos, goal, map_size, directions_4c(), w, g).contains(q) <==> is_step(
                        pos,
                        q,
                        goal,
                        map_size,
                        w,
                        g,
                    ),
                search_inv(
                    start,
                    goal,
                    map_size,
                    distance,
                    w,
                    g,
                    distance_from_start.cells@,
                    best_previous_node.cells@,
                    open_flag.cells@,
                    open_list@,
                    ord,
                    clock,
                    Some(pos),
                ),
                prio_inv(goal, map_size, heuristic, distance_from_start.cells@, open_flag.cells@, priority.cells@),
                forall|k: int| 0 <= k < j ==> relax_edge(distance, distance_from_start.cells@, map_size, pos, #[trigger] neighbours@[k]),
                j <= neighbours@.len(),
                2 * potential(distance_from_start.cells@) + open_list@.len() < measure,
            decreases neighbours@.len() - j,
        {
            let nb = neighbours[j];
            proof {
                assert(is_step(pos, neighbours@[j as int], goal, map_size, w, g));
            }
            let d = distance.evaluate(pos, nb);
            match gpos.checked_add(d) {
                None => {},
                Some(t) => {
                    let known = *distance_from_start.get_signed(nb);
                    let better = match known {
                        None => true,
                        Some(o) => t < o,
                    };
                    if better {
                        let ghost gs = distance_from_start.cells@;
                        proof {
                            lemma_improve(
                                start,
                                goal,
                                map_size,
                                distance,
                                w,
                                g,
                                distance_from_start.cells@,
                                best_previous_node.cells@,
                                open_flag.cells@,
                                open_list@,
                                ord,
                                clock,
                                pos,
                                nb,
                                t,
                            );
                        }
                        let ghost of_before = open_flag.cells@;
                        let ghost pr_before = priority.cells@;
                        let was_open = *open_flag.get_signed(nb);
                        distance_from_start.set_signed(nb, Some(t));
                        best_previous_node.set_signed(nb, Some(pos));
                        open_flag.set_signed(nb, true);
                        proof {
                            ord = ord.update(at(map_size, nb), clock);
                            clock = clock + 1;
                        }
                        let h = heuristic.evaluate(nb, goal);
                        proof {
                            lemma_at(map_size, nb, nb);
                        }
                        priority.set_signed(nb, t.saturating_add(h));
                        if !was_open {
                            open_list.push(nb);
                        }
                        proof {
                            let gs2 = distance_from_start.cells@;
                            let of2 = open_flag.cells@;
                            let pr2 = priority.cells@;
                            assert forall|p: (i32, i32)| valid(map_size, p) && #[trigger] of2[at(map_size, p)] implies gs2[at(map_size, p)] is Some
                                && pr2[at(map_size, p)] == priority_of(heuristic, goal, gs2[at(map_size, p)]->0, p) by {
                                lemma_at(map_size, p, nb);
                                if p != nb {
                                    assert(of_before[at(map_size, p)]);
                                    assert(pr2[at(map_size, p)] == pr_before[at(map_size, p)]);
                                    assert(gs2[at(map_size, p)] == gs[at(map_size, p)]);
                                }
                            }
                        }
                        proof {
                            assert forall|k: int| 0 <= k < j implies relax_edge(distance, distance_from_start.cells@, map_size, pos, #[trigger] neighbours@[k]) by {
                                assert(is_step(pos, neighbours@[k], goal, map_size, w, g));
                                assert(relax_edge(distance, gs, map_size, pos, neighbours@[k]));
                            }
                        }
                    }
                },
            }
            j = j + 1;
        }
        proof {
            let gs = distance_from_start.cells@;
            assert forall|q: (i32, i32)| #[trigger] is_step(pos, q, goal, map_size, w, g) implies relax_edge(distance, gs, map_size, pos, q) by {
                assert(neighbours@.contains(q));
                let k = choose|k: int| 0 <= k < neighbours@.len() && neighbours@[k] == q;
                assert(relax_edge(distance, gs, map_size, pos, neighbours@[k]));
            }
            lemma_close(
                start,
                goal,
                map_size,
                distance,
                w,
                g,
                distance_from_start.cells@,
                best_previous_node.cells@,
                open_flag.cells@,
                open_list@,
                ord,
                clock,
                pos,
            );
        }
    }
    proof {
        lemma_no_path(
            start,
            goal,
            map_size,
            distance,
            w,
            g,
            distance_from_start.cells@,
            best_previous_node.cells@,
            open_flag.cells@,
            open_list@,
            ord,
            clock,
        );
    }
    None
}

} // verus!
