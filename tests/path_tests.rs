use territory_war::constraint::{
    respect_all, AnyConstraint, BuildingConstraint, PositionConstraint, TerrainConstraint,
    UnitConstraint,
};
use territory_war::distance::{
    Distance2D, EuclideanDistance2D, EuclideanDistanceWHeight2D, ManhattanDistance2D,
    NullDistance2D, COST_UNIT,
};
use territory_war::grid::{Grid, HEIGHT_UNIT};
use territory_war::path_planning::{astar_2d_map, neighbors, reconstruct_path};

const NO_UNITS: [UnitConstraint<'static>; 0] = [];

fn four_directions() -> Vec<(i32, i32)> {
    vec![(-1, 0), (0, -1), (1, 0), (0, 1)]
}

#[test]
fn euclidean_three_four_five() {
    assert_eq!(EuclideanDistance2D {}.evaluate((0, 0), (3, 4)), 5 * COST_UNIT);
}

#[test]
fn manhattan_three_four_seven() {
    assert_eq!(ManhattanDistance2D {}.evaluate((0, 0), (3, 4)), 7 * COST_UNIT);
    assert_eq!(ManhattanDistance2D {}.evaluate((3, 4), (0, 0)), 7 * COST_UNIT);
}

#[test]
fn null_distance_is_zero() {
    assert_eq!(NullDistance2D {}.evaluate((0, 0), (3, 4)), 0);
    assert_eq!(NullDistance2D {}.evaluate((-7, 2), (100, -50)), 0);
}

#[test]
fn euclidean_rounds_down() {
    assert_eq!(EuclideanDistance2D {}.evaluate((0, 0), (1, 1)), 1_414_213);
}

#[test]
fn euclidean_with_height_penalises_slopes() {
    let mut heights = Grid::new(2, 1, 0i64);
    heights.set(0, 1, HEIGHT_UNIT / 2);
    let metric = EuclideanDistanceWHeight2D { height_map: &heights };
    assert_eq!(metric.evaluate((0, 0), (0, 1)), 1_414_213);
    assert_eq!(metric.evaluate((0, 0), (0, 0)), 0);
    // outside the field the height counts as zero
    assert_eq!(metric.evaluate((0, 0), (0, 5)), 5 * COST_UNIT);
}

#[test]
fn unit_constraint_rejects_occupied_cells() {
    let mut units: Grid<Option<usize>> = Grid::new(3, 3, None);
    units.set(1, 2, Some(0));
    let c = UnitConstraint { unit_map: &units };
    assert!(!c.respect((1, 2)));
    assert!(c.respect((2, 1)));
    assert!(c.respect((9, 9)));
}

#[test]
fn building_constraint_rejects_occupied_cells() {
    let mut buildings: Grid<Option<usize>> = Grid::new(2, 2, None);
    buildings.set(0, 0, Some(3));
    let c = BuildingConstraint { building_map: &buildings };
    assert!(!c.respect((0, 0)));
    assert!(c.respect((1, 1)));
}

#[test]
fn terrain_constraint_rejects_impractical_kinds() {
    let mut terrain = Grid::new(3, 1, 3usize);
    terrain.set(0, 0, 0);
    terrain.set(0, 1, 1);
    let c = TerrainConstraint { terrain_map: &terrain, impractical_terrains: vec![0, 1] };
    assert!(!c.respect((0, 0)));
    assert!(!c.respect((0, 1)));
    assert!(c.respect((0, 2)));
    let none = TerrainConstraint { terrain_map: &terrain, impractical_terrains: vec![] };
    assert!(none.respect((0, 0)));
}

#[test]
fn constraints_combine_by_conjunction() {
    let mut units: Grid<Option<usize>> = Grid::new(2, 1, None);
    units.set(0, 0, Some(1));
    let mut buildings: Grid<Option<usize>> = Grid::new(2, 1, None);
    buildings.set(0, 1, Some(2));
    let all = vec![
        AnyConstraint::Unit(UnitConstraint { unit_map: &units }),
        AnyConstraint::Building(BuildingConstraint { building_map: &buildings }),
    ];
    assert!(!respect_all(&all, (0, 0)));
    assert!(!respect_all(&all, (0, 1)));
    assert!(respect_all(&all[..0], (0, 0)));
    let mut free: Grid<Option<usize>> = Grid::new(2, 1, None);
    free.set(0, 0, None);
    let one = vec![UnitConstraint { unit_map: &free }];
    assert!(respect_all(&one, (0, 1)));
}

#[test]
fn neighbors_filters_bounds_in_direction_order() {
    let dirs = four_directions();
    let r = neighbors((0, 0), (9, 9), (3, 3), &dirs, &NO_UNITS, &NO_UNITS);
    assert_eq!(r, vec![(1, 0), (0, 1)]);
    let r = neighbors((1, 1), (9, 9), (3, 3), &dirs, &NO_UNITS, &NO_UNITS);
    assert_eq!(r, vec![(0, 1), (1, 0), (2, 1), (1, 2)]);
}

#[test]
fn neighbors_checks_goal_against_goal_rules_only() {
    let mut units: Grid<Option<usize>> = Grid::new(3, 3, None);
    units.set(0, 1, Some(0));
    units.set(1, 0, Some(1));
    let blocked = [UnitConstraint { unit_map: &units }];
    let dirs = four_directions();
    let r = neighbors((0, 0), (0, 1), (3, 3), &dirs, &blocked, &NO_UNITS);
    assert_eq!(r, vec![(0, 1)]);
    let r = neighbors((0, 0), (0, 1), (3, 3), &dirs, &blocked, &blocked);
    assert_eq!(r, Vec::<(i32, i32)>::new());
}

fn total_cost(path: &[(i32, i32, u64)]) -> u64 {
    path.last().unwrap().2
}

#[test]
fn astar_open_grid_manhattan() {
    let path = astar_2d_map(
        (0, 0),
        (4, 4),
        (5, 5),
        ManhattanDistance2D {},
        NullDistance2D {},
        &NO_UNITS,
        &NO_UNITS,
    )
    .unwrap();
    assert_eq!(path.len(), 9);
    assert_eq!(total_cost(&path), 8 * COST_UNIT);
    assert_eq!((path[0].0, path[0].1, path[0].2), (0, 0, 0));
    assert_eq!((path[8].0, path[8].1), (4, 4));
    for k in 1..path.len() {
        let (a, b) = (path[k - 1], path[k]);
        assert_eq!((a.0 - b.0).abs() + (a.1 - b.1).abs(), 1);
        assert_eq!(b.2 - a.2, COST_UNIT);
    }
}

#[test]
fn astar_with_manhattan_heuristic_finds_same_cost() {
    let path = astar_2d_map(
        (0, 0),
        (4, 4),
        (5, 5),
        ManhattanDistance2D {},
        ManhattanDistance2D {},
        &NO_UNITS,
        &NO_UNITS,
    )
    .unwrap();
    assert_eq!(path.len(), 9);
    assert_eq!(total_cost(&path), 8 * COST_UNIT);
}

#[test]
fn astar_start_equals_goal() {
    let path = astar_2d_map(
        (2, 3),
        (2, 3),
        (5, 5),
        ManhattanDistance2D {},
        NullDistance2D {},
        &NO_UNITS,
        &NO_UNITS,
    )
    .unwrap();
    assert_eq!(path, vec![(2, 3, 0)]);
}

#[test]
fn astar_goal_occupied_reachable_without_goal_rules() {
    let mut units: Grid<Option<usize>> = Grid::new(5, 5, None);
    units.set(0, 1, Some(7));
    let way = [UnitConstraint { unit_map: &units }];
    let path = astar_2d_map(
        (0, 0),
        (0, 1),
        (5, 5),
        ManhattanDistance2D {},
        NullDistance2D {},
        &way,
        &NO_UNITS,
    )
    .unwrap();
    assert_eq!(path.len(), 2);
    assert_eq!(path, vec![(0, 0, 0), (0, 1, COST_UNIT)]);
}

#[test]
fn astar_goal_occupied_blocked_by_goal_rules() {
    let mut units: Grid<Option<usize>> = Grid::new(5, 5, None);
    units.set(0, 1, Some(7));
    let way = [UnitConstraint { unit_map: &units }];
    let goal_rules = [UnitConstraint { unit_map: &units }];
    let r = astar_2d_map(
        (0, 0),
        (0, 1),
        (5, 5),
        ManhattanDistance2D {},
        NullDistance2D {},
        &way,
        &goal_rules,
    );
    assert!(r.is_none());
}

#[test]
fn astar_goal_enclosed_by_water() {
    // kind 0 is water; the goal (2, 2) is ringed by it
    let mut terrain = Grid::new(5, 5, 1usize);
    for (r, c) in [(1, 2), (2, 1), (3, 2), (2, 3)] {
        terrain.set(r, c, 0);
    }
    let water = [TerrainConstraint { terrain_map: &terrain, impractical_terrains: vec![0] }];
    let r = astar_2d_map(
        (0, 0),
        (2, 2),
        (5, 5),
        ManhattanDistance2D {},
        NullDistance2D {},
        &water,
        &NO_UNITS,
    );
    assert!(r.is_none());
}

#[test]
fn astar_detours_around_a_wall() {
    // a wall on column 2 except the bottom row
    let mut units: Grid<Option<usize>> = Grid::new(5, 5, None);
    for r in 0..4 {
        units.set(r, 2, Some(r));
    }
    let way = [UnitConstraint { unit_map: &units }];
    let path = astar_2d_map(
        (0, 0),
        (0, 4),
        (5, 5),
        ManhattanDistance2D {},
        NullDistance2D {},
        &way,
        &NO_UNITS,
    )
    .unwrap();
    assert_eq!(total_cost(&path), 12 * COST_UNIT);
    assert_eq!(path.len(), 13);
    assert!(path.iter().all(|&(r, c, _)| !(c == 2 && r < 4)));
}

#[test]
fn astar_same_inputs_same_cost() {
    let mut units: Grid<Option<usize>> = Grid::new(6, 6, None);
    units.set(2, 2, Some(0));
    units.set(3, 3, Some(1));
    let way = [UnitConstraint { unit_map: &units }];
    let first = astar_2d_map((0, 0), (5, 5), (6, 6), ManhattanDistance2D {}, NullDistance2D {}, &way, &NO_UNITS)
        .unwrap();
    let second = astar_2d_map((0, 0), (5, 5), (6, 6), ManhattanDistance2D {}, NullDistance2D {}, &way, &NO_UNITS)
        .unwrap();
    assert_eq!(total_cost(&first), total_cost(&second));
    assert_eq!(total_cost(&first), 10 * COST_UNIT);
}

#[test]
fn astar_height_aware_costs_add_up() {
    let mut heights = Grid::new(3, 1, 0i64);
    heights.set(0, 1, HEIGHT_UNIT / 2);
    let metric = EuclideanDistanceWHeight2D { height_map: &heights };
    let path = astar_2d_map((0, 0), (0, 2), (1, 3), metric, NullDistance2D {}, &NO_UNITS, &NO_UNITS).unwrap();
    assert_eq!(path, vec![(0, 0, 0), (0, 1, 1_414_213), (0, 2, 2_828_426)]);
}

#[test]
fn reconstruct_path_follows_links() {
    let mut links: Grid<Option<(i32, i32)>> = Grid::new(3, 1, None);
    links.set(0, 1, Some((0, 0)));
    links.set(0, 2, Some((0, 1)));
    let mut costs: Grid<Option<u64>> = Grid::new(3, 1, None);
    costs.set(0, 0, Some(0));
    costs.set(0, 1, Some(1));
    costs.set(0, 2, Some(2));
    assert_eq!(reconstruct_path((0, 2), (1, 3), &links, &costs), vec![(0, 0, 0), (0, 1, 1), (0, 2, 2)]);
    assert_eq!(reconstruct_path((0, 0), (1, 3), &links, &costs), vec![(0, 0, 0)]);
}

#[test]
fn astar_one_by_three_costs() {
    let path = astar_2d_map((0, 0), (0, 2), (1, 3), ManhattanDistance2D {}, NullDistance2D {}, &NO_UNITS, &NO_UNITS)
        .unwrap();
    assert_eq!(path, vec![(0, 0, 0), (0, 1, COST_UNIT), (0, 2, 2 * COST_UNIT)]);
}

#[test]
fn astar_start_off_map() {
    let r = astar_2d_map((-1, 0), (0, 0), (3, 3), ManhattanDistance2D {}, NullDistance2D {}, &NO_UNITS, &NO_UNITS);
    assert!(r.is_none());
    let r = astar_2d_map((5, 5), (5, 5), (3, 3), ManhattanDistance2D {}, NullDistance2D {}, &NO_UNITS, &NO_UNITS);
    assert_eq!(r, Some(vec![(5, 5, 0)]));
}

#[test]
fn astar_path_cells_are_distinct() {
    let mut units: Grid<Option<usize>> = Grid::new(6, 6, None);
    for r in 1..6 {
        units.set(r, 3, Some(r));
    }
    let way = [UnitConstraint { unit_map: &units }];
    let path = astar_2d_map((5, 0), (5, 5), (6, 6), ManhattanDistance2D {}, NullDistance2D {}, &way, &NO_UNITS).unwrap();
    for a in 0..path.len() {
        for b in a + 1..path.len() {
            assert!((path[a].0, path[a].1) != (path[b].0, path[b].1));
        }
    }
    assert_eq!(total_cost(&path), 15 * COST_UNIT);
}
