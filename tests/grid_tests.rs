use territory_war::grid::{Grid, HEIGHT_UNIT};
use territory_war::heightmap::{diamond_square, diamond_square_from, diamond_step, noise_field, square_point};
use territory_war::utils::is_in_rect;

#[test]
fn new_grid_holds_fill_value() {
    let g = Grid::new(3, 2, 7i64);
    assert_eq!(g.width, 3);
    assert_eq!(g.height, 2);
    assert_eq!(g.cells.len(), 6);
    assert!(g.cells.iter().all(|&v| v == 7));
}

#[test]
fn set_then_get_round_trip() {
    let mut g = Grid::new(4, 3, 0i64);
    g.set(2, 1, 42);
    assert_eq!(*g.get(2, 1), 42);
    assert_eq!(g.cells[2 * 4 + 1], 42);
    assert_eq!(*g.get(1, 2), 0);
    g.set_signed((0, 3), -5);
    assert_eq!(*g.get_signed((0, 3)), -5);
    assert_eq!(*g.get(0, 3), -5);
}

#[test]
fn normalize_spans_unit_range() {
    let mut g = Grid::new(2, 2, 0i64);
    g.set(0, 0, -10);
    g.set(0, 1, 0);
    g.set(1, 0, 10);
    g.set(1, 1, 5);
    g.normalize();
    assert_eq!(g.cells, vec![0, HEIGHT_UNIT / 2, HEIGHT_UNIT, 750_000]);
}

#[test]
fn normalize_flat_field_gives_zeros() {
    let mut g = Grid::new(3, 3, 12i64);
    g.normalize();
    assert!(g.cells.iter().all(|&v| v == 0));
}

#[test]
fn normalize_rounds_down() {
    let mut g = Grid::new(3, 1, 0i64);
    g.set(0, 1, 1);
    g.set(0, 2, 3);
    g.normalize();
    assert_eq!(g.cells, vec![0, 333_333, HEIGHT_UNIT]);
}

#[test]
fn diamond_square_side_follows_exponent() {
    for n in 0..3u32 {
        let g = diamond_square(n, false);
        let side = (1usize << (4 + n)) + 1;
        assert_eq!(g.width, side);
        assert_eq!(g.height, side);
        assert_eq!(g.cells.len(), side * side);
    }
}

#[test]
fn diamond_square_normalized_spans_unit() {
    let g = diamond_square(1, true);
    assert_eq!(g.width, 33);
    let min = *g.cells.iter().min().unwrap();
    let max = *g.cells.iter().max().unwrap();
    assert_eq!(min, 0);
    assert!(max == HEIGHT_UNIT || g.cells.iter().all(|&v| v == 0));
    assert!(g.cells.iter().all(|&v| (0..=HEIGHT_UNIT).contains(&v)));
}

#[test]
fn diamond_step_sets_centre_to_mean_plus_offset() {
    let mut g = Grid::new(3, 3, 0i64);
    g.set(0, 0, 4);
    g.set(0, 2, 8);
    g.set(2, 0, -2);
    g.set(2, 2, 10);
    diamond_step(&mut g, 0, 0, 2, 3);
    assert_eq!(*g.get(1, 1), 5 + 3);
    assert_eq!(*g.get(0, 1), 0);
}

#[test]
fn diamond_step_truncates_towards_zero() {
    let mut g = Grid::new(3, 3, 0i64);
    g.set(0, 0, -3);
    g.set(0, 2, -2);
    g.set(2, 0, 0);
    g.set(2, 2, 0);
    diamond_step(&mut g, 0, 0, 2, 0);
    assert_eq!(*g.get(1, 1), -1);
}

#[test]
fn square_point_on_border_uses_in_grid_neighbours() {
    let mut g = Grid::new(3, 3, 0i64);
    g.set(0, 0, 6);
    g.set(0, 2, 2);
    g.set(1, 1, 10);
    square_point(&mut g, 0, 1, 1, -1);
    assert_eq!(*g.get(0, 1), 6 - 1);
}

#[test]
fn square_point_inside_uses_four_neighbours() {
    let mut g = Grid::new(3, 3, 0i64);
    g.set(0, 1, 4);
    g.set(1, 0, 8);
    g.set(2, 1, 12);
    g.set(1, 2, 16);
    square_point(&mut g, 1, 1, 1, 2);
    assert_eq!(*g.get(1, 1), 10 + 2);
}

#[test]
fn rect_exclusive_and_inclusive_bounds() {
    assert!(is_in_rect((0, 0), (0, 0, 5, 5), false));
    assert!(is_in_rect((4, 4), (0, 0, 5, 5), false));
    assert!(!is_in_rect((5, 4), (0, 0, 5, 5), false));
    assert!(!is_in_rect((4, 5), (0, 0, 5, 5), false));
    assert!(is_in_rect((5, 5), (0, 0, 5, 5), true));
    assert!(!is_in_rect((6, 5), (0, 0, 5, 5), true));
    assert!(!is_in_rect((-1, 0), (0, 0, 5, 5), true));
    assert!(!is_in_rect((0, -1), (0, 0, 5, 5), false));
}

fn octave(side: usize, values: &[i64]) -> Grid<i64> {
    let mut g = Grid::new(side, side, 0i64);
    for (k, &v) in values.iter().enumerate() {
        g.set(k / side, k % side, v);
    }
    g
}

#[test]
fn noise_field_single_octave_is_rescaled() {
    let u = HEIGHT_UNIT;
    let octaves = vec![octave(2, &[-u, 0, u / 2, u])];
    let f = noise_field(2, &octaves, &vec![1], 1, false);
    assert_eq!(f.width, 2);
    assert_eq!(f.height, 2);
    assert_eq!(f.cells, vec![0, u / 2, 750_000, u]);
}

#[test]
fn noise_field_power_sharpens() {
    let u = HEIGHT_UNIT;
    let octaves = vec![octave(2, &[-u, 0, u / 2, u])];
    let f = noise_field(2, &octaves, &vec![5], 2, false);
    assert_eq!(f.cells, vec![u, 0, u / 4, u]);
}

#[test]
fn noise_field_weighted_mean_of_octaves() {
    let u = HEIGHT_UNIT;
    let octaves = vec![octave(2, &[0, 0, u, u]), octave(2, &[0, u, 0, u])];
    let f = noise_field(2, &octaves, &vec![1, 3], 1, false);
    // weighted means: 0, 3/4, 1/4, 1
    assert_eq!(f.cells, vec![0, 750_000, 250_000, u]);
}

#[test]
fn noise_field_island_pulls_edges_down() {
    let octaves = vec![octave(3, &[0; 9])];
    let f = noise_field(3, &octaves, &vec![1], 1, true);
    assert_eq!(f.cells, vec![0, 292_893, 0, 292_893, HEIGHT_UNIT, 292_893, 0, 292_893, 0]);
}

#[test]
fn noise_field_flat_field_gives_zeros() {
    let octaves = vec![octave(2, &[7, 7, 7, 7])];
    let f = noise_field(2, &octaves, &vec![2], 1, false);
    assert_eq!(f.cells, vec![0, 0, 0, 0]);
}

#[test]
fn diamond_square_from_constant_draws_gives_constant_field() {
    let g = diamond_square_from(0, &vec![1, 1, 1, 1], &vec![], false);
    assert_eq!(g.width, 17);
    assert!(g.cells.iter().all(|&v| v == 1));
    let g = diamond_square_from(1, &vec![-7, -7, -7, -7], &vec![0; 40], false);
    assert_eq!(g.width, 33);
    assert!(g.cells.iter().all(|&v| v == -7));
}

#[test]
fn diamond_square_from_centre_is_corner_mean_plus_offset() {
    let g = diamond_square_from(0, &vec![4, 8, -2, 10], &vec![3], false);
    assert_eq!(*g.get(0, 0), 4);
    assert_eq!(*g.get(0, 16), 8);
    assert_eq!(*g.get(16, 0), -2);
    assert_eq!(*g.get(16, 16), 10);
    assert_eq!(*g.get(8, 8), 5 + 3);
    // top edge midpoint: mean of the two top corners and the centre
    assert_eq!(*g.get(0, 8), (4 + 8 + 8) / 3);
}

#[test]
fn diamond_square_from_normalizes() {
    let g = diamond_square_from(0, &vec![0, 0, 0, 16], &vec![], true);
    assert_eq!(*g.get(0, 0), 0);
    assert_eq!(*g.get(16, 16), HEIGHT_UNIT);
    assert!(g.cells.iter().all(|&v| (0..=HEIGHT_UNIT).contains(&v)));
}

#[test]
fn diamond_square_corners_within_side() {
    let g = diamond_square(0, false);
    for (r, c) in [(0, 0), (0, 16), (16, 0), (16, 16)] {
        assert!((-17..=17).contains(g.get(r, c)));
    }
}

#[test]
fn diamond_square_centre_near_corner_mean() {
    for _ in 0..20 {
        let g = diamond_square(0, false);
        let sum = *g.get(0, 0) + *g.get(0, 16) + *g.get(16, 0) + *g.get(16, 16);
        let centre = *g.get(8, 8);
        assert!((centre - sum / 4).abs() <= 16);
    }
}
