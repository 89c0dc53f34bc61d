//! Tests of the molecular-dynamics library parts: greeting, cell lists,
//! canvas rasterizing, thermostat schedule and lattice side.

use md_ising::md::layout::{FrameShape, LayoutFault, check_layout};
use md_ising::md::fluid::{ForceMethod, bin_by_cell, cell_pairs, neighbor_cells};
use md_ising::md::greeting;
use md_ising::md::render::Canvas;
use md_ising::md::simulate::{
    THERMOSTAT_INTERVAL, ScheduleFault, check_schedule, thermostat_due, thermostat_events,
};
use md_ising::md::system::side;

const RC: f64 = 2.5;

/// Cell grid of a box (the course rule nx = max(1, floor(L / rc))).
fn cell_geometry(lx: f64, ly: f64) -> (usize, usize, f64, f64) {
    let nx = ((lx / RC).floor() as usize).max(1);
    let ny = ((ly / RC).floor() as usize).max(1);
    (nx, ny, lx / nx as f64, ly / ny as f64)
}

fn cell_index(x: f64, y: f64, wx: f64, wy: f64, nx: usize, ny: usize) -> usize {
    let cx = ((x / wx).floor() as usize).min(nx - 1);
    let cy = ((y / wy).floor() as usize).min(ny - 1);
    cy * nx + cx
}

fn cells_of(pos: &[[f64; 2]], lx: f64, ly: f64) -> (Vec<usize>, usize, usize) {
    let (nx, ny, wx, wy) = cell_geometry(lx, ly);
    (pos.iter().map(|p| cell_index(p[0], p[1], wx, wy, nx, ny)).collect(), nx, ny)
}

fn collect_pairs(pos: &[[f64; 2]], lx: f64, ly: f64) -> Vec<(usize, usize)> {
    let (cell_of, nx, ny) = cells_of(pos, lx, ly);
    let cells = bin_by_cell(&cell_of, nx * ny);
    cell_pairs(&cell_of, &cells, nx, ny)
}

#[test]
fn greeting_says_hello_world() {
    assert_eq!(greeting(), "Hello, world!");
}

#[test]
fn force_method_has_both_variants_and_minimal_traits() {
    assert_eq!(ForceMethod::Naive, ForceMethod::Naive);
    assert_eq!(ForceMethod::Cells, ForceMethod::Cells);
    assert_ne!(ForceMethod::Naive, ForceMethod::Cells);
    let copied = ForceMethod::Cells;
    assert_eq!(copied, ForceMethod::Cells);
    let dbg = format!("{:?}", ForceMethod::Naive);
    assert_eq!(dbg, "Naive");
}

#[test]
fn force_method_names_parse() {
    assert_eq!(ForceMethod::from_name("naive"), Some(ForceMethod::Naive));
    assert_eq!(ForceMethod::from_name("cells"), Some(ForceMethod::Cells));
    assert_eq!(ForceMethod::from_name("bogus"), None);
    assert_eq!(ForceMethod::from_name("Cells"), None);
    assert_eq!(ForceMethod::from_name(""), None);
}

#[test]
fn neighbor_cells_of_interior_cell_are_nine_unique() {
    let n = neighbor_cells(5, 4, 4);
    assert_eq!(n.len(), 9);
    let mut expected: Vec<usize> = vec![0, 1, 2, 4, 5, 6, 8, 9, 10];
    let mut got = n.clone();
    got.sort_unstable();
    expected.sort_unstable();
    assert_eq!(got, expected);
    let mut s = n.clone();
    s.sort_unstable();
    s.dedup();
    assert_eq!(s.len(), n.len());
}

#[test]
fn neighbor_cells_wrap_at_opposite_edges() {
    let n = neighbor_cells(0, 4, 4);
    assert_eq!(n.len(), 9);
    for d in [0usize, 3, 12, 15] {
        assert!(n.contains(&d), "cell {d} must be a wrapped neighbor of 0");
    }
    let mut expected: Vec<usize> = vec![0, 1, 3, 4, 5, 7, 12, 13, 15];
    let mut got = n.clone();
    got.sort_unstable();
    expected.sort_unstable();
    assert_eq!(got, expected);
}

#[test]
fn neighbor_cells_deduplicate_in_two_cell_box() {
    for c in 0..4 {
        let n = neighbor_cells(c, 2, 2);
        assert_eq!(n.len(), 4, "cell {c} must yield exactly 4 distinct cells");
        for d in 0..4 {
            assert!(n.contains(&d));
        }
    }
}

#[test]
fn neighbor_cells_collapse_in_one_cell_box() {
    let n = neighbor_cells(0, 1, 1);
    assert_eq!(n.len(), 1);
    assert_eq!(n, vec![0]);
}

#[test]
fn neighbor_cells_keep_first_occurrence_order() {
    // Offsets run dy = -1, 0, 1 (outer) and dx = -1, 0, 1 (inner).
    assert_eq!(neighbor_cells(5, 4, 4), vec![0, 1, 2, 4, 5, 6, 8, 9, 10]);
    assert_eq!(neighbor_cells(0, 2, 2), vec![3, 2, 1, 0]);
    // A cell index past the grid wraps by rows, as in the periodic formula.
    assert_eq!(neighbor_cells(17, 4, 4), neighbor_cells(1, 4, 4));
}

#[test]
fn build_cells_places_known_positions_into_known_cells() {
    let pos: Vec<[f64; 2]> = vec![
        [0.1, 0.1],
        [0.2, 0.3],
        [2.6, 0.2],
        [7.7, 7.8],
        [9.9, 9.9],
        [5.0, 5.0],
    ];
    let (cell_of, nx, ny) = cells_of(&pos, 10.0, 10.0);
    let cells = bin_by_cell(&cell_of, nx * ny);
    assert_eq!(cells.len(), nx * ny, "one bin per cell");
    assert_eq!(cells.iter().map(|c| c.len()).sum::<usize>(), pos.len());
    for (i, c) in cell_of.iter().enumerate() {
        assert!(cells[*c].contains(&i), "particle {i} must be in its cell {c}");
    }
    assert!(cells[0].contains(&0) && cells[0].contains(&1));
    assert!(cells[15].contains(&3) && cells[15].contains(&4));
    assert!(cells.iter().any(|c| c.is_empty()));
    assert_eq!(cells[10], vec![5]);
    assert_eq!(cells[1], vec![2]);
}

#[test]
fn build_cells_places_particles_near_periodic_boundaries() {
    let eps = 1e-9;
    let pos: Vec<[f64; 2]> = vec![
        [eps, eps],
        [10.0 - eps, 5.0],
        [5.0, 10.0 - eps],
        [10.0 - eps, 10.0 - eps],
    ];
    let (cell_of, nx, ny) = cells_of(&pos, 10.0, 10.0);
    let cells = bin_by_cell(&cell_of, nx * ny);
    for (i, c) in cell_of.iter().enumerate() {
        assert!(cells[*c].contains(&i), "boundary particle {i} in cell {c}");
    }
    assert_eq!(cell_of[0], 0);
    assert_eq!(cell_of[3], nx * ny - 1);
}

#[test]
fn build_cells_two_cell_wide_box() {
    let pos: Vec<[f64; 2]> = (0..8).map(|i| [0.7 + (i as f64 % 4.0), 0.7 + (i as f64 / 4.0)]).collect();
    let (cell_of, nx, ny) = cells_of(&pos, 5.0, 5.0);
    let cells = bin_by_cell(&cell_of, nx * ny);
    assert_eq!(cells.len(), 4);
    let mut all: Vec<usize> = cells.iter().flatten().copied().collect();
    all.sort_unstable();
    assert_eq!(all, (0..8).collect::<Vec<usize>>());
}

#[test]
fn bins_list_particles_in_increasing_order() {
    let cell_of = vec![2, 0, 2, 1, 0, 2];
    let cells = bin_by_cell(&cell_of, 4);
    assert_eq!(cells, vec![vec![1, 4], vec![3], vec![0, 2, 5], vec![]]);
}

#[test]
fn pair_enumeration_normal_multicell_configuration() {
    let pos: Vec<[f64; 2]> = vec![[0.1, 0.1], [9.9, 9.9], [2.6, 0.2], [7.7, 7.8]];
    let pairs = collect_pairs(&pos, 10.0, 10.0);
    assert!(pairs.iter().all(|&(i, j)| i < j));
    let mut sorted = pairs.clone();
    sorted.sort_unstable();
    sorted.dedup();
    assert_eq!(sorted.len(), pairs.len(), "no pair may appear twice");
    let mut expected: Vec<(usize, usize)> = vec![(0, 1), (0, 2), (0, 3), (1, 3)];
    expected.sort_unstable();
    assert_eq!(sorted, expected);
}

#[test]
fn pair_enumeration_two_cell_box_counts_each_pair_once() {
    let pos: Vec<[f64; 2]> = (0..8).map(|i| [0.7 + (i as f64 % 4.0), 0.7 + (i as f64 / 4.0)]).collect();
    let pairs = collect_pairs(&pos, 5.0, 5.0);
    assert!(pairs.iter().all(|&(i, j)| i < j));
    let mut sorted = pairs.clone();
    sorted.sort_unstable();
    sorted.dedup();
    assert_eq!(sorted.len(), pairs.len(), "wrapped duplicates must not duplicate pairs");
    assert_eq!(pairs.len(), pos.len() * (pos.len() - 1) / 2);
}

#[test]
fn pair_enumeration_one_cell_box_all_pairs_once() {
    let pos: Vec<[f64; 2]> = vec![[0.1, 0.1], [0.3, 0.7], [0.5, 0.2], [0.8, 0.9], [0.2, 0.5]];
    let pairs = collect_pairs(&pos, 1.0, 1.0);
    assert!(pairs.iter().all(|&(i, j)| i < j));
    let mut sorted = pairs.clone();
    sorted.sort_unstable();
    sorted.dedup();
    assert_eq!(sorted.len(), pairs.len());
    assert_eq!(pairs.len(), pos.len() * (pos.len() - 1) / 2);
}

#[test]
fn pair_enumeration_includes_periodic_edge_neighbors() {
    let pos: Vec<[f64; 2]> = vec![[0.1, 5.0], [9.9, 5.0]];
    let pairs = collect_pairs(&pos, 10.0, 10.0);
    assert!(pairs.contains(&(0, 1)), "periodic edge pair must be enumerated");
    assert_eq!(pairs.len(), 1);
}

#[test]
fn pairs_are_grouped_by_first_particle() {
    // In a 4x1 strip cells 0 and 2 are not neighbours; each particle scans
    // its neighbour cells in the order (c-1, c, c+1), wrapped.
    let cell_of = vec![0, 2, 1, 3, 0];
    let cells = bin_by_cell(&cell_of, 4);
    let pairs = cell_pairs(&cell_of, &cells, 4, 1);
    assert_eq!(pairs, vec![(0, 3), (0, 4), (0, 2), (1, 2), (1, 3), (2, 4), (3, 4)]);
}

#[test]
fn canvas_starts_opaque_black_and_supports_disc() {
    let mut c = Canvas::new(16, 16);
    assert_eq!(c.rgba.len(), 16 * 16 * 4);
    assert!(c.rgba.chunks(4).all(|px| px[3] == 255), "canvas must start opaque");
    c.filled_disc(8, 8, 3, [255, 0, 0, 255]);
    assert_eq!(c.rgba[(8 * 16 + 8) * 4], 255);
    assert_eq!(c.rgba[(0 * 16 + 0) * 4], 0);
}

#[test]
fn line_draws_straight_horizontal() {
    let mut c = Canvas::new(16, 4);
    c.line(2, 2, 13, 2, [255; 4]);
    assert_eq!(c.rgba[(2 * 16 + 2) * 4], 255);
    assert_eq!(c.rgba[(2 * 16 + 13) * 4], 255);
}

fn lit(c: &Canvas, x: usize, y: usize) -> bool {
    c.rgba[(y * c.width + x) * 4] == 255
}

#[test]
fn disc_covers_exactly_the_integer_disc() {
    let mut c = Canvas::new(16, 16);
    c.filled_disc(8, 8, 3, [255, 0, 0, 255]);
    for y in 0..16usize {
        for x in 0..16usize {
            let (dx, dy) = (x as i64 - 8, y as i64 - 8);
            assert_eq!(lit(&c, x, y), dx * dx + dy * dy <= 9, "pixel ({x},{y})");
        }
    }
    // Green, blue and alpha of a disc pixel are the disc color.
    let i = (8 * 16 + 8) * 4;
    assert_eq!(&c.rgba[i..i + 4], &[255, 0, 0, 255]);
}

#[test]
fn disc_near_the_corner_is_clipped() {
    let mut c = Canvas::new(8, 8);
    c.filled_disc(0, 0, 2, [255, 255, 255, 255]);
    assert!(lit(&c, 0, 0) && lit(&c, 2, 0) && lit(&c, 1, 1) && lit(&c, 0, 2));
    assert!(!lit(&c, 2, 2) && !lit(&c, 3, 0));
}

#[test]
fn line_interpolates_diagonals_and_reversed_ends() {
    let mut c = Canvas::new(8, 8);
    c.line(0, 0, 6, 3, [255; 4]);
    // steps = 6; y = floor(s * 3 / 6) for s = 0..=6.
    let expected = [(0, 0), (1, 0), (2, 1), (3, 1), (4, 2), (5, 2), (6, 3)];
    for y in 0..8 {
        for x in 0..8 {
            assert_eq!(lit(&c, x, y), expected.contains(&(x, y)), "pixel ({x},{y})");
        }
    }
    let mut r = Canvas::new(8, 8);
    r.line(6, 3, 0, 0, [255; 4]);
    // Reversed: x = 6 - s, y = 3 - ceil(s * 3 / 6).
    let expected = [(6, 3), (5, 2), (4, 2), (3, 1), (2, 1), (1, 0), (0, 0)];
    for y in 0..8 {
        for x in 0..8 {
            assert_eq!(lit(&r, x, y), expected.contains(&(x, y)), "pixel ({x},{y})");
        }
    }
}

#[test]
fn set_ignores_out_of_bounds_and_fill_paints_everything() {
    let mut c = Canvas::new(3, 2);
    let before = c.rgba.clone();
    c.set(3, 0, [1, 2, 3, 4]);
    c.set(0, 2, [1, 2, 3, 4]);
    assert_eq!(c.rgba, before);
    c.set(2, 1, [1, 2, 3, 4]);
    assert_eq!(&c.rgba[20..24], &[1, 2, 3, 4]);
    c.fill([9, 8, 7, 6]);
    assert!(c.rgba.chunks(4).all(|px| px == [9, 8, 7, 6]));
    let px = c.into_pixels();
    assert_eq!(px.len(), 24);
}

#[test]
fn thermostat_event_count_is_schedule_b() {
    assert_eq!(THERMOSTAT_INTERVAL, 50);
    assert_eq!(thermostat_events(2000), 1 + 2000 / 50);
    assert_eq!(thermostat_events(100), 1 + 100 / 50);
    assert_eq!(thermostat_events(0), 1);
}

#[test]
fn thermostat_rescales_after_every_fiftieth_step() {
    let due: Vec<usize> = (1..=200).filter(|&s| thermostat_due(s)).collect();
    assert_eq!(due, vec![50, 100, 150, 200]);
    assert_eq!(thermostat_events(200), 1 + due.len());
    assert_eq!(thermostat_events(49), 1);
}

#[test]
fn side_detects_perfect_squares() {
    assert_eq!(side(100), Some(10));
    assert_eq!(side(16), Some(4));
    assert_eq!(side(50), None);
    assert_eq!(side(2), None);
}

#[test]
fn side_handles_edges() {
    assert_eq!(side(0), Some(0));
    assert_eq!(side(1), Some(1));
    assert_eq!(side(400), Some(20));
    assert_eq!(side(399), None);
    assert_eq!(side(usize::MAX), None);
    let big = 4_294_967_295usize;
    assert_eq!(side(big), None);
}

#[test]
fn schedule_accepts_the_contract_run_and_returns_the_side() {
    assert_eq!(check_schedule(100, 10000, 50), Ok(10));
    assert_eq!(check_schedule(1, 1, 1), Ok(1));
}

#[test]
fn schedule_rejects_each_fault_in_order() {
    assert_eq!(check_schedule(99, 10000, 50), Err(ScheduleFault::NotSquare));
    // The square check comes first, even when every other check fails too.
    assert_eq!(check_schedule(2, 0, 0), Err(ScheduleFault::NotSquare));
    assert_eq!(check_schedule(16, 0, 0), Err(ScheduleFault::ZeroSampleEvery));
    assert_eq!(check_schedule(16, 0, 50), Err(ScheduleFault::ZeroSteps));
    assert_eq!(check_schedule(16, 120, 50), Err(ScheduleFault::StepsNotMultiple));
}

fn shapes(n: usize, steps: &[usize]) -> Vec<FrameShape> {
    steps.iter().map(|&step| FrameShape { step, positions: n, velocities: n }).collect()
}

#[test]
fn layout_of_a_well_formed_run_is_accepted() {
    assert_eq!(check_layout("velocity-verlet", 4, 150, 50, &shapes(4, &[50, 100, 150])), Ok(()));
}

#[test]
fn layout_rejects_the_wrong_integrator_first() {
    assert_eq!(check_layout("euler", 4, 150, 0, &Vec::new()), Err(LayoutFault::WrongIntegrator));
}

#[test]
fn layout_rejects_a_schedule_that_does_not_divide() {
    assert_eq!(check_layout("velocity-verlet", 4, 150, 0, &Vec::new()), Err(LayoutFault::StepsNotMultiple));
    assert_eq!(check_layout("velocity-verlet", 4, 150, 40, &Vec::new()), Err(LayoutFault::StepsNotMultiple));
}

#[test]
fn layout_rejects_a_missing_frame() {
    assert_eq!(
        check_layout("velocity-verlet", 4, 150, 50, &shapes(4, &[50, 100])),
        Err(LayoutFault::FrameCount { expected: 3, found: 2 })
    );
}

#[test]
fn layout_names_the_first_bad_frame() {
    assert_eq!(
        check_layout("velocity-verlet", 4, 150, 50, &shapes(4, &[50, 90, 140])),
        Err(LayoutFault::FrameStep { index: 1, step: 90, expected: 100 })
    );
    let mut frames = shapes(4, &[50, 100, 150]);
    frames[2].velocities = 3;
    frames[1].positions = 5;
    assert_eq!(check_layout("velocity-verlet", 4, 150, 50, &frames), Err(LayoutFault::ArrayLength { index: 1 }));
}

#[test]
fn line_reaches_both_endpoints_in_every_direction() {
    for &(x0, y0, x1, y1) in &[(1, 1, 14, 6), (14, 6, 1, 1), (3, 7, 12, 0), (5, 5, 5, 5), (0, 7, 0, 0)] {
        let mut c = Canvas::new(16, 8);
        c.line(x0, y0, x1, y1, [9, 9, 9, 255]);
        assert_eq!(c.rgba[(y0 * 16 + x0) * 4], 9, "start of ({x0},{y0})-({x1},{y1})");
        assert_eq!(c.rgba[(y1 * 16 + x1) * 4], 9, "end of ({x0},{y0})-({x1},{y1})");
    }
}

#[test]
fn horizontal_line_covers_every_pixel_between_endpoints() {
    let mut c = Canvas::new(16, 4);
    c.line(13, 1, 2, 1, [7, 7, 7, 255]);
    for x in 0..16 {
        let lit = c.rgba[(16 + x) * 4] == 7;
        assert_eq!(lit, (2..=13).contains(&x), "x = {x}");
    }
}

#[test]
fn long_horizontal_line_draws_every_pixel() {
    let mut c = Canvas::new(50, 1);
    c.line(0, 0, 49, 0, [5, 5, 5, 255]);
    for x in 0..50 {
        assert_eq!(c.rgba[x * 4], 5, "x = {x}");
    }
}

#[test]
fn check_error_message_is_its_text() {
    let e = md_ising::md::layout::CheckError("expected 3 frames, found 2".to_string());
    assert_eq!(e.message(), "expected 3 frames, found 2");
}
