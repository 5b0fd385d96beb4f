use samplegrid::bitgrid::BitGrid;
use samplegrid::grid::{GridError, KalmanNode, SampleGrid};

#[test]
fn sampling_extremes_hold_for_any_draw() {
    // Cell (0, 0) has belief zero, cell (1, 0) has belief one.
    let mut grid = SampleGrid::new_from_string("@.\n".to_string()).unwrap();
    for _ in 0..1000 {
        let draw = rand::random::<f32>().to_bits();
        grid.sample(0, 0, draw).unwrap();
        assert!(!grid.gridmap().get(0, 0));
        grid.sample(1, 0, draw).unwrap();
        assert!(grid.gridmap().get(1, 0));
    }
}

#[test]
fn sampling_rate_tracks_belief() {
    let truth = BitGrid::new(1, 1);
    let states = vec![vec![0.5f32.to_bits()]];
    let mut grid = SampleGrid::new_from_grid(states, truth).unwrap();
    let trials = 100000;
    let mut hits = 0;
    for _ in 0..trials {
        grid.sample(0, 0, rand::random::<f32>().to_bits()).unwrap();
        if grid.gridmap().get(0, 0) {
            hits += 1;
        }
    }
    let rate = hits as f64 / trials as f64;
    assert!((rate - 0.5).abs() < 0.02, "rate {}", rate);
}

#[test]
fn observe_converges_with_shrinking_covariance() {
    // One cell whose belief starts at zero while its ground truth is set: the
    // covariance never grows and the state climbs toward one.
    let mut truth = BitGrid::new(1, 1);
    truth.set(0, 0, true);
    let states = vec![vec![0.0f32.to_bits()]];
    let mut grid = SampleGrid::new_from_grid(states, truth).unwrap();
    let mut prev_cov = f32::from_bits(grid.covariance_bits(0, 0).unwrap());
    let mut state = 0.0f32;
    for _ in 0..50 {
        let s = grid.update_sample(0, 0, 25.0f32.to_bits()).unwrap();
        let cov = f32::from_bits(grid.covariance_bits(0, 0).unwrap());
        assert!(cov <= prev_cov);
        prev_cov = cov;
        state = f32::from_bits(s);
    }
    assert!(state > 0.5 && state <= 1.0, "state {}", state);
}

#[test]
fn degenerate_update_is_reported() {
    let mut node = KalmanNode::new(0.5f32.to_bits(), 1.0f32.to_bits());
    // A noiseless measurement collapses the covariance to zero...
    node.update(1.0f32.to_bits(), 0.0f32.to_bits()).unwrap();
    assert_eq!(node.covariance_bits(), 0.0f32.to_bits());
    // ...after which another noiseless update would divide zero by zero.
    let r = node.update(1.0f32.to_bits(), 0.0f32.to_bits());
    assert_eq!(r, Err(GridError::DegenerateUpdate));
}

#[test]
fn out_of_bounds_coordinates_are_reported() {
    let mut grid = SampleGrid::new_from_string("@.\n".to_string()).unwrap();
    assert_eq!(grid.sample(2, 0, 0), Err(GridError::OutOfBounds));
    assert_eq!(grid.sample(0, 1, 0), Err(GridError::OutOfBounds));
    assert_eq!(grid.update_sample(5, 5, 0), Err(GridError::OutOfBounds));
    assert_eq!(grid.state_bits(2, 0), Err(GridError::OutOfBounds));
    assert_eq!(grid.covariance_bits(0, 9), Err(GridError::OutOfBounds));
    assert_eq!(grid.init_gridmap_radius(2, 0, 1), Err(GridError::OutOfBounds));
    assert_eq!(grid.init_gridmap_area(0, 0, 3, 1), Err(GridError::OutOfBounds));
}

#[test]
fn sample_all_uses_one_draw_per_cell() {
    let mut grid = SampleGrid::new_from_string("@.\n.@\n".to_string()).unwrap();
    // Draws are taken per cell in flat column order; a draw of zero realizes
    // every cell with nonzero belief.
    let draws = vec![0u32; 4];
    grid.sample_all(&draws).unwrap();
    assert!(!grid.gridmap().get(0, 0));
    assert!(grid.gridmap().get(1, 0));
    assert!(grid.gridmap().get(0, 1));
    assert!(!grid.gridmap().get(1, 1));
    let short = vec![0u32; 3];
    assert_eq!(grid.sample_all(&short), Err(GridError::MalformedInput));
}

#[test]
fn area_synchronization_leaves_the_rest_untouched() {
    let mut grid = SampleGrid::new_from_string("..\n..\n".to_string()).unwrap();
    grid.init_gridmap_area(0, 0, 1, 2).unwrap();
    assert_eq!(grid.gridmap().render_text(), ".@\n.@\n");
}

#[test]
fn explicit_matrix_construction_synchronizes_the_realization() {
    let mut truth = BitGrid::new(2, 1);
    truth.set(1, 0, true);
    let states = vec![vec![0.0f32.to_bits()], vec![0.25f32.to_bits()]];
    let grid = SampleGrid::new_from_grid(states, truth).unwrap();
    assert!(!grid.gridmap().get(0, 0));
    assert!(grid.gridmap().get(1, 0));
    assert_eq!(grid.covariance_bits(1, 0), Ok(1.0f32.to_bits()));
    assert!(!grid.ground_truth().get(0, 0));
    assert!(grid.ground_truth().get(1, 0));
}

#[test]
fn explicit_matrix_shape_is_checked() {
    let truth = BitGrid::new(2, 1);
    let ragged = vec![vec![0u32], vec![0u32, 0u32]];
    assert!(matches!(
        SampleGrid::new_from_grid(ragged, truth),
        Err(GridError::MalformedInput)
    ));
    let truth = BitGrid::new(3, 1);
    let narrow = vec![vec![0u32], vec![0u32]];
    assert!(matches!(
        SampleGrid::new_from_grid(narrow, truth),
        Err(GridError::MalformedInput)
    ));
}

#[test]
fn blurring_keeps_covariance_and_bitmaps() {
    let mut grid = SampleGrid::new_from_string("@.\n.@\n".to_string()).unwrap();
    let identity = vec![vec![1.0f32.to_bits()]];
    grid.blur_with_kernel(&identity).unwrap();
    assert_eq!(grid.state_bits(0, 0), Ok(0.0f32.to_bits()));
    assert_eq!(grid.state_bits(1, 0), Ok(1.0f32.to_bits()));
    assert_eq!(grid.covariance_bits(0, 0), Ok(1.0f32.to_bits()));
    assert_eq!(grid.ground_truth().render_text(), "@.\n.@\n");
    let empty: Vec<Vec<u32>> = Vec::new();
    assert_eq!(grid.blur_with_kernel(&empty), Err(GridError::MalformedInput));
}

#[test]
fn bitmap_round_trip_through_rendering() {
    let mut bits = BitGrid::new(3, 2);
    assert_eq!(bits.render_text(), "@@@\n@@@\n");
    bits.set(0, 0, true);
    bits.set(2, 1, true);
    assert_eq!(bits.render_text(), ".@@\n@@.\n");
    assert_eq!(bits.get(0, 0), true);
    assert_eq!(bits.get(1, 0), false);
}

#[test]
fn radius_synchronization_clips_at_the_far_corner() {
    let mut grid = SampleGrid::new_from_string(".....\n.....\n.....\n.....\n".to_string()).unwrap();
    grid.init_gridmap_radius(4, 3, 0).unwrap();
    // The neighborhood of half-width one around the corner cell covers columns
    // three and four of the last two rows; everything else stays clear.
    assert_eq!(grid.gridmap().render_text(), "@@@@@\n@@@@@\n@@@..\n@@@..\n");
}

#[test]
fn multi_byte_free_characters_parse() {
    let grid = SampleGrid::new_from_string("é.\n@.\n".to_string()).unwrap();
    assert_eq!(grid.width(), 2);
    assert_eq!(grid.height(), 2);
    assert_eq!(grid.state_bits(0, 0), Ok(1.0f32.to_bits()));
    assert_eq!(grid.state_bits(0, 1), Ok(0.0f32.to_bits()));
    assert_eq!(grid.ground_truth().render_text(), "..\n@.\n");
}

#[test]
fn grid_level_degenerate_update_is_reported() {
    let mut truth = BitGrid::new(1, 1);
    truth.set(0, 0, true);
    let states = vec![vec![0.5f32.to_bits()]];
    let mut grid = SampleGrid::new_from_grid(states, truth).unwrap();
    grid.update_sample(0, 0, 0.0f32.to_bits()).unwrap();
    assert_eq!(grid.covariance_bits(0, 0), Ok(0.0f32.to_bits()));
    assert_eq!(
        grid.update_sample(0, 0, 0.0f32.to_bits()),
        Err(GridError::DegenerateUpdate)
    );
}

#[test]
fn observing_a_clear_cell_pulls_the_belief_down() {
    // Belief starts at one while the ground truth is clear: observations feed
    // a measurement of zero and the belief sinks toward it.
    let truth = BitGrid::new(1, 1);
    let states = vec![vec![1.0f32.to_bits()]];
    let mut grid = SampleGrid::new_from_grid(states, truth).unwrap();
    let mut state = 1.0f32;
    for _ in 0..50 {
        state = f32::from_bits(grid.update_sample(0, 0, 25.0f32.to_bits()).unwrap());
    }
    assert!(state >= 0.0 && state < 0.5, "state {}", state);
}
