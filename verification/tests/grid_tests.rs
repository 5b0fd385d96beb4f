use samplegrid::grid::{GridError, KalmanNode, SampleGrid};

/// The Gaussian kernel used for smoothing: unnormalized weights
/// `exp(-(dx^2 + dy^2) / (2 sigma^2))`, then divided by their sum.
fn gaussian_kernel(size: usize, sigma: f32) -> Vec<Vec<f32>> {
    let mean = (size / 2) as f32;
    let mut kernel = vec![vec![0.0f32; size]; size];
    let mut sum = 0.0f32;
    for i in 0..size {
        for j in 0..size {
            let dx = i as f32 - mean;
            let dy = j as f32 - mean;
            let v = (-(dx * dx + dy * dy) / (2.0 * sigma * sigma)).exp();
            kernel[i][j] = v;
            sum += v;
        }
    }
    for i in 0..size {
        for j in 0..size {
            kernel[i][j] /= sum;
        }
    }
    kernel
}

fn kernel_bits(kernel: Vec<Vec<f32>>) -> Vec<Vec<u32>> {
    kernel.into_iter().map(|row| row.into_iter().map(f32::to_bits).collect()).collect()
}

#[test]
fn test_samplegrid_new() {
    let grid = SampleGrid::new_with_size(128, 128);
    assert_eq!(grid.height(), 128);
    assert_eq!(grid.width(), 128);
    let states = grid.states_matrix();
    assert_eq!(states.len(), 128);
    assert_eq!(states[0].len(), 128);
}

#[test]
fn test_samplegrid_create() {
    let map_str = ".....\n@@.@.\n.@.@.\n.@.@.\n.....\n....@\n";
    let mut grid = SampleGrid::new_from_string(map_str.to_string()).unwrap();
    assert_eq!(grid.ground_truth().render_text(), map_str);
    assert_eq!(grid.state_bits(0, 0), Ok(1.0f32.to_bits()));
    assert_eq!(grid.state_bits(1, 0), Ok(1.0f32.to_bits()));
    assert_eq!(grid.state_bits(0, 1), Ok(0.0f32.to_bits()));
    // Construction leaves the realization bitmap clear; it reflects the
    // beliefs once it is synchronized.
    grid.init_gridmap();
    assert_eq!(grid.gridmap().get(0, 0), true);
    assert_eq!(grid.gridmap().get(1, 0), true);
    assert_eq!(grid.gridmap().get(0, 1), false);
}

#[test]
fn test_gridmap_init() {
    let mut grid =
        SampleGrid::new_from_string("@....\n.....\n.....\n.....\n".to_string()).unwrap();
    grid.init_gridmap_radius(0, 0, 2).unwrap();
    grid.init_ground_truth();
    assert_eq!(grid.ground_truth().render_text(), "@....\n.....\n.....\n.....\n");
    assert_eq!(grid.gridmap().render_text(), "@..@@\n...@@\n...@@\n@@@@@\n");
}

#[test]
fn test_blur() {
    let mut grid =
        SampleGrid::new_from_string("@....\n@@...\n@@@..\n@@@..\n@@...\n".to_string()).unwrap();
    let kernel = kernel_bits(gaussian_kernel(3, 1.0));
    grid.blur_with_kernel(&kernel).unwrap();
    let expected: Vec<Vec<f32>> = vec![
        vec![0.19895503, 0.07511361, 0.0, 0.0, 0.0],
        vec![0.60209, 0.32279643, 0.07511361, 0.07511361, 0.19895503],
        vec![0.9248864, 0.6772036, 0.39791006, 0.39791006, 0.60209],
        vec![1.0, 0.9248864, 0.801045, 0.801045, 0.9248864],
        vec![1.0, 1.0, 1.0, 1.0, 1.0],
    ];
    let states = grid.states_matrix();
    for x in 0..5 {
        for y in 0..5 {
            assert_eq!(states[x][y], expected[x][y].to_bits(), "cell ({}, {})", x, y);
        }
    }
}

#[test]
fn test_kalman_filter() {
    let mut node = KalmanNode::new(60.0f32.to_bits(), 225.0f32.to_bits());
    let state = node.update(49.03f32.to_bits(), 25.0f32.to_bits()).unwrap();
    assert_eq!(state, 50.127f32.to_bits());
    assert_eq!(node.covariance_bits(), 22.500006f32.to_bits());
    let state = node.update(48.44f32.to_bits(), 25.0f32.to_bits()).unwrap();
    assert_eq!(state, 49.327892f32.to_bits());
    assert_eq!(node.covariance_bits(), 11.842108f32.to_bits());
}

#[test]
fn ragged_map_is_refused() {
    assert!(matches!(
        SampleGrid::new_from_string("..\n...\n".to_string()),
        Err(GridError::MalformedInput)
    ));
    assert!(matches!(
        SampleGrid::new_from_string(String::new()),
        Err(GridError::MalformedInput)
    ));
    assert!(matches!(
        SampleGrid::new_from_string("\n\n".to_string()),
        Err(GridError::MalformedInput)
    ));
}

#[test]
fn missing_final_line_break_is_supplied() {
    let grid = SampleGrid::new_from_string(".@\n@.".to_string()).unwrap();
    assert_eq!(grid.width(), 2);
    assert_eq!(grid.height(), 2);
    assert_eq!(grid.ground_truth().render_text(), ".@\n@.\n");
}

#[test]
fn any_character_but_the_obstacle_mark_is_free() {
    let grid = SampleGrid::new_from_string("ab\n@.\n".to_string()).unwrap();
    assert_eq!(grid.state_bits(0, 0), Ok(1.0f32.to_bits()));
    assert_eq!(grid.state_bits(1, 0), Ok(1.0f32.to_bits()));
    assert_eq!(grid.state_bits(0, 1), Ok(0.0f32.to_bits()));
    assert_eq!(grid.ground_truth().render_text(), "..\n@.\n");
}
