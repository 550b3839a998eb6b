use project_zyheeda_pathfinding::components::compute_path_method::straight_line::{
	Line, LowStepper, StraightLine,
};
use project_zyheeda_pathfinding::components::compute_path_method::straight_line_wide::{
	has_line_of_sight, LineWide, StraightLineWide,
};
use project_zyheeda_pathfinding::traits::computable_grid::{ComputeGrid, ComputeGridNode};
use project_zyheeda_pathfinding::traits::compute_path::{ComputePath, NewComputer, ObstacleSet};

fn node(x: i32, y: i32) -> ComputeGridNode {
	ComputeGridNode::new(x, y)
}

fn nodes(cells: &[(i32, i32)]) -> Vec<ComputeGridNode> {
	cells.iter().map(|(x, y)| node(*x, *y)).collect()
}

#[test]
fn line_along_x() {
	assert_eq!(
		nodes(&[(0, 0), (1, 0), (2, 1), (3, 1), (4, 2), (5, 2)]),
		Line::rasterize(node(0, 0), node(5, 2))
	);
}

#[test]
fn line_along_y() {
	assert_eq!(
		nodes(&[(0, 0), (0, 1), (1, 2), (1, 3), (2, 4), (2, 5)]),
		Line::rasterize(node(0, 0), node(2, 5))
	);
}

#[test]
fn line_towards_lower_coordinates_begins_at_its_start() {
	assert_eq!(
		nodes(&[(3, 1), (2, 1), (1, 0), (0, 0), (-1, -1), (-2, -1)]),
		Line::rasterize(node(3, 1), node(-2, -1))
	);
}

#[test]
fn line_rounds_a_half_down() {
	assert_eq!(
		nodes(&[(0, 0), (1, 0), (2, 1), (3, 1), (4, 2)]),
		Line::rasterize(node(0, 0), node(4, 2))
	);
}

#[test]
fn line_diagonal_and_straight() {
	assert_eq!(
		nodes(&[(0, 0), (1, 1), (2, 2), (3, 3), (4, 4)]),
		Line::rasterize(node(0, 0), node(4, 4))
	);
	assert_eq!(
		nodes(&[(2, 1), (2, 0), (2, -1)]),
		Line::rasterize(node(2, 1), node(2, -1))
	);
	assert_eq!(nodes(&[(7, -7)]), Line::rasterize(node(7, -7), node(7, -7)));
}

#[test]
fn line_swapped_is_line_reversed() {
	let ends = nodes(&[(0, 0), (5, 2), (2, 5), (-3, 4), (4, -4), (-1, -6), (7, 0), (0, 7)]);

	for a in &ends {
		for b in &ends {
			let mut back = Line::rasterize(*b, *a);
			back.reverse();
			assert_eq!(Line::rasterize(*a, *b), back, "{a:?} {b:?}");
		}
	}
}

#[test]
fn line_has_one_cell_per_step_along_its_main_axis() {
	let cells = Line::rasterize(node(-4, 3), node(9, -2));

	assert_eq!(14, cells.len());
	for (i, cell) in cells.iter().enumerate() {
		assert_eq!(-4 + i as i32, cell.x);
	}
}

#[test]
fn line_steps_from_the_lower_end() {
	let mut line = Line::new(node(3, 1), node(-2, -1));
	let mut cells = vec![];

	while let Some(cell) = line.next() {
		cells.push(cell);
	}

	assert_eq!(
		nodes(&[(-2, -1), (-1, -1), (0, 0), (1, 0), (2, 1), (3, 1)]),
		cells
	);
	assert_eq!(None, line.next());
}

#[test]
fn line_across_the_whole_range() {
	let cells = Line::rasterize(node(i32::MAX - 2, i32::MIN), node(i32::MAX, i32::MIN + 1));

	assert_eq!(
		nodes(&[
			(i32::MAX - 2, i32::MIN),
			(i32::MAX - 1, i32::MIN),
			(i32::MAX, i32::MIN + 1)
		]),
		cells
	);
}

#[test]
fn low_stepper_steps() {
	let mut stepper = LowStepper {
		v_low: 4,
		i_low: -1,
		d_low: 2,
		d_high: 5,
		d: -1,
	};

	stepper.step();
	assert_eq!((4, 3), (stepper.v_low, stepper.d));

	stepper.step();
	assert_eq!((3, -3), (stepper.v_low, stepper.d));
}

#[test]
fn straight_line_path() {
	let planner = StraightLine::new(ComputeGrid::default(), ObstacleSet::new());

	assert_eq!(
		nodes(&[(5, 2), (4, 2), (3, 1), (2, 1), (1, 0), (0, 0)]),
		planner.path(node(5, 2), node(0, 0))
	);
	assert_eq!(nodes(&[(1, 1)]), planner.path(node(1, 1), node(1, 1)));
	assert!(planner.draw_connections());
}

#[test]
fn wide_line_adds_both_sides_of_diagonal_steps() {
	assert_eq!(
		nodes(&[(0, 0), (1, 0), (0, 1), (1, 1), (2, 1), (1, 2), (2, 2)]),
		LineWide::rasterize(node(0, 0), node(2, 2))
	);
	assert_eq!(
		nodes(&[(0, 0), (1, 0), (2, 0), (1, 1), (2, 1), (3, 1)]),
		LineWide::rasterize(node(0, 0), node(3, 1))
	);
}

#[test]
fn wide_line_along_an_axis_is_the_line() {
	assert_eq!(
		Line::rasterize(node(-2, 3), node(4, 3)),
		LineWide::rasterize(node(-2, 3), node(4, 3))
	);
}

#[test]
fn wide_line_hands_out_its_cells_in_order() {
	let mut line = LineWide::new(node(0, 0), node(1, 1));
	let mut cells = vec![];

	while let Some(cell) = line.next() {
		cells.push(cell);
	}

	assert_eq!(nodes(&[(0, 0), (1, 0), (0, 1), (1, 1)]), cells);
}

#[test]
fn straight_line_wide_path() {
	let planner = StraightLineWide::new(ComputeGrid::default(), ObstacleSet::new());

	assert_eq!(
		nodes(&[(1, 1), (0, 1), (1, 0), (0, 0)]),
		planner.path(node(1, 1), node(0, 0))
	);
	assert_eq!(nodes(&[(1, 1)]), planner.path(node(1, 1), node(1, 1)));
}

#[test]
fn sight_over_free_cells() {
	let obstacles = ObstacleSet::from_nodes(&nodes(&[(5, 5)]));

	assert!(has_line_of_sight(&obstacles, node(0, 0), node(3, 3)));
	assert!(has_line_of_sight(&obstacles, node(0, 0), node(0, 0)));
}

#[test]
fn no_sight_through_an_obstacle_on_the_line() {
	let obstacles = ObstacleSet::from_nodes(&nodes(&[(2, 1)]));

	assert!(!has_line_of_sight(&obstacles, node(0, 0), node(5, 2)));
	assert!(!has_line_of_sight(&obstacles, node(5, 2), node(0, 0)));
}

#[test]
fn no_sight_from_or_to_an_obstacle() {
	let obstacles = ObstacleSet::from_nodes(&nodes(&[(0, 0)]));

	assert!(!has_line_of_sight(&obstacles, node(0, 0), node(3, 0)));
	assert!(!has_line_of_sight(&obstacles, node(3, 0), node(0, 0)));
}

#[test]
fn no_sight_between_two_obstacles_that_touch_at_a_corner() {
	let obstacles = ObstacleSet::from_nodes(&nodes(&[(1, 0), (0, 1)]));

	assert!(!has_line_of_sight(&obstacles, node(0, 0), node(1, 1)));
	assert!(!has_line_of_sight(&obstacles, node(1, 1), node(0, 0)));
}

#[test]
fn no_sight_past_one_obstacle_beside_a_diagonal_step() {
	let obstacles = ObstacleSet::from_nodes(&nodes(&[(2, 1)]));

	assert!(!has_line_of_sight(&obstacles, node(0, 0), node(3, 3)));
}

#[test]
fn sight_is_the_same_both_ways() {
	let obstacles = ObstacleSet::from_nodes(&nodes(&[(2, 1), (4, 4), (1, 3)]));
	let ends = nodes(&[(0, 0), (5, 2), (2, 5), (3, 3), (5, 5), (0, 4), (4, 0)]);

	for a in &ends {
		for b in &ends {
			assert_eq!(
				has_line_of_sight(&obstacles, *a, *b),
				has_line_of_sight(&obstacles, *b, *a),
				"{a:?} {b:?}"
			);
		}
	}
}
