use project_zyheeda_pathfinding::components::compute_path_method::a_star::{
	AStar, ClosedList, GScores, DIAGONAL, STRAIGHT,
};
use project_zyheeda_pathfinding::components::compute_path_method::smoothing::{
	step_toward, CleanedPathIterator,
};
use project_zyheeda_pathfinding::components::compute_path_method::straight_line_wide::has_line_of_sight;
use project_zyheeda_pathfinding::components::compute_path_method::theta_star::ThetaStar;
use project_zyheeda_pathfinding::traits::computable_grid::{ComputeGrid, ComputeGridNode};
use project_zyheeda_pathfinding::traits::compute_path::{ComputePath, NewComputer, ObstacleSet};

fn node(x: i32, y: i32) -> ComputeGridNode {
	ComputeGridNode::new(x, y)
}

fn nodes(cells: &[(i32, i32)]) -> Vec<ComputeGridNode> {
	cells.iter().map(|(x, y)| node(*x, *y)).collect()
}

fn grid(width: i32, height: i32) -> ComputeGrid {
	ComputeGrid {
		min: node(0, 0),
		max: node(width - 1, height - 1),
	}
}

fn obstacles(cells: &[(i32, i32)]) -> ObstacleSet {
	ObstacleSet::from_nodes(&nodes(cells))
}

fn planner(grid: ComputeGrid, cells: &[(i32, i32)]) -> ThetaStar {
	ThetaStar::new(grid, obstacles(cells))
}

fn octile(a: &ComputeGridNode, b: &ComputeGridNode) -> u128 {
	let (dx, dy) = (a.x.abs_diff(b.x) as u128, a.y.abs_diff(b.y) as u128);
	DIAGONAL * dx.min(dy) + STRAIGHT * (dx.max(dy) - dx.min(dy))
}

fn cost(path: &[ComputeGridNode]) -> u128 {
	path.windows(2).map(|pair| octile(&pair[0], &pair[1])).sum()
}

#[test]
fn theta_path_to_itself_is_the_cell_alone() {
	let theta_star = planner(grid(4, 4), &[(1, 1)]);

	assert_eq!(nodes(&[(2, 1)]), theta_star.path(node(2, 1), node(2, 1)));
	assert_eq!(nodes(&[(1, 1)]), theta_star.path(node(1, 1), node(1, 1)));
	assert_eq!(nodes(&[(-5, 7)]), theta_star.path(node(-5, 7), node(-5, 7)));
}

#[test]
fn theta_path_across_an_empty_grid_is_the_diagonal() {
	let path = planner(grid(4, 4), &[]).path(node(0, 0), node(3, 3));

	assert_eq!(nodes(&[(0, 0), (3, 3)]), path);
}

#[test]
fn theta_path_through_the_gap_in_a_wall() {
	let wall = [(0, 2), (1, 2), (2, 2), (4, 2)];

	let path = planner(grid(5, 5), &wall).path(node(0, 0), node(0, 4));

	assert_eq!(nodes(&[(0, 0), (3, 1), (3, 3), (0, 4)]), path);
	let cells = obstacles(&wall);
	for pair in path.windows(2) {
		assert!(has_line_of_sight(&cells, pair[0], pair[1]), "{pair:?}");
	}
}

#[test]
fn theta_path_does_not_cut_the_corner_of_an_obstacle() {
	let path = planner(grid(5, 5), &[(1, 1)]).path(node(0, 0), node(2, 2));

	assert_eq!(nodes(&[(0, 0), (0, 2), (2, 2)]), path);
}

#[test]
fn theta_path_round_the_end_of_a_wall() {
	let wall = [(3, 0), (3, 1), (3, 2), (3, 3), (3, 4)];

	let path = planner(grid(7, 7), &wall).path(node(0, 0), node(6, 0));

	assert_eq!(nodes(&[(0, 0), (2, 5), (4, 5), (6, 0)]), path);
}

#[test]
fn no_theta_path_out_of_an_enclosure() {
	let theta_star = planner(grid(5, 5), &[(1, 0), (1, 1), (0, 1)]);

	assert_eq!(nodes(&[]), theta_star.path(node(0, 0), node(4, 4)));
	assert_eq!(nodes(&[]), theta_star.path(node(4, 4), node(0, 0)));
}

#[test]
fn no_theta_path_between_two_obstacles_that_touch_at_a_corner() {
	let theta_star = planner(grid(2, 2), &[(1, 0), (0, 1)]);

	assert_eq!(nodes(&[]), theta_star.path(node(0, 0), node(1, 1)));
}

#[test]
fn no_theta_path_from_an_obstacle_or_off_the_grid() {
	let theta_star = planner(grid(4, 4), &[(0, 0)]);

	assert_eq!(nodes(&[]), theta_star.path(node(0, 0), node(3, 3)));
	assert_eq!(nodes(&[]), theta_star.path(node(1, 1), node(9, 9)));
}

#[test]
fn theta_path_costs_no_more_than_the_path_along_the_axes() {
	let blocked = [(1, 1), (2, 1), (3, 1), (3, 2), (3, 3), (1, 4), (5, 4), (5, 5), (6, 2)];
	let theta_star = planner(grid(8, 8), &blocked);
	let a_star = AStar::new(grid(8, 8), obstacles(&blocked));
	let cells = nodes(&[(0, 0), (7, 7), (2, 2), (4, 1), (0, 7), (7, 0), (4, 4), (6, 3)]);

	for a in &cells {
		for b in &cells {
			let along_axes = a_star.path(*a, *b);
			let any_angle = theta_star.path(*a, *b);

			assert_eq!(along_axes.is_empty(), any_angle.is_empty(), "{a:?} {b:?}");
			assert!(
				cost(&any_angle) <= (along_axes.len().max(1) as u128 - 1) * STRAIGHT,
				"{a:?} {b:?}"
			);
		}
	}
}

#[test]
fn theta_path_stays_on_free_cells_of_the_grid() {
	let blocked = [(1, 1), (2, 1), (3, 1), (3, 2), (3, 3), (1, 4), (5, 4), (5, 5), (6, 2)];
	let bounds = grid(8, 8);
	let theta_star = planner(bounds, &blocked);
	let cells = nodes(&[(0, 0), (7, 7), (2, 2), (4, 1), (0, 7), (7, 0), (4, 4), (6, 3)]);

	for a in &cells {
		for b in &cells {
			let path = theta_star.path(*a, *b);

			assert_eq!(Some(a), path.first(), "{a:?} {b:?}");
			assert_eq!(Some(b), path.last(), "{a:?} {b:?}");
			for cell in &path {
				assert!(bounds.is_inside(*cell), "{a:?} {b:?} {cell:?}");
				assert!(!blocked.contains(&(cell.x, cell.y)), "{a:?} {b:?} {cell:?}");
			}
		}
	}
}

#[test]
fn theta_neighbors_within_the_grid() {
	let theta_star = planner(grid(3, 3), &[]);

	assert_eq!(
		nodes(&[(0, 0), (0, 1), (0, 2), (1, 0), (1, 2), (2, 0), (2, 1), (2, 2)]),
		theta_star.neighbors(&node(1, 1))
	);
	assert_eq!(
		nodes(&[(0, 1), (1, 0), (1, 1)]),
		theta_star.neighbors(&node(0, 0))
	);
}

#[test]
fn theta_distance_and_sight() {
	let theta_star = planner(grid(5, 5), &[(1, 0), (0, 1)]);

	assert_eq!(
		2 * DIAGONAL + 3 * STRAIGHT,
		theta_star.distance(node(0, 0), node(5, 2))
	);
	assert!(!theta_star.los(node(0, 0), node(1, 1)));
	assert!(theta_star.los(node(1, 1), node(4, 4)));
}

#[test]
fn theta_relax_and_vertex() {
	let theta_star = planner(grid(5, 5), &[(1, 0)]);
	let mut closed = ClosedList::new(node(0, 0));
	let mut scores = GScores::new(node(0, 0));
	closed.insert(node(0, 1), node(0, 0));
	scores.insert(node(0, 1), STRAIGHT);
	closed.insert(node(1, 1), node(0, 0));
	scores.insert(node(1, 1), DIAGONAL);

	// from the predecessor of the settled cell, which sees the neighbour
	assert_eq!(
		Some((node(0, 0), 2 * STRAIGHT)),
		theta_star.vertex(&closed, &scores, node(0, 1), node(0, 2))
	);
	// from the settled cell, whose predecessor does not see the neighbour
	assert_eq!(
		Some((node(1, 1), DIAGONAL + STRAIGHT)),
		theta_star.vertex(&closed, &scores, node(1, 1), node(2, 1))
	);
	// from neither, where neither sees the neighbour
	assert_eq!(None, theta_star.vertex(&closed, &scores, node(1, 1), node(1, 0)));
	// no way is better than the one the neighbour has
	scores.insert(node(0, 2), STRAIGHT);
	assert_eq!(None, theta_star.vertex(&closed, &scores, node(0, 1), node(0, 2)));
	assert_eq!(None, theta_star.relax(&scores, node(0, 1), node(0, 2)));
	assert_eq!(None, theta_star.relax(&scores, node(4, 4), node(4, 3)));
	assert_eq!(
		Some((node(0, 1), STRAIGHT + DIAGONAL)),
		theta_star.relax(&scores, node(0, 1), node(1, 2))
	);
}

#[test]
fn cleaned_walk_passes_over_what_it_sees_past() {
	let cells = obstacles(&[(1, 1)]);
	let mut closed = ClosedList::new(node(0, 0));
	closed.insert(node(0, 1), node(0, 0));
	closed.insert(node(0, 2), node(0, 1));
	closed.insert(node(1, 2), node(0, 2));
	closed.insert(node(2, 2), node(1, 2));

	let path = closed
		.construct_path_from(node(2, 2))
		.remove_redundant_nodes(&cells)
		.collect();

	assert_eq!(nodes(&[(2, 2), (0, 2), (0, 0)]), path);
}

#[test]
fn cleaned_walk_hands_out_cell_by_cell() {
	let cells = obstacles(&[]);
	let mut closed = ClosedList::new(node(0, 0));
	closed.insert(node(1, 0), node(0, 0));
	closed.insert(node(2, 0), node(1, 0));
	let mut iterator = closed
		.construct_path_from(node(2, 0))
		.remove_redundant_nodes(&cells);

	assert_eq!(Some(node(2, 0)), iterator.next());
	assert_eq!(Some(node(0, 0)), iterator.next());
	assert_eq!(None, iterator.next());
}

#[test]
fn move_closer_as_far_as_both_are_in_sight() {
	let cells = obstacles(&[(2, 1)]);
	let mut moved = node(5, 0);

	CleanedPathIterator::try_move_closer_to(&mut moved, &node(0, 0), &node(5, 3), &cells);

	assert_eq!(node(3, 0), moved);
}

#[test]
fn move_closer_stops_before_the_target() {
	let cells = obstacles(&[]);
	let mut moved = node(3, 3);

	CleanedPathIterator::try_move_closer_to(&mut moved, &node(0, 0), &node(3, 6), &cells);

	assert_eq!(node(1, 1), moved);
}

#[test]
fn move_closer_needs_a_compass_direction() {
	let cells = obstacles(&[]);
	let mut moved = node(3, 1);

	CleanedPathIterator::try_move_closer_to(&mut moved, &node(0, 0), &node(3, 6), &cells);

	assert_eq!(node(3, 1), moved);
}

#[test]
fn override_a_bend_with_the_pair_furthest_apart() {
	let cells = obstacles(&[(2, 1)]);

	let pair = CleanedPathIterator::try_override_nodes(
		&cells,
		&node(3, 0),
		&node(0, 0),
		&node(6, 3),
	);

	assert_eq!(nodes(&[(2, 0), (4, 1)]), pair);
}

#[test]
fn do_not_override_what_is_no_bend() {
	let cells = obstacles(&[]);

	// both legs along an axis
	assert_eq!(
		nodes(&[(3, 0)]),
		CleanedPathIterator::try_override_nodes(&cells, &node(3, 0), &node(0, 0), &node(3, 4))
	);
	// both legs diagonal
	assert_eq!(
		nodes(&[(3, 3)]),
		CleanedPathIterator::try_override_nodes(&cells, &node(3, 3), &node(0, 0), &node(6, 0))
	);
	// a leg in no compass direction
	assert_eq!(
		nodes(&[(3, 0)]),
		CleanedPathIterator::try_override_nodes(&cells, &node(3, 0), &node(0, 0), &node(4, 3))
	);
}

#[test]
fn optimized_positions_keep_the_ends() {
	let cells = obstacles(&[(3, 0), (3, 1), (3, 2), (3, 3), (3, 4)]);
	let mut closed = ClosedList::new(node(0, 0));
	closed.insert(node(0, 5), node(0, 0));
	closed.insert(node(6, 5), node(0, 5));
	closed.insert(node(6, 0), node(6, 5));

	let path = closed
		.construct_path_from(node(6, 0))
		.remove_redundant_nodes(&cells)
		.collect_with_optimized_node_positions();

	assert_eq!(nodes(&[(6, 0), (4, 5), (2, 5), (0, 0)]), path);
}

#[test]
fn step_toward_a_target() {
	assert_eq!(node(1, 1), step_toward(&node(0, 0), &node(4, 4)));
	assert_eq!(node(0, -1), step_toward(&node(0, 0), &node(0, -4)));
	assert_eq!(node(0, 0), step_toward(&node(0, 0), &node(1, 4)));
	assert_eq!(node(0, 0), step_toward(&node(0, 0), &node(0, 0)));
}

#[test]
fn theta_path_enters_the_grid_from_a_start_beside_it() {
	let path = planner(grid(4, 4), &[]).path(node(-1, 0), node(2, 2));

	assert_eq!(nodes(&[(-1, 0), (2, 2)]), path);
}
