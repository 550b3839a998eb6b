use project_zyheeda_pathfinding::components::compute_path_method::a_star::{
	AStar, ClosedList, GScores, Metric, OpenList, DIAGONAL, STRAIGHT,
};
use project_zyheeda_pathfinding::traits::computable_grid::{ComputeGrid, ComputeGridNode};
use project_zyheeda_pathfinding::traits::compute_path::{ComputePath, NewComputer, ObstacleSet};

fn node(x: i32, y: i32) -> ComputeGridNode {
	ComputeGridNode::new(x, y)
}

fn nodes(cells: &[(i32, i32)]) -> Vec<ComputeGridNode> {
	cells.iter().map(|(x, y)| node(*x, *y)).collect()
}

fn grid(width: i32, height: i32) -> ComputeGrid {
	ComputeGrid {
		min: node(0, 0),
		max: node(width - 1, height - 1),
	}
}

fn planner(grid: ComputeGrid, obstacles: &[(i32, i32)]) -> AStar {
	AStar::new(grid, ObstacleSet::from_nodes(&nodes(obstacles)))
}

fn steps(path: &[ComputeGridNode]) -> Vec<u64> {
	path.windows(2)
		.map(|pair| pair[0].right_angle_distance(&pair[1]))
		.collect()
}

#[test]
fn path_to_itself_is_the_cell_alone() {
	assert_eq!(nodes(&[(2, 1)]), planner(grid(4, 4), &[]).path(node(2, 1), node(2, 1)));
}

#[test]
fn path_to_itself_on_an_obstacle_and_off_the_grid() {
	let a_star = planner(grid(4, 4), &[(2, 1)]);

	assert_eq!(nodes(&[(2, 1)]), a_star.path(node(2, 1), node(2, 1)));
	assert_eq!(nodes(&[(9, -9)]), a_star.path(node(9, -9), node(9, -9)));
}

#[test]
fn path_across_an_empty_grid() {
	let path = planner(grid(4, 4), &[]).path(node(0, 0), node(3, 3));

	assert_eq!(7, path.len());
	assert_eq!(
		nodes(&[(0, 0), (0, 1), (0, 2), (0, 3), (1, 3), (2, 3), (3, 3)]),
		path
	);
}

#[test]
fn path_on_an_empty_grid_takes_as_many_steps_as_the_cells_are_apart() {
	let a_star = planner(grid(5, 4), &[]);

	for (sx, sy) in [(0, 0), (4, 3), (2, 1), (0, 3)] {
		for (ex, ey) in [(0, 0), (4, 3), (1, 2), (4, 0)] {
			let (start, end) = (node(sx, sy), node(ex, ey));
			let path = a_star.path(start, end);

			assert_eq!(
				start.right_angle_distance(&end) as usize + 1,
				path.len(),
				"{start:?} {end:?}"
			);
			assert_eq!(Some(&start), path.first());
			assert_eq!(Some(&end), path.last());
			assert!(steps(&path).iter().all(|step| *step == 1));
		}
	}
}

#[test]
fn path_through_the_gap_in_a_wall() {
	let wall = [(0, 2), (1, 2), (2, 2), (4, 2)];

	let path = planner(grid(5, 5), &wall).path(node(0, 0), node(0, 4));

	assert_eq!(
		nodes(&[
			(0, 0),
			(0, 1),
			(1, 1),
			(2, 1),
			(3, 1),
			(3, 2),
			(3, 3),
			(2, 3),
			(1, 3),
			(0, 3),
			(0, 4)
		]),
		path
	);
	assert!(path.contains(&node(3, 2)));
	assert!(path.iter().all(|cell| !wall.contains(&(cell.x, cell.y))));
}

#[test]
fn path_round_an_obstacle() {
	let path = planner(grid(5, 5), &[(1, 1)]).path(node(0, 0), node(2, 2));

	assert_eq!(nodes(&[(0, 0), (0, 1), (0, 2), (1, 2), (2, 2)]), path);
}

#[test]
fn no_path_out_of_an_enclosure() {
	let a_star = planner(grid(5, 5), &[(1, 0), (1, 1), (0, 1)]);

	assert_eq!(nodes(&[]), a_star.path(node(0, 0), node(4, 4)));
	assert_eq!(nodes(&[]), a_star.path(node(4, 4), node(0, 0)));
}

#[test]
fn no_path_to_a_cell_off_the_grid_or_on_an_obstacle() {
	let a_star = planner(grid(4, 4), &[(2, 2)]);

	assert_eq!(nodes(&[]), a_star.path(node(0, 0), node(9, 9)));
	assert_eq!(nodes(&[]), a_star.path(node(0, 0), node(2, 2)));
}

#[test]
fn path_costs_the_same_both_ways() {
	let a_star = planner(grid(6, 6), &[(1, 1), (2, 1), (3, 1), (3, 2), (3, 3), (1, 4)]);
	let cells = nodes(&[(0, 0), (5, 5), (2, 2), (4, 1), (0, 5), (5, 0)]);

	for a in &cells {
		for b in &cells {
			assert_eq!(
				a_star.path(*a, *b).len(),
				a_star.path(*b, *a).len(),
				"{a:?} {b:?}"
			);
		}
	}
}

#[test]
fn path_on_a_grid_with_negative_bounds() {
	let bounds = ComputeGrid {
		min: node(-2, -2),
		max: node(0, 0),
	};

	let path = planner(bounds, &[(-1, -1), (-1, 0)]).path(node(0, 0), node(-2, 0));

	assert_eq!(
		nodes(&[(0, 0), (0, -1), (0, -2), (-1, -2), (-2, -2), (-2, -1), (-2, 0)]),
		path
	);
}

#[test]
fn neighbors_within_the_grid() {
	let a_star = planner(grid(3, 3), &[(1, 1)]);

	assert_eq!(
		nodes(&[(1, 2), (1, 0), (2, 1), (0, 1)]),
		a_star.neighbors(&node(1, 1))
	);
	assert_eq!(nodes(&[(0, 1), (1, 0)]), a_star.neighbors(&node(0, 0)));
	assert_eq!(nodes(&[(2, 2)]), a_star.neighbors(&node(3, 2)));
	assert_eq!(nodes(&[]), a_star.neighbors(&node(i32::MAX, i32::MAX)));
}

#[test]
fn distances() {
	assert_eq!(7, AStar::distance(node(0, 0), node(3, -4)));
	assert_eq!(7, Metric::RightAngle.distance(node(0, 0), node(3, -4)));
	assert_eq!(
		3 * DIAGONAL + STRAIGHT,
		Metric::Octile.distance(node(0, 0), node(3, -4))
	);
	assert_eq!(141_421_356, Metric::Octile.distance(node(0, 0), node(1, 1)));
	assert_eq!(0, Metric::Octile.distance(node(2, 2), node(2, 2)));
}

#[test]
fn open_list_pops_the_lowest_f_first() {
	let end = node(10, 0);
	let mut open = OpenList::new(node(0, 0), end, Metric::RightAngle);

	open.push(node(5, 0), 7);
	open.push(node(9, 0), 0);
	open.push(node(7, 0), 5);

	assert_eq!(Some(node(9, 0)), open.pop_lowest_f());
	assert_eq!(Some(node(7, 0)), open.pop_lowest_f());
	assert_eq!(Some(node(0, 0)), open.pop_lowest_f());
	assert_eq!(Some(node(5, 0)), open.pop_lowest_f());
	assert_eq!(None, open.pop_lowest_f());
}

#[test]
fn open_list_breaks_ties_by_the_order_of_cells() {
	let end = node(0, 0);
	let mut open = OpenList::new(node(1, 1), end, Metric::RightAngle);

	open.push(node(2, 0), 0);
	open.push(node(0, 2), 0);
	open.push(node(-1, 1), 0);
	open.push(node(1, -1), 0);
	open.push(node(1, 1), 0);

	assert_eq!(Some(node(-1, 1)), open.pop_lowest_f());
	assert_eq!(Some(node(0, 2)), open.pop_lowest_f());
	assert_eq!(Some(node(1, -1)), open.pop_lowest_f());
	assert_eq!(Some(node(1, 1)), open.pop_lowest_f());
	assert_eq!(Some(node(1, 1)), open.pop_lowest_f());
	assert_eq!(Some(node(2, 0)), open.pop_lowest_f());
	assert_eq!(None, open.pop_lowest_f());
}

#[test]
fn g_scores_of_cells_not_reached() {
	let mut scores = GScores::new(node(1, 1));

	assert_eq!(Some(0), scores.get(&node(1, 1)));
	assert_eq!(None, scores.get(&node(1, 2)));

	scores.insert(node(1, 2), 42);
	scores.insert(node(1, 2), 11);

	assert_eq!(Some(11), scores.get(&node(1, 2)));
	assert_eq!(2, scores.len());
}

#[test]
fn closed_list_walks_back_to_the_start() {
	let mut closed = ClosedList::new(node(0, 0));
	closed.insert(node(1, 0), node(0, 0));
	closed.insert(node(2, 0), node(1, 0));
	closed.insert(node(2, 1), node(2, 0));
	closed.insert(node(5, 5), node(4, 4));

	assert_eq!(Some(&node(1, 0)), closed.parent(&node(2, 0)));
	assert_eq!(None, closed.parent(&node(9, 9)));
	assert_eq!(5, closed.len());

	let path = closed.construct_path_from(node(2, 1)).collect();

	assert_eq!(nodes(&[(2, 1), (2, 0), (1, 0), (0, 0)]), path);
}

#[test]
fn closed_list_walk_ends_where_a_cell_has_no_predecessor() {
	let mut closed = ClosedList::new(node(0, 0));
	closed.insert(node(5, 5), node(4, 4));

	let path = closed.construct_path_from(node(5, 5)).collect();

	assert_eq!(nodes(&[(5, 5), (4, 4)]), path);
}

#[test]
fn closed_list_walk_round_a_circle_ends() {
	let mut closed = ClosedList::new(node(0, 0));
	closed.insert(node(1, 0), node(2, 0));
	closed.insert(node(2, 0), node(1, 0));

	let path = closed.construct_path_from(node(1, 0)).collect();

	assert_eq!(nodes(&[(1, 0), (2, 0), (1, 0)]), path);
}

#[test]
fn path_iterator_hands_out_cell_by_cell() {
	let mut closed = ClosedList::new(node(0, 0));
	closed.insert(node(1, 0), node(0, 0));
	let mut iterator = closed.construct_path_from(node(1, 0));

	assert_eq!(Some(node(1, 0)), iterator.next());
	assert_eq!(Some(node(0, 0)), iterator.next());
	assert_eq!(None, iterator.next());
}

#[test]
fn open_list_pops_many_entries_in_order() {
	let end = node(0, 0);
	let mut open = OpenList::new(node(0, 0), end, Metric::RightAngle);
	let mut expected = vec![(0u128, node(0, 0))];
	let mut seed = 12345u64;

	for _ in 0..500 {
		seed = seed
			.wrapping_mul(6364136223846793005)
			.wrapping_add(1442695040888963407);
		let x = ((seed >> 33) % 7) as i32 - 3;
		let y = ((seed >> 40) % 7) as i32 - 3;
		let g = ((seed >> 50) % 5) as u128;
		open.push(node(x, y), g);
		expected.push((g + (x.unsigned_abs() + y.unsigned_abs()) as u128, node(x, y)));
	}
	expected.sort();

	for (_, cell) in expected {
		assert_eq!(Some(cell), open.pop_lowest_f());
	}
	assert_eq!(None, open.pop_lowest_f());
}

#[test]
fn path_leaves_a_start_that_is_blocked_but_does_not_lead_back() {
	let bounds = ComputeGrid {
		min: node(0, 0),
		max: node(1, 0),
	};
	let a_star = planner(bounds, &[(0, 0)]);

	assert_eq!(nodes(&[(0, 0), (1, 0)]), a_star.path(node(0, 0), node(1, 0)));
	assert_eq!(nodes(&[]), a_star.path(node(1, 0), node(0, 0)));
}

#[test]
fn path_enters_the_grid_from_a_start_beside_it() {
	let path = planner(grid(4, 4), &[]).path(node(-1, 0), node(2, 2));

	assert_eq!(
		nodes(&[(-1, 0), (0, 0), (0, 1), (0, 2), (1, 2), (2, 2)]),
		path
	);
}

#[test]
fn no_path_on_a_grid_with_bounds_out_of_order() {
	let upside_down = ComputeGrid {
		min: node(0, 3),
		max: node(3, 0),
	};
	let a_star = planner(upside_down, &[]);

	assert_eq!(nodes(&[]), a_star.path(node(0, 0), node(3, 3)));
	assert_eq!(nodes(&[(1, 1)]), a_star.path(node(1, 1), node(1, 1)));
}
