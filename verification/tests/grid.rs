use project_zyheeda_pathfinding::traits::computable_grid::{
	abs_diff, unit, ComputeGrid, ComputeGridNode,
};
use project_zyheeda_pathfinding::traits::compute_path::ObstacleSet;

fn node(x: i32, y: i32) -> ComputeGridNode {
	ComputeGridNode::new(x, y)
}

#[test]
fn new_node() {
	assert_eq!(ComputeGridNode { x: 3, y: -4 }, node(3, -4));
}

#[test]
fn right_angle_len() {
	assert_eq!(7, node(3, -4).right_angle_len());
	assert_eq!(0, node(0, 0).right_angle_len());
}

#[test]
fn right_angle_distance_spans_the_whole_range() {
	assert_eq!(
		2 * (u32::MAX as u64),
		node(i32::MIN, i32::MAX).right_angle_distance(&node(i32::MAX, i32::MIN))
	);
}

#[test]
fn straight_and_diagonal() {
	assert!(node(0, 3).is_straight());
	assert!(node(-2, 0).is_straight());
	assert!(!node(0, 0).is_straight());
	assert!(!node(1, 1).is_straight());
	assert!(node(2, -2).is_diagonal());
	assert!(node(0, 0).is_diagonal());
	assert!(!node(2, 1).is_diagonal());
	assert!(node(i32::MIN, i32::MIN).is_diagonal());
}

#[test]
fn eight_sided_direction() {
	let center = node(2, 2);

	assert_eq!(None, center.eight_sided_direction_to(&center));
	assert_eq!(Some(node(0, 1)), center.eight_sided_direction_to(&node(2, 7)));
	assert_eq!(Some(node(0, -1)), center.eight_sided_direction_to(&node(2, -7)));
	assert_eq!(Some(node(1, 0)), center.eight_sided_direction_to(&node(3, 2)));
	assert_eq!(Some(node(-1, 0)), center.eight_sided_direction_to(&node(-3, 2)));
	assert_eq!(Some(node(1, 1)), center.eight_sided_direction_to(&node(5, 5)));
	assert_eq!(Some(node(-1, 1)), center.eight_sided_direction_to(&node(0, 4)));
	assert_eq!(Some(node(1, -1)), center.eight_sided_direction_to(&node(4, 0)));
	assert_eq!(Some(node(-1, -1)), center.eight_sided_direction_to(&node(0, 0)));
	assert_eq!(None, center.eight_sided_direction_to(&node(3, 4)));
}

#[test]
fn eight_sided_direction_across_the_whole_range() {
	assert_eq!(
		Some(node(1, 1)),
		node(i32::MIN, i32::MIN).eight_sided_direction_to(&node(i32::MAX, i32::MAX))
	);
}

#[test]
fn step_in_a_direction() {
	assert_eq!(Some(node(3, 1)), node(2, 2).step(node(1, -1)));
	assert_eq!(None, node(i32::MAX, 0).step(node(1, 0)));
}

#[test]
fn keys_follow_the_order_of_nodes() {
	let nodes = [
		node(i32::MIN, i32::MIN),
		node(i32::MIN, 0),
		node(-1, i32::MAX),
		node(0, -1),
		node(0, 0),
		node(0, 1),
		node(1, i32::MIN),
		node(i32::MAX, i32::MAX),
	];

	for a in nodes {
		for b in nodes {
			assert_eq!(a.cmp(&b), a.key().cmp(&b.key()), "{a:?} {b:?}");
		}
		assert_eq!(a, ComputeGridNode::from_key(a.key()));
	}
	assert_eq!(0, node(i32::MIN, i32::MIN).key());
	assert_eq!(u64::MAX, node(i32::MAX, i32::MAX).key());
}

#[test]
fn unit_and_abs_diff() {
	assert_eq!(-1, unit(-5));
	assert_eq!(1, unit(5));
	assert_eq!(1, unit(0));
	assert_eq!(u32::MAX, abs_diff(i32::MIN, i32::MAX));
	assert_eq!(3, abs_diff(-1, 2));
}

#[test]
fn grid_bounds_include_their_edges() {
	let grid = ComputeGrid {
		min: node(-1, 0),
		max: node(2, 3),
	};

	assert!(grid.is_inside(node(-1, 0)));
	assert!(grid.is_inside(node(2, 3)));
	assert!(grid.is_inside(node(0, 2)));
	assert!(!grid.is_inside(node(-2, 0)));
	assert!(!grid.is_inside(node(0, 4)));
}

#[test]
fn obstacles_insert_remove_contains() {
	let mut obstacles = ObstacleSet::new();

	assert!(!obstacles.contains(&node(1, 2)));
	assert!(obstacles.insert(node(1, 2)));
	assert!(!obstacles.insert(node(1, 2)));
	assert!(obstacles.contains(&node(1, 2)));
	assert!(!obstacles.contains(&node(2, 1)));
	assert!(obstacles.remove(&node(1, 2)));
	assert!(!obstacles.remove(&node(1, 2)));
	assert!(!obstacles.contains(&node(1, 2)));
}

#[test]
fn obstacles_from_nodes() {
	let obstacles = ObstacleSet::from_nodes(&vec![node(1, 2), node(-3, 4), node(1, 2)]);

	assert!(obstacles.contains(&node(1, 2)));
	assert!(obstacles.contains(&node(-3, 4)));
	assert!(!obstacles.contains(&node(4, -3)));
}

#[test]
fn add_and_subtract_nodes() {
	assert_eq!(node(4, -2), node(1, 2) + node(3, -4));
	assert_eq!(node(-2, 6), node(1, 2) - node(3, -4));

	let mut moved = node(1, 2);
	moved += node(-1, 1);
	moved += node(-1, 1);
	assert_eq!(node(-1, 4), moved);
}

#[test]
fn grid_bounds_in_order() {
	let grid = ComputeGrid {
		min: node(-1, 0),
		max: node(-1, 0),
	};
	let upside_down = ComputeGrid {
		min: node(0, 1),
		max: node(5, 0),
	};

	assert!(grid.is_well_formed());
	assert!(ComputeGrid::default().is_well_formed());
	assert!(!upside_down.is_well_formed());
	assert!(!upside_down.is_inside(node(2, 0)));
	assert!(!upside_down.is_inside(node(2, 1)));
}

#[test]
fn obstacles_clone_and_clear() {
	let mut obstacles = ObstacleSet::from_nodes(&vec![node(1, 2), node(3, 4)]);
	let copy = obstacles.clone();

	obstacles.insert(node(5, 6));
	obstacles.remove(&node(1, 2));

	assert!(copy.contains(&node(1, 2)));
	assert!(copy.contains(&node(3, 4)));
	assert!(!copy.contains(&node(5, 6)));

	obstacles.clear();

	assert!(!obstacles.contains(&node(3, 4)));
	assert!(!obstacles.contains(&node(5, 6)));
	assert!(copy.contains(&node(3, 4)));
	assert!(!ObstacleSet::default().contains(&node(3, 4)));
}
