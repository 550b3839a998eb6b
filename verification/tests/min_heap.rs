use project_zyheeda_pathfinding::components::compute_path_method::min_heap::{
	heap_pop, heap_push,
};
use project_zyheeda_pathfinding::traits::computable_grid::ComputeGridNode;

fn node(x: i32, y: i32) -> ComputeGridNode {
	ComputeGridNode::new(x, y)
}

#[test]
fn heap_pop_of_an_empty_heap() {
	let mut heap = vec![];

	assert_eq!(None, heap_pop(&mut heap));
	assert!(heap.is_empty());
}

#[test]
fn heap_hands_out_the_lowest_first() {
	let mut heap = vec![];

	for entry in [(5, node(0, 0)), (1, node(9, 9)), (3, node(1, 1)), (1, node(2, 2)), (4, node(0, 0))] {
		heap_push(&mut heap, entry);
	}

	assert_eq!(Some((1, node(2, 2))), heap_pop(&mut heap));
	assert_eq!(Some((1, node(9, 9))), heap_pop(&mut heap));
	assert_eq!(Some((3, node(1, 1))), heap_pop(&mut heap));
	assert_eq!(Some((4, node(0, 0))), heap_pop(&mut heap));
	assert_eq!(Some((5, node(0, 0))), heap_pop(&mut heap));
	assert_eq!(None, heap_pop(&mut heap));
}

#[test]
fn heap_keeps_entries_that_are_the_same() {
	let mut heap = vec![];

	heap_push(&mut heap, (2, node(1, 1)));
	heap_push(&mut heap, (2, node(1, 1)));
	heap_push(&mut heap, (1, node(1, 1)));

	assert_eq!(Some((1, node(1, 1))), heap_pop(&mut heap));
	assert_eq!(Some((2, node(1, 1))), heap_pop(&mut heap));
	assert_eq!(Some((2, node(1, 1))), heap_pop(&mut heap));
	assert_eq!(None, heap_pop(&mut heap));
}

#[test]
fn heap_sorts_while_pushes_and_pops_alternate() {
	let mut heap = vec![];
	let mut model: Vec<(u128, ComputeGridNode)> = vec![];
	let mut seed = 99u64;

	for round in 0..2000 {
		seed = seed
			.wrapping_mul(6364136223846793005)
			.wrapping_add(1442695040888963407);
		if round % 3 == 2 {
			model.sort();
			let expected = if model.is_empty() {
				None
			} else {
				Some(model.remove(0))
			};
			assert_eq!(expected, heap_pop(&mut heap));
		} else {
			let entry = (
				((seed >> 20) % 50) as u128,
				node(((seed >> 30) % 5) as i32 - 2, ((seed >> 40) % 5) as i32 - 2),
			);
			model.push(entry);
			heap_push(&mut heap, entry);
		}
	}
	model.sort();
	for entry in model {
		assert_eq!(Some(entry), heap_pop(&mut heap));
	}
	assert_eq!(None, heap_pop(&mut heap));
}
