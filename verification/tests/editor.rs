use project_zyheeda_pathfinding::components::compute_path_method::path_ends::PathEnds;
use project_zyheeda_pathfinding::components::despawn::Despawn;
use project_zyheeda_pathfinding::components::tile_type::{TileType, TileTypeValue};
use project_zyheeda_pathfinding::states::path_placement::PathPlacement;
use project_zyheeda_pathfinding::traits::set_value::SetValue;

#[test]
fn tile_type_is_walkable_by_default() {
	assert_eq!(TileTypeValue::Walkable, TileType::default().value());
	assert_eq!(TileTypeValue::Walkable, TileTypeValue::default());
}

#[test]
fn tile_type_takes_another_value() {
	let mut tile = TileType::from_value(TileTypeValue::Walkable);

	tile.set_value(TileTypeValue::Obstacle);
	assert_eq!(TileTypeValue::Obstacle, tile.value());

	tile.set_value(TileTypeValue::Start);
	assert_eq!(TileTypeValue::Start, tile.value());
}

#[test]
fn tile_type_of_a_path_end_keeps_its_value() {
	let mut start = TileType::from_value(TileTypeValue::Start);
	let mut end = TileType::from_value(TileTypeValue::End);

	start.set_value(TileTypeValue::Obstacle);
	end.set_value(TileTypeValue::Start);

	assert_eq!(TileTypeValue::Start, start.value());
	assert_eq!(TileTypeValue::End, end.value());
}

#[test]
fn tile_type_start_or_end() {
	assert_eq!(
		Some(TileTypeValue::Start),
		TileType::from_value(TileTypeValue::Start).start_or_end()
	);
	assert_eq!(
		Some(TileTypeValue::End),
		TileType::from_value(TileTypeValue::End).start_or_end()
	);
	assert_eq!(None, TileType::from_value(TileTypeValue::Obstacle).start_or_end());
	assert_eq!(None, TileType::from_value(TileTypeValue::Walkable).start_or_end());
}

#[test]
fn despawn() {
	let mut despawn = Despawn::NextFrame;

	assert!(despawn.elapse());
}

#[test]
fn despawn_after_2_frames() {
	let mut despawn = Despawn::AfterFrames(2);

	assert!(!despawn.elapse());
	assert_eq!(Despawn::AfterFrames(1), despawn);
	assert!(despawn.elapse());
	assert_eq!(Despawn::AfterFrames(0), despawn);
}

fn tiles(values: &[TileTypeValue]) -> Vec<TileType> {
	values.iter().map(|value| TileType::from_value(*value)).collect()
}

fn after_release(state: PathPlacement, just_released: bool, values: &[TileTypeValue]) -> PathPlacement {
	PathPlacement::reset_on_release(just_released, &tiles(values)).unwrap_or(state)
}

fn after_hold(state: PathPlacement, pressed: bool, values: &[(TileTypeValue, bool)]) -> PathPlacement {
	let tiles = values
		.iter()
		.map(|(value, clicked)| (TileType::from_value(*value), *clicked))
		.collect();

	state.drag_on_hold(pressed, &tiles).unwrap_or(state)
}

#[test]
fn toggle_to_place_start_on_released() {
	assert_eq!(
		PathPlacement::Start,
		after_release(PathPlacement::End, true, &[TileTypeValue::Walkable])
	);
	assert_eq!(PathPlacement::Start, PathPlacement::default());
}

#[test]
fn toggle_to_place_end_on_released() {
	assert_eq!(
		PathPlacement::End,
		after_release(
			PathPlacement::Start,
			true,
			&[TileTypeValue::Walkable, TileTypeValue::Start]
		)
	);
}

#[test]
fn do_not_toggle_to_place_end_when_not_released() {
	assert_eq!(
		PathPlacement::Start,
		after_release(PathPlacement::Start, false, &[TileTypeValue::Walkable])
	);
	assert_eq!(
		None,
		PathPlacement::reset_on_release(false, &tiles(&[TileTypeValue::Start]))
	);
}

#[test]
fn toggle_to_place_start_on_released_when_only_end_present() {
	assert_eq!(
		PathPlacement::Start,
		after_release(
			PathPlacement::End,
			true,
			&[TileTypeValue::Walkable, TileTypeValue::End]
		)
	);
}

#[test]
fn toggle_to_drag_none_on_released_when_start_and_end_present() {
	assert_eq!(
		PathPlacement::Drag(None),
		after_release(
			PathPlacement::End,
			true,
			&[TileTypeValue::Walkable, TileTypeValue::Start, TileTypeValue::End]
		)
	);
}

#[test]
fn toggle_to_drag_none_on_released_when_start_and_end_present_reversed() {
	assert_eq!(
		PathPlacement::Drag(None),
		after_release(
			PathPlacement::End,
			true,
			&[TileTypeValue::Walkable, TileTypeValue::End, TileTypeValue::Start]
		)
	);
}

#[test]
fn do_not_toggle_on_released_when_the_ends_make_no_sense() {
	assert_eq!(
		None,
		PathPlacement::reset_on_release(
			true,
			&tiles(&[TileTypeValue::Start, TileTypeValue::Start])
		)
	);
	assert_eq!(
		None,
		PathPlacement::reset_on_release(
			true,
			&tiles(&[TileTypeValue::Start, TileTypeValue::End, TileTypeValue::End])
		)
	);
}

#[test]
fn start_or_end_of_tiles() {
	assert_eq!(
		vec![TileTypeValue::End, TileTypeValue::Start, TileTypeValue::End],
		PathPlacement::start_or_end_of(&tiles(&[
			TileTypeValue::Walkable,
			TileTypeValue::End,
			TileTypeValue::Obstacle,
			TileTypeValue::Start,
			TileTypeValue::End,
		]))
	);
}

#[test]
fn set_to_drag_start() {
	assert_eq!(
		PathPlacement::Drag(Some(TileTypeValue::Start)),
		after_hold(PathPlacement::Drag(None), true, &[(TileTypeValue::Start, true)])
	);
}

#[test]
fn set_to_drag_end() {
	assert_eq!(
		PathPlacement::Drag(Some(TileTypeValue::End)),
		after_hold(PathPlacement::Drag(None), true, &[(TileTypeValue::End, true)])
	);
}

#[test]
fn do_not_set_to_drag_obstacle() {
	assert_eq!(
		PathPlacement::Drag(None),
		after_hold(PathPlacement::Drag(None), true, &[(TileTypeValue::Obstacle, true)])
	);
}

#[test]
fn do_not_set_to_drag_walkable() {
	assert_eq!(
		PathPlacement::Drag(None),
		after_hold(PathPlacement::Drag(None), true, &[(TileTypeValue::Walkable, true)])
	);
}

#[test]
fn do_not_set_to_drag_start_when_not_clicked() {
	assert_eq!(
		PathPlacement::Drag(None),
		after_hold(PathPlacement::Drag(None), true, &[(TileTypeValue::Start, false)])
	);
}

#[test]
fn set_to_drag_start_when_multiple_tiles_present() {
	assert_eq!(
		PathPlacement::Drag(Some(TileTypeValue::Start)),
		after_hold(
			PathPlacement::Drag(None),
			true,
			&[(TileTypeValue::End, false), (TileTypeValue::Start, true)]
		)
	);
}

#[test]
fn do_not_set_to_drag_start_when_not_set_to_drag() {
	assert_eq!(
		PathPlacement::Start,
		after_hold(PathPlacement::Start, true, &[(TileTypeValue::Start, true)])
	);
	assert_eq!(
		None,
		PathPlacement::Drag(Some(TileTypeValue::End))
			.drag_on_hold(true, &vec![(TileType::from_value(TileTypeValue::Start), true)])
	);
}

#[test]
fn do_not_set_when_not_pressing() {
	assert_eq!(
		PathPlacement::Drag(None),
		after_hold(PathPlacement::Drag(None), false, &[(TileTypeValue::Start, true)])
	);
}

#[test]
fn do_not_set_to_drag_when_both_ends_are_clicked() {
	assert_eq!(
		PathPlacement::Drag(None),
		after_hold(
			PathPlacement::Drag(None),
			true,
			&[(TileTypeValue::End, true), (TileTypeValue::Start, true)]
		)
	);
}

#[test]
fn path_ends_remember_start_and_end() {
	let mut ends = PathEnds::new();

	assert_eq!(None, ends.both());

	ends.tile_changed(1, TileTypeValue::Start, 'a');
	assert_eq!(None, ends.both());

	ends.tile_changed(2, TileTypeValue::End, 'b');
	assert_eq!(Some(('a', 'b')), ends.both());

	ends.tile_changed(3, TileTypeValue::Obstacle, 'c');
	assert_eq!(Some(('a', 'b')), ends.both());

	ends.tile_changed(4, TileTypeValue::Start, 'd');
	assert_eq!(Some(('d', 'b')), ends.both());
}

#[test]
fn path_ends_forget_a_tile_that_is_no_end_any_more() {
	let mut ends = PathEnds::new();
	ends.tile_changed(1, TileTypeValue::Start, 'a');
	ends.tile_changed(2, TileTypeValue::End, 'b');

	ends.tile_changed(1, TileTypeValue::Walkable, 'a');

	assert_eq!(None, ends.both());
	assert_eq!(None, ends.start);
	assert_eq!(Some((2, 'b')), ends.end);
}

#[test]
fn path_ends_forget_a_tile_that_is_removed() {
	let mut ends = PathEnds::new();
	ends.tile_changed(1, TileTypeValue::Start, 'a');
	ends.tile_changed(2, TileTypeValue::End, 'b');

	ends.tile_removed(3);
	assert_eq!(Some(('a', 'b')), ends.both());

	ends.tile_removed(2);
	assert_eq!(None, ends.both());
	assert_eq!(Some((1, 'a')), ends.start);
}

#[test]
fn path_ends_swap_when_the_start_becomes_the_end() {
	let mut ends = PathEnds::new();
	ends.tile_changed(1, TileTypeValue::Start, 'a');

	ends.tile_changed(1, TileTypeValue::End, 'a');

	assert_eq!(None, ends.start);
	assert_eq!(Some((1, 'a')), ends.end);
}

fn start_and_end_placed() -> PathEnds<(i32, i32)> {
	let mut ends = PathEnds::new();
	ends.tile_changed(1, TileTypeValue::Start, (1, 2));
	ends.tile_changed(2, TileTypeValue::End, (4, 5));
	ends
}

#[test]
fn spawn_path_nothing_if_start_and_end_missing() {
	let mut ends = PathEnds::<(i32, i32)>::new();

	assert_eq!(None, ends.both());

	ends.tile_changed(7, TileTypeValue::Obstacle, (1, 2));
	ends.tile_changed(8, TileTypeValue::Walkable, (4, 5));

	assert_eq!(None, ends.both());
}

#[test]
fn call_path_with_correct_start_and_end() {
	let ends = start_and_end_placed();

	assert_eq!(Some(((1, 2), (4, 5))), ends.both());
}

#[test]
fn call_path_with_correct_start_and_end_reversed() {
	let mut ends = PathEnds::new();
	ends.tile_changed(2, TileTypeValue::End, (4, 5));
	ends.tile_changed(1, TileTypeValue::Start, (1, 2));

	assert_eq!(Some(((1, 2), (4, 5))), ends.both());
}

#[test]
fn act_again_if_start_changed() {
	let mut ends = start_and_end_placed();

	ends.tile_changed(1, TileTypeValue::Walkable, (1, 2));
	ends.tile_changed(3, TileTypeValue::Start, (7, 8));

	assert_eq!(Some(((7, 8), (4, 5))), ends.both());
}

#[test]
fn remove_computed_path_if_start_changed_to_not_being_start() {
	let mut ends = start_and_end_placed();

	ends.tile_changed(1, TileTypeValue::Walkable, (1, 2));

	assert_eq!(None, ends.both());
}

#[test]
fn remove_computed_path_if_end_changed_to_not_being_end() {
	let mut ends = start_and_end_placed();

	ends.tile_changed(2, TileTypeValue::Walkable, (4, 5));

	assert_eq!(None, ends.both());
}

#[test]
fn remove_computed_path_if_start_removed() {
	let mut ends = start_and_end_placed();

	ends.tile_removed(1);

	assert_eq!(None, ends.both());
}

#[test]
fn remove_computed_path_if_end_removed() {
	let mut ends = start_and_end_placed();

	ends.tile_removed(2);

	assert_eq!(None, ends.both());
}
