use std::collections::HashMap;

use life::{CellType, Loc, World};

fn entries(world: &World) -> HashMap<Loc, CellType> {
    let cells = world.current_buffer();
    let count = cells.len();
    let map: HashMap<Loc, CellType> = cells.into_iter().collect();
    assert_eq!(map.len(), count, "a position is listed twice");
    map
}

fn world_of(cells: &[(i64, i64, CellType)]) -> World {
    let mut world = World::new();
    for &(row, col, cell) in cells {
        world.set_cell_now(&Loc::new(row, col), cell);
    }
    world
}

fn alive_cells(world: &World) -> Vec<(i64, i64, CellType)> {
    let mut cells: Vec<(i64, i64, CellType)> = world
        .current_buffer()
        .into_iter()
        .filter(|(_, cell)| cell.is_alive())
        .map(|(loc, cell)| (loc.row, loc.col, cell))
        .collect();
    cells.sort_by_key(|&(row, col, _)| (row, col));
    cells
}

#[test]
fn new_world_is_empty_and_dead() {
    let world = World::new();
    assert!(world.current_buffer().is_empty());
    for loc in [Loc::new(0, 0), Loc::new(-7, 12), Loc::new(i64::MAX, i64::MIN)] {
        assert_eq!(world.get(&loc), CellType::Dead);
    }
}

#[test]
fn unwritten_cells_stay_dead() {
    let mut world = World::new();
    world.set_cell_now(&Loc::new(0, 0), CellType::Red);
    world.set(&Loc::new(9, 9), CellType::Blue);
    assert_eq!(world.get(&Loc::new(0, 1)), CellType::Dead);
    assert_eq!(world.get(&Loc::new(5, 5)), CellType::Dead);
    assert_eq!(world.get(&Loc::new(9, 9)), CellType::Dead);
}

#[test]
fn set_cell_now_is_seen_at_once() {
    let mut world = World::new();
    world.set_cell_now(&Loc::new(2, 3), CellType::Blue);
    assert_eq!(world.get(&Loc::new(2, 3)), CellType::Blue);
    world.set_cell_now(&Loc::new(2, 3), CellType::Red);
    assert_eq!(world.get(&Loc::new(2, 3)), CellType::Red);
    world.set_cell_now(&Loc::new(2, 3), CellType::Dead);
    assert_eq!(world.get(&Loc::new(2, 3)), CellType::Dead);
}

#[test]
fn set_alive_now_writes_red() {
    let mut world = World::new();
    world.set_alive_now(&Loc::new(-1, -1));
    assert_eq!(world.get(&Loc::new(-1, -1)), CellType::Red);
    assert_eq!(entries(&world).len(), 9);
}

#[test]
fn set_is_not_seen_before_the_swap() {
    let mut world = World::new();
    world.set(&Loc::new(1, 1), CellType::Red);
    assert_eq!(world.get(&Loc::new(1, 1)), CellType::Dead);
    assert!(world.current_buffer().is_empty());
    world.swap_buffers_and_clear();
    assert_eq!(world.get(&Loc::new(1, 1)), CellType::Red);
}

#[test]
fn set_cell_now_is_not_carried_over_by_the_swap() {
    let mut world = World::new();
    world.set(&Loc::new(1, 1), CellType::Red);
    world.set_cell_now(&Loc::new(5, 5), CellType::Blue);
    world.swap_buffers_and_clear();
    let map = entries(&world);
    assert_eq!(map.len(), 9);
    assert_eq!(map[&Loc::new(1, 1)], CellType::Red);
    assert_eq!(world.get(&Loc::new(5, 5)), CellType::Dead);
}

#[test]
fn buffer_for_set_starts_empty_after_the_swap() {
    let mut world = World::new();
    world.set(&Loc::new(1, 1), CellType::Red);
    world.swap_buffers_and_clear();
    world.set(&Loc::new(40, 40), CellType::Blue);
    world.swap_buffers_and_clear();
    let map = entries(&world);
    assert_eq!(map.len(), 9);
    assert_eq!(map[&Loc::new(40, 40)], CellType::Blue);
    assert!(!map.contains_key(&Loc::new(1, 1)));
    world.swap_buffers_and_clear();
    assert!(world.current_buffer().is_empty());
}

#[test]
fn alive_write_materializes_the_eight_neighbors() {
    let mut world = World::new();
    let loc = Loc::new(0, 0);
    world.set_cell_now(&loc, CellType::Blue);
    let map = entries(&world);
    assert_eq!(map.len(), 9);
    assert_eq!(map[&loc], CellType::Blue);
    for n in loc.neighbors() {
        assert_eq!(map[&n], CellType::Dead);
    }
}

#[test]
fn staged_alive_write_materializes_the_eight_neighbors() {
    let mut world = World::new();
    let loc = Loc::new(3, -3);
    world.set(&loc, CellType::Red);
    world.swap_buffers_and_clear();
    let map = entries(&world);
    assert_eq!(map.len(), 9);
    for n in loc.neighbors() {
        assert_eq!(map[&n], CellType::Dead);
    }
}

#[test]
fn dead_write_materializes_only_its_own_entry() {
    let mut world = World::new();
    world.set_cell_now(&Loc::new(0, 0), CellType::Dead);
    let map = entries(&world);
    assert_eq!(map.len(), 1);
    assert_eq!(map[&Loc::new(0, 0)], CellType::Dead);

    let mut staged = World::new();
    staged.set(&Loc::new(0, 0), CellType::Dead);
    staged.swap_buffers_and_clear();
    assert_eq!(entries(&staged).len(), 1);
}

#[test]
fn materializing_does_not_overwrite_a_live_neighbor() {
    let mut world = World::new();
    world.set_cell_now(&Loc::new(0, 0), CellType::Red);
    world.set_cell_now(&Loc::new(0, 1), CellType::Blue);
    assert_eq!(world.get(&Loc::new(0, 0)), CellType::Red);
    assert_eq!(world.get(&Loc::new(0, 1)), CellType::Blue);
    assert_eq!(entries(&world).len(), 12);
}

#[test]
fn write_at_the_corner_of_the_grid() {
    let mut world = World::new();
    let loc = Loc::new(i64::MIN, i64::MAX);
    world.set_cell_now(&loc, CellType::Red);
    let map = entries(&world);
    assert_eq!(map.len(), 9);
    assert_eq!(map[&loc], CellType::Red);
    assert_eq!(map[&Loc::new(i64::MAX, i64::MIN)], CellType::Dead);
    assert_eq!(world.get(&Loc::new(i64::MIN + 1, i64::MAX - 1)), CellType::Dead);
}

#[test]
fn lone_cell_dies() {
    let mut world = world_of(&[(0, 0, CellType::Red)]);
    world.step();
    assert_eq!(world.get(&Loc::new(0, 0)), CellType::Dead);
    let map = entries(&world);
    assert_eq!(map.len(), 1);
    assert_eq!(map[&Loc::new(0, 0)], CellType::Dead);
    world.step();
    assert!(world.current_buffer().is_empty());
}

#[test]
fn pair_dies_with_one_neighbor_each() {
    let mut world = world_of(&[(0, 0, CellType::Red), (0, 1, CellType::Blue)]);
    world.step();
    assert!(alive_cells(&world).is_empty());
}

#[test]
fn crowded_cell_dies() {
    let mut world = world_of(&[
        (0, 0, CellType::Red),
        (-1, 0, CellType::Red),
        (1, 0, CellType::Red),
        (0, -1, CellType::Red),
        (0, 1, CellType::Red),
    ]);
    world.step();
    assert_eq!(world.get(&Loc::new(0, 0)), CellType::Dead);
    assert_eq!(world.get(&Loc::new(-1, -1)), CellType::Red);
    assert_eq!(world.get(&Loc::new(-1, 0)), CellType::Red);
}

#[test]
fn block_is_a_still_life() {
    let block = [
        (0, 0, CellType::Red),
        (0, 1, CellType::Red),
        (1, 0, CellType::Red),
        (1, 1, CellType::Red),
    ];
    let mut world = world_of(&block);
    let before = entries(&world);
    assert_eq!(before.len(), 16);
    for _ in 0..10 {
        world.step();
        assert_eq!(alive_cells(&world), block.to_vec());
        assert_eq!(entries(&world), before);
    }
}

#[test]
fn blinker_oscillates() {
    let upright = [(-1, 0, CellType::Blue), (0, 0, CellType::Blue), (1, 0, CellType::Blue)];
    let mut world = world_of(&upright);
    world.step();
    assert_eq!(
        alive_cells(&world),
        vec![(0, -1, CellType::Blue), (0, 0, CellType::Blue), (0, 1, CellType::Blue)]
    );
    world.step();
    assert_eq!(alive_cells(&world), upright.to_vec());
}

#[test]
fn birth_with_two_red_and_one_blue_is_red() {
    let mut world =
        world_of(&[(0, 0, CellType::Red), (0, 2, CellType::Red), (2, 1, CellType::Blue)]);
    world.step();
    assert_eq!(world.get(&Loc::new(1, 1)), CellType::Red);
}

#[test]
fn birth_with_one_red_and_two_blue_is_blue() {
    let mut world =
        world_of(&[(0, 0, CellType::Blue), (0, 2, CellType::Blue), (2, 1, CellType::Red)]);
    world.step();
    assert_eq!(world.get(&Loc::new(1, 1)), CellType::Blue);
}

#[test]
fn birth_among_one_colour_takes_it() {
    let mut red = world_of(&[(0, 0, CellType::Red), (0, 2, CellType::Red), (2, 1, CellType::Red)]);
    red.step();
    assert_eq!(red.get(&Loc::new(1, 1)), CellType::Red);
    let mut blue =
        world_of(&[(0, 0, CellType::Blue), (0, 2, CellType::Blue), (2, 1, CellType::Blue)]);
    blue.step();
    assert_eq!(blue.get(&Loc::new(1, 1)), CellType::Blue);
}

#[test]
fn no_birth_with_two_or_four_neighbors() {
    let mut two = world_of(&[(0, 0, CellType::Red), (0, 2, CellType::Red)]);
    two.step();
    assert_eq!(two.get(&Loc::new(1, 1)), CellType::Dead);
    let mut four = world_of(&[
        (0, 0, CellType::Red),
        (0, 2, CellType::Red),
        (2, 0, CellType::Red),
        (2, 2, CellType::Red),
    ]);
    four.step();
    assert_eq!(four.get(&Loc::new(1, 1)), CellType::Dead);
}

#[test]
fn survivor_keeps_its_colour_among_the_other() {
    let mut world =
        world_of(&[(0, 0, CellType::Blue), (0, 1, CellType::Red), (1, 0, CellType::Red)]);
    world.step();
    assert_eq!(world.get(&Loc::new(0, 0)), CellType::Blue);
    assert_eq!(world.get(&Loc::new(0, 1)), CellType::Red);
    assert_eq!(world.get(&Loc::new(1, 0)), CellType::Red);
    assert_eq!(world.get(&Loc::new(1, 1)), CellType::Red);
}

#[test]
fn step_records_deaths_and_the_frontier() {
    let mut world = world_of(&[(0, 0, CellType::Red), (0, 1, CellType::Red), (0, 2, CellType::Red)]);
    world.step();
    let map = entries(&world);
    assert_eq!(map[&Loc::new(0, 0)], CellType::Dead);
    assert_eq!(map[&Loc::new(0, 2)], CellType::Dead);
    assert_eq!(map[&Loc::new(-1, 1)], CellType::Red);
    assert_eq!(map[&Loc::new(0, 1)], CellType::Red);
    assert_eq!(map[&Loc::new(1, 1)], CellType::Red);
    assert_eq!(map[&Loc::new(-2, 0)], CellType::Dead);
    assert_eq!(map[&Loc::new(2, 2)], CellType::Dead);
    assert!(!map.contains_key(&Loc::new(0, 3)));
    assert!(!map.contains_key(&Loc::new(-1, -1)));
    assert_eq!(map.len(), 15);
}

#[test]
fn step_keeps_what_was_staged_elsewhere() {
    let mut world = world_of(&[(0, 0, CellType::Red), (0, 1, CellType::Red), (0, 2, CellType::Red)]);
    world.set(&Loc::new(50, 50), CellType::Blue);
    world.set(&Loc::new(0, 0), CellType::Blue);
    world.step();
    assert_eq!(world.get(&Loc::new(50, 50)), CellType::Blue);
    assert_eq!(world.get(&Loc::new(0, 0)), CellType::Dead);
    assert_eq!(world.get(&Loc::new(0, 1)), CellType::Red);
}

#[test]
fn step_across_the_edge_of_the_grid() {
    let mut world = world_of(&[
        (i64::MAX, 0, CellType::Red),
        (i64::MIN, 0, CellType::Red),
        (i64::MIN + 1, 0, CellType::Red),
    ]);
    world.step();
    assert_eq!(
        alive_cells(&world),
        vec![(i64::MIN, -1, CellType::Red), (i64::MIN, 0, CellType::Red), (i64::MIN, 1, CellType::Red)]
    );
}

#[test]
fn current_buffer_lists_each_entry_once() {
    let mut world = World::new();
    world.set_cell_now(&Loc::new(0, 0), CellType::Red);
    world.set_cell_now(&Loc::new(1, 1), CellType::Blue);
    let cells = world.current_buffer();
    assert_eq!(cells.len(), 14);
    for (loc, cell) in &cells {
        assert_eq!(world.get(loc), *cell);
    }
    let map = entries(&world);
    assert_eq!(map[&Loc::new(0, 0)], CellType::Red);
    assert_eq!(map[&Loc::new(1, 1)], CellType::Blue);
}
