use world::{World, WorldConfig, WorldError};

fn world_from_text(text: &str) -> World {
    World::new(WorldConfig::parse(text).expect("text should parse"))
}

#[test]
fn parse_then_render_round_trips() {
    // `1` and `#` both mean alive on input; output always uses `#` and `.`.
    let world = world_from_text("#.x\n1# \n...\n");
    assert_eq!(world.to_string(), "#..\n##.\n...\n");
}

#[test]
fn parse_round_trips_rendered_output() {
    let first = world_from_text("..#\n#.#\n.##\n");
    let rendered = first.to_string();
    let second = world_from_text(&rendered);
    assert_eq!(second.to_string(), rendered);
}

#[test]
fn parse_rejects_nonuniform_rows() {
    assert_eq!(WorldConfig::parse("##\n#\n").unwrap_err(), WorldError::MalformedGrid);
}

#[test]
fn parse_rejects_empty_text() {
    assert_eq!(WorldConfig::parse("").unwrap_err(), WorldError::MalformedGrid);
}

#[test]
fn parse_accepts_unterminated_last_row() {
    let with_newline = world_from_text("#.\n.#\n");
    let without_newline = world_from_text("#.\n.#");
    assert_eq!(with_newline.to_string(), without_newline.to_string());
}

#[test]
fn parse_reads_dimensions() {
    let world = world_from_text("...#\n#...\n.#..\n");
    assert_eq!(world.width(), 4);
    assert_eq!(world.height(), 3);
}

#[test]
fn zero_config_is_all_dead() {
    let world = World::new(WorldConfig::zero(4, 3));
    assert_eq!(world.width(), 4);
    assert_eq!(world.height(), 3);
    assert_eq!(world.to_string(), "....\n....\n....\n");
}

#[test]
fn new_config_packs_cells_row_major() {
    let config = WorldConfig::new(2, 2, vec![true, false, false, true]);
    let world = World::new(config);
    assert_eq!(world.to_string(), "#.\n.#\n");
}

#[test]
fn set_marks_and_clears_one_cell() {
    let mut world = World::new(WorldConfig::zero(3, 2));
    assert_eq!(world.set(1, 2, true), Ok(()));
    assert_eq!(world.to_string(), "...\n..#\n");
    assert_eq!(world.set(1, 2, false), Ok(()));
    assert_eq!(world.to_string(), "...\n...\n");
    assert_eq!(world.generation(), 0);
}

#[test]
fn set_rejects_each_dimension_at_and_beyond_its_bound() {
    // Width 3, height 2: rows run 0..2 and columns 0..3.
    let mut world = World::new(WorldConfig::zero(3, 2));
    assert_eq!(world.set(2, 0, true), Err(WorldError::OutOfBounds));
    assert_eq!(world.set(5, 0, true), Err(WorldError::OutOfBounds));
    assert_eq!(world.set(0, 3, true), Err(WorldError::OutOfBounds));
    assert_eq!(world.set(0, 7, true), Err(WorldError::OutOfBounds));
    // The last interior coordinate is fine.
    assert_eq!(world.set(1, 2, true), Ok(()));
    assert_eq!(world.to_string(), "...\n..#\n");
}

#[test]
fn lone_cell_dies_at_every_position() {
    for row in 0..3usize {
        for col in 0..3usize {
            let mut world = World::new(WorldConfig::zero(3, 3));
            world.set(row, col, true).unwrap();
            world.tick();
            assert_eq!(world.to_string(), "...\n...\n...\n");
        }
    }
}

#[test]
fn block_is_a_still_life() {
    let mut world = world_from_text("....\n.##.\n.##.\n....\n");
    world.tick();
    assert_eq!(world.to_string(), "....\n.##.\n.##.\n....\n");
}

#[test]
fn blinker_oscillates_with_period_two() {
    let horizontal = ".....\n.....\n.###.\n.....\n.....\n";
    let vertical = ".....\n..#..\n..#..\n..#..\n.....\n";
    let mut world = world_from_text(horizontal);
    world.tick();
    assert_eq!(world.to_string(), vertical);
    world.tick();
    assert_eq!(world.to_string(), horizontal);
}

#[test]
fn generation_counts_ticks() {
    let mut world = World::new(WorldConfig::zero(2, 2));
    assert_eq!(world.generation(), 0);
    for expected in 1..=5 {
        world.tick();
        assert_eq!(world.generation(), expected);
    }
}

#[test]
fn tick_does_not_resize_the_grid() {
    let mut world = world_from_text("##.\n.#.\n");
    world.tick();
    assert_eq!(world.width(), 3);
    assert_eq!(world.height(), 2);
}

#[test]
fn overcrowded_cell_dies() {
    // The centre of a full 3x3 grid has eight live neighbours.
    let mut world = world_from_text("###\n###\n###\n");
    world.tick();
    assert_eq!(world.to_string(), "#.#\n...\n#.#\n");
}

#[test]
fn dead_cell_with_three_neighbours_is_born() {
    let mut world = world_from_text("##\n#.\n");
    world.tick();
    assert_eq!(world.to_string(), "##\n##\n");
}
