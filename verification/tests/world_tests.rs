use citygrid::{fill_rect, generate, Config, FloorTileType, Tile, World, WorldError};

fn small_config() -> Config {
    Config { grid_size: 2, street_width: 1, block_width: 2, chunk_size: 3 }
}

fn tile_of(world: &World, x: usize, y: usize) -> Tile {
    let cs = world.config.chunk_size;
    let chunk = world.chunk_containing(x, y);
    chunk.tiles[(y % cs) * cs + (x % cs)]
}

fn is_asphalt(world: &World, x: usize, y: usize) -> bool {
    tile_of(world, x, y) == Tile::FloorTile(FloorTileType::AsphaltFloor, None)
}

fn is_grass(world: &World, x: usize, y: usize) -> bool {
    tile_of(world, x, y) == Tile::FloorTile(FloorTileType::GrassFloor, None)
}

#[test]
fn two_by_two_scenario() {
    let world = World::new(small_config()).unwrap();
    // Intersection (0,0) occupies exactly (0,0).
    assert!(is_asphalt(&world, 0, 0));
    // Its east street spans x in [1,2] at y = 0.
    assert!(is_asphalt(&world, 1, 0));
    assert!(is_asphalt(&world, 2, 0));
    // Intersection (1,0) sits at x = 3.
    assert!(is_asphalt(&world, 3, 0));
    // Its south street runs down at x = 3.
    assert!(is_asphalt(&world, 3, 1));
    assert!(is_asphalt(&world, 3, 2));
    assert!(is_asphalt(&world, 3, 3));
    // The south street of (0,0) runs down at x = 0.
    assert!(is_asphalt(&world, 0, 1));
    assert!(is_asphalt(&world, 0, 2));
    assert!(is_asphalt(&world, 0, 3));
    // Beyond the generated street extent everything stays grass.
    for y in 0..6 {
        assert!(is_grass(&world, 4, y), "x=4 y={} should be grass", y);
        assert!(is_grass(&world, 5, y), "x=5 y={} should be grass", y);
    }
    for x in 0..6 {
        assert!(is_grass(&world, x, 4), "x={} y=4 should be grass", x);
        assert!(is_grass(&world, x, 5), "x={} y=5 should be grass", x);
    }
    // Block interior is grass.
    assert!(is_grass(&world, 1, 1));
    assert!(is_grass(&world, 2, 2));
}

#[test]
fn single_intersection_world() {
    let world = World::new(Config { grid_size: 1, street_width: 1, block_width: 2, chunk_size: 3 })
        .unwrap();
    assert!(is_asphalt(&world, 0, 0));
    for y in 0..3 {
        for x in 0..3 {
            if !(x == 0 && y == 0) {
                assert!(is_grass(&world, x, y));
            }
        }
    }
}

#[test]
fn chunk_lookup_round_trips() {
    let world = World::new(small_config()).unwrap();
    let cs = world.config.chunk_size;
    for y in 0..6 {
        for x in 0..6 {
            let chunk = world.chunk_containing(x, y);
            assert_eq!(chunk.min_x, (x / cs) * cs);
            assert_eq!(chunk.min_y, (y / cs) * cs);
            let off_x = x % cs;
            let off_y = y % cs;
            assert_eq!(chunk.min_x + off_x, x);
            assert_eq!(chunk.min_y + off_y, y);
        }
    }
}

#[test]
fn uneven_chunking_is_a_configuration_error() {
    // World extent 6 does not divide into chunks of 4.
    let r = World::new(Config { grid_size: 2, street_width: 1, block_width: 2, chunk_size: 4 });
    assert_eq!(r.err(), Some(WorldError::ConfigurationError));
}

#[test]
fn zero_grid_is_a_configuration_error() {
    let r = World::new(Config { grid_size: 0, street_width: 1, block_width: 2, chunk_size: 1 });
    assert_eq!(r.err(), Some(WorldError::ConfigurationError));
}

#[test]
fn oversized_chunk_is_a_configuration_error() {
    // A 128-tile chunk would overflow 16-bit vertex indices.
    let r = World::new(Config { grid_size: 1, street_width: 64, block_width: 64, chunk_size: 128 });
    assert_eq!(r.err(), Some(WorldError::ConfigurationError));
}

#[test]
fn out_of_bounds_replace_is_a_bounds_error() {
    let mut world = World::new(small_config()).unwrap();
    let wall = Tile::from_rgb(255, 255, 255);
    assert_eq!(world.replace_tile(6, 0, wall), Err(WorldError::BoundsError));
    assert_eq!(world.replace_tile(0, 6, wall), Err(WorldError::BoundsError));
    // The world is untouched.
    assert!(is_asphalt(&world, 0, 0));
    assert!(is_grass(&world, 4, 4));
}

#[test]
fn replace_tile_rebuffers_only_the_owning_chunk() {
    let mut world = World::new(small_config()).unwrap();
    let snapshot: Vec<Vec<(Vec<i32>, Vec<u8>, Vec<u16>, usize)>> = world
        .chunks
        .iter()
        .map(|row| {
            row.iter()
                .map(|c| (c.positions.clone(), c.colors.clone(), c.indices.clone(), c.index_count))
                .collect()
        })
        .collect();
    // (1, 1) lies in chunk (0, 0).
    world.replace_tile(1, 1, Tile::from_rgb(255, 255, 255)).unwrap();
    for cy in 0..2 {
        for cx in 0..2 {
            let c = &world.chunks[cy][cx];
            let s = &snapshot[cy][cx];
            if cy == 0 && cx == 0 {
                // The owning chunk's colors change at slot (1, 1).
                let slot = 1 * 3 + 1;
                assert_eq!(&c.colors[12 * slot..12 * slot + 3], &[100, 100, 100]);
                assert_ne!(c.colors, s.1);
                // Positions and indices are regenerated identically.
                assert_eq!(c.positions, s.0);
                assert_eq!(c.indices, s.2);
                assert_eq!(c.index_count, s.3);
            } else {
                // Sibling chunks' buffers are byte-identical.
                assert_eq!(c.positions, s.0);
                assert_eq!(c.colors, s.1);
                assert_eq!(c.indices, s.2);
                assert_eq!(c.index_count, s.3);
            }
        }
    }
    assert_eq!(tile_of(&world, 1, 1), Tile::from_rgb(255, 255, 255));
}

#[test]
fn filling_twice_equals_filling_once() {
    let mut once = World::new(small_config()).unwrap();
    let mut twice = World::new(small_config()).unwrap();
    let concrete = Tile::FloorTile(FloorTileType::ConcreteFloor, None);
    fill_rect(&mut once, concrete, 1, 1, 4, 3);
    fill_rect(&mut twice, concrete, 1, 1, 4, 3);
    fill_rect(&mut twice, concrete, 1, 1, 4, 3);
    for y in 0..6 {
        for x in 0..6 {
            assert_eq!(tile_of(&once, x, y), tile_of(&twice, x, y));
        }
    }
    // And the fill wrote what it should.
    assert_eq!(tile_of(&once, 1, 1), concrete);
    assert_eq!(tile_of(&once, 4, 3), concrete);
    assert!(is_asphalt(&once, 0, 0));
}

#[test]
fn regenerating_overwrites_streets_and_keeps_the_rest() {
    let mut world = World::new(small_config()).unwrap();
    // Scribble over a street tile and a block-interior tile.
    let concrete = Tile::FloorTile(FloorTileType::ConcreteFloor, None);
    world.replace_tile(0, 0, concrete).unwrap();
    world.replace_tile(1, 1, concrete).unwrap();
    assert_eq!(tile_of(&world, 0, 0), concrete);
    generate(&mut world);
    // The street footprint is asphalt again; the interior keeps its tile.
    assert!(is_asphalt(&world, 0, 0));
    assert_eq!(tile_of(&world, 1, 1), concrete);
    assert!(is_grass(&world, 2, 2));
}

#[test]
fn default_config_is_the_canonical_one() {
    let c: Config = Default::default();
    assert_eq!(c.grid_size, 10);
    assert_eq!(c.street_width, 15);
    assert_eq!(c.block_width, 185);
    assert_eq!(c.chunk_size, 20);
    assert!(c.valid());
}
