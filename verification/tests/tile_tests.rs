use citygrid::{Chunk, FloorTileType, Tile, WallTileType};

#[test]
fn white_pixel_is_brick_wall() {
    let t = Tile::from_rgb(255, 255, 255);
    assert_eq!(t, Tile::WallTile(WallTileType::BrickWall));
}

#[test]
fn black_pixel_is_asphalt_floor() {
    let t = Tile::from_rgb(0, 0, 0);
    assert_eq!(t, Tile::FloorTile(FloorTileType::AsphaltFloor, None));
}

#[test]
fn gray_pixel_is_concrete_floor() {
    let t = Tile::from_rgb(128, 128, 128);
    assert_eq!(t, Tile::FloorTile(FloorTileType::ConcreteFloor, None));
}

#[test]
fn unmatched_pixel_is_grass_floor() {
    let t = Tile::from_rgb(7, 7, 7);
    assert_eq!(t, Tile::FloorTile(FloorTileType::GrassFloor, None));
}

#[test]
fn default_tile_is_grass_with_no_occupant() {
    let t: Tile = Default::default();
    assert_eq!(t, Tile::FloorTile(FloorTileType::GrassFloor, None));
    match t {
        Tile::FloorTile(kind, occupant) => {
            assert_eq!(kind, FloorTileType::GrassFloor);
            assert!(occupant.is_none());
        }
        Tile::WallTile(_) => panic!("default tile must be a floor"),
    }
}

#[test]
fn color_table() {
    assert_eq!(Tile::WallTile(WallTileType::BrickWall).color(), (100, 100, 100));
    assert_eq!(Tile::FloorTile(FloorTileType::AsphaltFloor, None).color(), (10, 10, 10));
    assert_eq!(Tile::FloorTile(FloorTileType::GrassFloor, None).color(), (9, 37, 18));
    assert_eq!(Tile::FloorTile(FloorTileType::ConcreteFloor, None).color(), (50, 50, 50));
}

#[test]
fn tile_buffer_emits_unit_square_and_two_triangles() {
    let mut positions: Vec<i32> = Vec::new();
    let mut colors: Vec<u8> = Vec::new();
    let mut indices: Vec<u16> = Vec::new();
    let t = Tile::FloorTile(FloorTileType::AsphaltFloor, None);
    t.buffer(&mut positions, &mut colors, &mut indices, 2, 3);
    // Corners NW, NE, SE, SW in half-tile units around (2, 3).
    assert_eq!(positions, vec![3, 5, 5, 5, 5, 7, 3, 7]);
    assert_eq!(indices, vec![0, 1, 3, 1, 2, 3]);
    assert_eq!(colors, vec![10, 10, 10, 10, 10, 10, 10, 10, 10, 10, 10, 10]);
}

#[test]
fn tile_buffer_offsets_indices_by_running_vertex_count() {
    let mut positions: Vec<i32> = Vec::new();
    let mut colors: Vec<u8> = Vec::new();
    let mut indices: Vec<u16> = Vec::new();
    let t = Tile::FloorTile(FloorTileType::GrassFloor, None);
    t.buffer(&mut positions, &mut colors, &mut indices, 0, 0);
    t.buffer(&mut positions, &mut colors, &mut indices, 1, 0);
    assert_eq!(positions.len(), 16);
    assert_eq!(colors.len(), 24);
    assert_eq!(&indices[..], &[0, 1, 3, 1, 2, 3, 4, 5, 7, 5, 6, 7]);
}

#[test]
fn chunk_buffer_counts_match_chunk_area() {
    let mut c = Chunk::blank(0, 0, 3);
    c.buffer();
    // 9 tiles: 4 vertices and 6 indices each.
    assert_eq!(c.positions.len(), 8 * 9);
    assert_eq!(c.colors.len(), 12 * 9);
    assert_eq!(c.indices.len(), 6 * 9);
    assert_eq!(c.index_count, 6 * 9);
    let max = c.indices.iter().copied().max().unwrap();
    assert!(max <= 4 * 9 - 1);
    for i in 0..9u16 {
        let o = 4 * i;
        let six = &c.indices[(6 * i) as usize..(6 * i + 6) as usize];
        assert_eq!(six, &[o, o + 1, o + 3, o + 1, o + 2, o + 3]);
    }
}

#[test]
fn blank_chunk_buffers_grass_colors() {
    let mut c = Chunk::blank(0, 0, 2);
    c.buffer();
    for v in 0..4 * 4 {
        let rgb = &c.colors[3 * v..3 * v + 3];
        assert_eq!(rgb, &[9, 37, 18]);
    }
}

#[test]
fn chunk_replace_tile_changes_one_slot() {
    let mut c = Chunk::blank(6, 6, 3);
    c.replace_tile(7, 8, Tile::WallTile(WallTileType::BrickWall));
    // Row-major slot of local coordinate (1, 2).
    assert_eq!(c.tiles[2 * 3 + 1], Tile::WallTile(WallTileType::BrickWall));
    let mut untouched = 0;
    for (i, t) in c.tiles.iter().enumerate() {
        if i != 2 * 3 + 1 {
            assert_eq!(*t, Tile::FloorTile(FloorTileType::GrassFloor, None));
            untouched += 1;
        }
    }
    assert_eq!(untouched, 8);
    c.buffer();
    let rgb = &c.colors[12 * (2 * 3 + 1)..12 * (2 * 3 + 1) + 3];
    assert_eq!(rgb, &[100, 100, 100]);
}
