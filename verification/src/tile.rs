//! Tiles: the smallest addressable unit of the world surface, and the
//! packing of one tile into flat vertex/color/index data.
//!
//! All geometry is integer-valued so that it can be reasoned about exactly:
//! vertex positions are in half-tile units (two units per tile, so the
//! corners of the tile at `(x, y)` are `(2x - 1, 2y - 1)` through
//! `(2x + 1, 2y + 1)`), and colors are per-channel percentages in `0..=100`.
//! A rendering backend divides positions by two and colors by one hundred.

use vstd::prelude::*;

verus! {

/// A tile is either a wall or a floor; a floor may carry the handle of an
/// occupant, an index into a table kept outside the tile grid. No kind of
/// occupant exists yet, so every handle in a generated world is `None`; a
/// wall never has an occupant.
#[derive(Debug, Clone, Copy, PartialEq, Eq, Structural)]
pub enum Tile {
    WallTile(WallTileType),
    FloorTile(FloorTileType, Option<usize>),
}

#[derive(Debug, Clone, Copy, PartialEq, Eq, Structural)]
pub enum WallTileType {
    BrickWall,
}

#[derive(Debug, Clone, Copy, PartialEq, Eq, Structural)]
pub enum FloorTileType {
    ConcreteFloor,
    AsphaltFloor,
    GrassFloor,
}

/// The fixed color of a tile, as `(r, g, b)` channel percentages:
/// walls are white, asphalt dark gray, grass green, concrete mid gray.
pub open spec fn spec_color(t: Tile) -> (u8, u8, u8) {
    match t {
        Tile::WallTile(_) => (100, 100, 100),
        Tile::FloorTile(FloorTileType::AsphaltFloor, _) => (10, 10, 10),
        Tile::FloorTile(FloorTileType::GrassFloor, _) => (9, 37, 18),
        Tile::FloorTile(FloorTileType::ConcreteFloor, _) => (50, 50, 50),
    }
}

/// The eight position entries one tile at `(x, y)` emits: the corners
/// NW, NE, SE, SW of a unit square centered on the tile, in half-tile units.
pub open spec fn spec_positions(x: int, y: int) -> Seq<i32> {
    seq![
        (2 * x - 1) as i32,
        (2 * y - 1) as i32,
        (2 * x + 1) as i32,
        (2 * y - 1) as i32,
        (2 * x + 1) as i32,
        (2 * y + 1) as i32,
        (2 * x - 1) as i32,
        (2 * y + 1) as i32,
    ]
}

/// The twelve color entries one tile emits: its color, once per corner.
pub open spec fn spec_colors(t: Tile) -> Seq<u8> {
    let (r, g, b) = spec_color(t);
    seq![r, g, b, r, g, b, r, g, b, r, g, b]
}

/// The six index entries one tile emits when `o` vertices precede it:
/// two triangles (NW, NE, SW) and (NE, SE, SW).
pub open spec fn spec_indices(o: int) -> Seq<u16> {
    seq![
        o as u16,
        (o + 1) as u16,
        (o + 3) as u16,
        (o + 1) as u16,
        (o + 2) as u16,
        (o + 3) as u16,
    ]
}

impl Tile {
    /// The tile a map image pixel stands for: white is a brick wall, black
    /// an asphalt floor, mid gray a concrete floor, and anything else a
    /// grass floor; never an occupant.
    pub fn from_rgb(r: u8, g: u8, b: u8) -> (t: Tile)
        ensures
            t == (if r == 255 && g == 255 && b == 255 {
                Tile::WallTile(WallTileType::BrickWall)
            } else if r == 0 && g == 0 && b == 0 {
                Tile::FloorTile(FloorTileType::AsphaltFloor, None)
            } else if r == 128 && g == 128 && b == 128 {
                Tile::FloorTile(FloorTileType::ConcreteFloor, None)
            } else {
                Tile::FloorTile(FloorTileType::GrassFloor, None)
            }),
    {
        match (r, g, b) {
            (255, 255, 255) => Tile::WallTile(WallTileType::BrickWall),
            (0, 0, 0) => Tile::FloorTile(FloorTileType::AsphaltFloor, None),
            (128, 128, 128) => Tile::FloorTile(FloorTileType::ConcreteFloor, None),
            _ => Tile::FloorTile(FloorTileType::GrassFloor, None),
        }
    }

    /// This tile's fixed rendering color, as channel percentages.
    pub fn color(&self) -> (c: (u8, u8, u8))
        ensures
            c == spec_color(*self),
    {
        match *self {
            Tile::WallTile(_) => (100, 100, 100),
            Tile::FloorTile(FloorTileType::AsphaltFloor, _) => (10, 10, 10),
            Tile::FloorTile(FloorTileType::GrassFloor, _) => (9, 37, 18),
            Tile::FloorTile(FloorTileType::ConcreteFloor, _) => (50, 50, 50),
        }
    }

    /// Append this tile's geometry for world position `(x, y)` to the three
    /// arrays: four vertices, their colors, and six indices relative to the
    /// running vertex count.
    pub fn buffer(
        &self,
        positions: &mut Vec<i32>,
        colors: &mut Vec<u8>,
        indices: &mut Vec<u16>,
        x: usize,
        y: usize,
    )
        requires
            x <= 0x3fff_ffff,
            y <= 0x3fff_ffff,
            old(positions)@.len() % 2 == 0,
            old(positions)@.len() / 2 + 4 <= 65536,
        ensures
            final(positions)@ == old(positions)@ + spec_positions(x as int, y as int),
            final(colors)@ == old(colors)@ + spec_colors(*self),
            final(indices)@ == old(indices)@ + spec_indices(old(positions)@.len() as int / 2),
    {
        let o: u16 = (positions.len() / 2) as u16;

        let px: i32 = 2 * (x as i32);
        let py: i32 = 2 * (y as i32);
        positions.push(px - 1);
        positions.push(py - 1);
        positions.push(px + 1);
        positions.push(py - 1);
        positions.push(px + 1);
        positions.push(py + 1);
        positions.push(px - 1);
        positions.push(py + 1);

        indices.push(o);
        indices.push(o + 1);
        indices.push(o + 3);
        indices.push(o + 1);
        indices.push(o + 2);
        indices.push(o + 3);

        let (r, g, b) = self.color();
        let mut corner: u8 = 0;
        while corner < 4
            invariant
                corner <= 4,
                (r, g, b) == spec_color(*self),
                colors@ == old(colors)@ + spec_colors(*self).take(3 * corner as int),
            decreases 4 - corner,
        {
            colors.push(r);
            colors.push(g);
            colors.push(b);
            proof {
                assert(colors@ =~= old(colors)@ + spec_colors(*self).take(
                    3 * (corner + 1) as int,
                ));
            }
            corner = corner + 1;
        }
        proof {
            assert(colors@ =~= old(colors)@ + spec_colors(*self));
            assert(positions@ =~= old(positions)@ + spec_positions(x as int, y as int));
            assert(indices@ =~= old(indices)@ + spec_indices(old(positions)@.len() as int / 2));
        }
    }
}

/// An untouched tile of a fresh world: a grass floor with no occupant.
impl Default for Tile {
    fn default() -> (t: Tile)
        ensures
            t == Tile::FloorTile(FloorTileType::GrassFloor, None),
    {
        Tile::FloorTile(FloorTileType::GrassFloor, None)
    }
}

} // verus!
