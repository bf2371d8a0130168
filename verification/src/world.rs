//! The world: the dense tile grid, stored as a square array of chunks. A
//! world coordinate is mapped to its owning chunk by integer division by
//! the chunk size and to its in-chunk slot by the remainder, so every tile
//! belongs to exactly one chunk and one slot.

use vstd::prelude::*;

use crate::chunk::Chunk;
use crate::config::Config;
use crate::gen::generate;
use crate::street::is_street_tile;
use crate::tile::{FloorTileType, Tile};

verus! {

/// What can go wrong at the world's boundary: a configuration whose world
/// extent does not divide evenly into chunks (or is degenerate), or a tile
/// coordinate outside the world.
#[derive(Debug, Clone, Copy, PartialEq, Eq, Structural)]
pub enum WorldError {
    ConfigurationError,
    BoundsError,
}

/// Integer division and remainder by the chunk size take a coordinate of
/// the world to a chunk index and an in-chunk offset, and those two
/// round-trip to the coordinate exactly: `(v / cs) * cs + v % cs == v`,
/// with the chunk index inside the chunk array and the offset inside the
/// chunk.
pub proof fn lemma_chunk_roundtrip(config: Config, v: int)
    requires
        config.wf(),
        0 <= v < config.world_size(),
    ensures
        0 <= v / (config.chunk_size as int) < config.chunks_per_axis(),
        0 <= v % (config.chunk_size as int) < config.chunk_size,
        (v / (config.chunk_size as int)) * (config.chunk_size as int) + v % (
        config.chunk_size as int) == v,
{
    let cs = config.chunk_size as int;
    let ws = config.world_size();
    let n = config.chunks_per_axis();
    vstd::arithmetic::div_mod::lemma_fundamental_div_mod(v, cs);
    vstd::arithmetic::div_mod::lemma_fundamental_div_mod(ws, cs);
    vstd::arithmetic::div_mod::lemma_mod_division_less_than_divisor(v, cs);
    vstd::arithmetic::div_mod::lemma_div_pos_is_pos(v, cs);
    assert(ws == cs * n);
    assert(v / cs < n) by (nonlinear_arith)
        requires
            cs >= 1,
            v == cs * (v / cs) + v % cs,
            0 <= v % cs < cs,
            v < cs * n;
}

/// The world: its configuration and its chunks, indexed `[cy][cx]` so that
/// chunk `(cx, cy)` owns the square of tiles whose coordinates start at
/// `(cx * chunk_size, cy * chunk_size)`.
pub struct World {
    pub config: Config,
    pub chunks: Vec<Vec<Chunk>>,
}

impl World {
    /// Structural soundness: a well-formed configuration, a full square
    /// array of well-formed chunks, each sized and placed by its index.
    pub open spec fn wf(self) -> bool {
        &&& self.config.wf()
        &&& self.chunks@.len() == self.config.chunks_per_axis()
        &&& forall|cy: int|
            0 <= cy < self.chunks@.len() ==> (#[trigger] self.chunks@[cy])@.len()
                == self.config.chunks_per_axis()
        &&& forall|cy: int, cx: int|
            0 <= cy < self.chunks@.len() && 0 <= cx < self.chunks@.len() ==> {
                let c = #[trigger] self.chunks@[cy]@[cx];
                &&& c.wf()
                &&& c.size == self.config.chunk_size
                &&& c.min_x == cx * self.config.chunk_size
                &&& c.min_y == cy * self.config.chunk_size
            }
    }

    /// The tile at world coordinate `(x, y)`: the slot of the owning chunk.
    pub open spec fn tile_at(self, x: int, y: int) -> Tile {
        let cs = self.config.chunk_size as int;
        self.chunks@[y / cs]@[x / cs].spec_tile(x % cs, y % cs)
    }

    /// The whole tile grid as a map from in-bounds coordinates to tiles.
    pub open spec fn tile_map(self) -> Map<(int, int), Tile> {
        Map::new(
            |p: (int, int)|
                0 <= p.0 < self.config.world_size() && 0 <= p.1 < self.config.world_size(),
            |p: (int, int)| self.tile_at(p.0, p.1),
        )
    }

    /// The chunks other than `(cx, cy)` are identical in the two worlds.
    pub open spec fn same_chunks_except(self, other: World, cx: int, cy: int) -> bool {
        forall|oy: int, ox: int|
            0 <= oy < self.chunks@.len() && 0 <= ox < self.chunks@.len() && !(oy == cy && ox == cx)
                ==> (#[trigger] self.chunks@[oy]@[ox]) == other.chunks@[oy]@[ox]
    }

    /// The world's side length in tiles.
    pub fn world_extent(&self) -> (w: usize)
        requires
            self.config.wf(),
        ensures
            w == self.config.world_size(),
    {
        proof {
            assert(self.config.pitch() <= 0x7fff && self.config.world_size() == self.config.grid_size
                * (self.config.street_width + self.config.block_width)) by (nonlinear_arith)
                requires
                    self.config.grid_size >= 1,
                    self.config.world_size() == self.config.grid_size * self.config.pitch(),
                    self.config.pitch() >= 0,
                    self.config.world_size() <= 0x7fff;
        }
        self.config.grid_size * (self.config.street_width + self.config.block_width)
    }

    /// A reference to the chunk owning world coordinate `(x, y)`.
    pub fn chunk_containing(&self, x: usize, y: usize) -> (c: &Chunk)
        requires
            self.wf(),
            x < self.config.world_size(),
            y < self.config.world_size(),
        ensures
            *c == self.chunks@[y as int / self.config.chunk_size as int]@[x as int
                / self.config.chunk_size as int],
    {
        proof {
            lemma_chunk_roundtrip(self.config, x as int);
            lemma_chunk_roundtrip(self.config, y as int);
        }
        let chunk_x: usize = x / self.config.chunk_size;
        let chunk_y: usize = y / self.config.chunk_size;
        &self.chunks[chunk_y][chunk_x]
    }

    /// Build and fully generate a world for `config`: allocate every chunk
    /// eagerly, all grass, then generate the city into it and pack every
    /// chunk's geometry. Fails, before any generation, exactly when the
    /// configuration is not well-formed.
    pub fn new(config: Config) -> (r: Result<World, WorldError>)
        ensures
            r is Ok <==> config.wf(),
            r is Err ==> r == Err::<World, WorldError>(WorldError::ConfigurationError),
            r matches Ok(w) ==> {
                &&& w.wf()
                &&& w.config == config
                &&& forall|xx: int, yy: int|
                    0 <= xx < config.world_size() && 0 <= yy < config.world_size()
                        ==> #[trigger] w.tile_at(xx, yy) == (if is_street_tile(config, xx, yy) {
                        Tile::FloorTile(FloorTileType::AsphaltFloor, None)
                    } else {
                        Tile::FloorTile(FloorTileType::GrassFloor, None)
                    })
                &&& forall|cy: int, cx: int|
                    0 <= cy < w.chunks@.len() && 0 <= cx < w.chunks@.len() ==> (
                    #[trigger] w.chunks@[cy]@[cx]).buffered()
            },
    {
        if !config.valid() {
            return Err(WorldError::ConfigurationError);
        }
        let cs: usize = config.chunk_size;
        proof {
            assert(config.pitch() <= config.world_size()) by (nonlinear_arith)
                requires
                    config.world_size() == config.grid_size * config.pitch(),
                    config.grid_size >= 1,
                    config.pitch() >= 0;
        }
        let ws: usize = config.grid_size * (config.street_width + config.block_width);
        let nc: usize = ws / cs;
        proof {
            vstd::arithmetic::div_mod::lemma_fundamental_div_mod(ws as int, cs as int);
            assert(nc * cs == ws) by (nonlinear_arith)
                requires
                    cs >= 1,
                    nc == ws as int / cs as int,
                    ws as int == cs * (ws as int / cs as int) + ws as int % (cs as int),
                    ws as int % (cs as int) == 0;
        }
        let mut chunks: Vec<Vec<Chunk>> = Vec::new();
        let mut cy: usize = 0;
        while cy < nc
            invariant
                config.wf(),
                cs == config.chunk_size,
                ws == config.world_size(),
                nc == config.chunks_per_axis(),
                nc * cs == ws,
                cy <= nc,
                chunks@.len() == cy,
                forall|oy: int|
                    0 <= oy < cy ==> (#[trigger] chunks@[oy])@.len() == nc,
                forall|oy: int, ox: int|
                    0 <= oy < cy && 0 <= ox < nc ==> {
                        let c = #[trigger] chunks@[oy]@[ox];
                        &&& c.wf()
                        &&& c.size == cs
                        &&& c.min_x == ox * cs
                        &&& c.min_y == oy * cs
                        &&& forall|i: int|
                            0 <= i < cs * cs ==> c.tiles@[i] == Tile::FloorTile(
                                FloorTileType::GrassFloor,
                                None,
                            )
                    },
            decreases nc - cy,
        {
            proof {
                assert(cy * cs + cs <= nc * cs) by (nonlinear_arith)
                    requires
                        cy < nc,
                        cs >= 0;
            }
            let mut row: Vec<Chunk> = Vec::new();
            let mut cx: usize = 0;
            while cx < nc
                invariant
                    config.wf(),
                    cs == config.chunk_size,
                    ws == config.world_size(),
                    nc * cs == ws,
                    cy < nc,
                    cy * cs + cs <= nc * cs,
                    cx <= nc,
                    row@.len() == cx,
                    forall|ox: int|
                        0 <= ox < cx ==> {
                            let c = #[trigger] row@[ox];
                            &&& c.wf()
                            &&& c.size == cs
                            &&& c.min_x == ox * cs
                            &&& c.min_y == cy * cs
                            &&& forall|i: int|
                                0 <= i < cs * cs ==> c.tiles@[i] == Tile::FloorTile(
                                    FloorTileType::GrassFloor,
                                    None,
                                )
                        },
                decreases nc - cx,
            {
                proof {
                    assert(cx * cs + cs <= nc * cs) by (nonlinear_arith)
                        requires
                            cx < nc,
                            cs >= 0;
                }
                let c = Chunk::blank(cx * cs, cy * cs, cs);
                row.push(c);
                cx = cx + 1;
            }
            chunks.push(row);
            cy = cy + 1;
        }
        let mut world = World { config, chunks };
        proof {
            assert(world.wf());
            assert forall|xx: int, yy: int| 0 <= xx < ws && 0 <= yy < ws implies
                #[trigger] world.tile_at(xx, yy) == Tile::FloorTile(
                FloorTileType::GrassFloor,
                None,
            ) by {
                lemma_chunk_roundtrip(config, xx);
                lemma_chunk_roundtrip(config, yy);
                let csi = cs as int;
                assert(0 <= (yy % csi) * csi + xx % csi < csi * csi) by (nonlinear_arith)
                    requires
                        csi >= 1,
                        0 <= yy % csi < csi,
                        0 <= xx % csi < csi;
            }
        }
        generate(&mut world);
        Ok(world)
    }

    /// Overwrite the tile at `(x, y)` without repacking any geometry: the
    /// generation path writes many tiles and packs every chunk once at the
    /// end.
    pub(crate) fn set_tile(&mut self, x: usize, y: usize, tile: Tile)
        requires
            old(self).wf(),
            x < old(self).config.world_size(),
            y < old(self).config.world_size(),
        ensures
            final(self).wf(),
            final(self).config == old(self).config,
            final(self).chunks@.len() == old(self).chunks@.len(),
            forall|xx: int, yy: int|
                0 <= xx < old(self).config.world_size() && 0 <= yy < old(self).config.world_size()
                    ==> #[trigger] final(self).tile_at(xx, yy) == (if xx == x && yy == y {
                    tile
                } else {
                    old(self).tile_at(xx, yy)
                }),
            final(self).same_chunks_except(
                *old(self),
                x as int / old(self).config.chunk_size as int,
                y as int / old(self).config.chunk_size as int,
            ),
            forall|oy: int, ox: int|
                0 <= oy < old(self).chunks@.len() && 0 <= ox < old(self).chunks@.len() ==> {
                    let c0 = #[trigger] old(self).chunks@[oy]@[ox];
                    let c1 = final(self).chunks@[oy]@[ox];
                    c1 == (Chunk { tiles: c1.tiles, ..c0 })
                },
    {
        let ghost w0 = *old(self);
        let cs: usize = self.config.chunk_size;
        proof {
            lemma_chunk_roundtrip(self.config, x as int);
            lemma_chunk_roundtrip(self.config, y as int);
        }
        let cx: usize = x / cs;
        let cy: usize = y / cs;
        proof {
            assert(cx * cs <= x && x < cx * cs + cs && cy * cs <= y && y < cy * cs + cs)
                by (nonlinear_arith)
                requires
                    cs >= 1,
                    cx == x as int / cs as int,
                    cy == y as int / cs as int,
                    (x as int / cs as int) * cs + x as int % (cs as int) == x,
                    (y as int / cs as int) * cs + y as int % (cs as int) == y,
                    0 <= x as int % (cs as int) < cs,
                    0 <= y as int % (cs as int) < cs;
        }
        let row = &mut self.chunks[cy];
        let chunk = &mut row[cx];
        chunk.replace_tile(x, y, tile);
        proof {
            lemma_tile_update(w0, *self, x as int, y as int, tile);
        }
    }

    /// Overwrite the tile at world coordinate `(x, y)` and repack the
    /// owning chunk's geometry; no other chunk is touched in any way. An
    /// out-of-bounds coordinate is rejected and the world left unchanged.
    pub fn replace_tile(&mut self, x: usize, y: usize, tile: Tile) -> (r: Result<(), WorldError>)
        requires
            old(self).wf(),
        ensures
            final(self).wf(),
            final(self).config == old(self).config,
            r is Ok <==> (x < old(self).config.world_size() && y < old(self).config.world_size()),
            r is Err ==> *final(self) == *old(self) && r == Err::<(), WorldError>(
                WorldError::BoundsError,
            ),
            r is Ok ==> {
                let cs = old(self).config.chunk_size as int;
                let cx = x as int / cs;
                let cy = y as int / cs;
                &&& forall|xx: int, yy: int|
                    0 <= xx < old(self).config.world_size() && 0 <= yy < old(
                        self,
                    ).config.world_size() ==> #[trigger] final(self).tile_at(xx, yy) == (if xx == x
                        && yy == y {
                        tile
                    } else {
                        old(self).tile_at(xx, yy)
                    })
                &&& final(self).same_chunks_except(*old(self), cx, cy)
                &&& final(self).chunks@[cy]@[cx].tiles@ == old(self).chunks@[cy]@[cx].tiles@.update(
                    (y as int % cs) * cs + x as int % cs,
                    tile,
                )
                &&& final(self).chunks@[cy]@[cx].buffered()
            },
    {
        let ext: usize = self.world_extent();
        if x >= ext || y >= ext {
            return Err(WorldError::BoundsError);
        }
        let ghost w0 = *self;
        let cs: usize = self.config.chunk_size;
        proof {
            lemma_chunk_roundtrip(self.config, x as int);
            lemma_chunk_roundtrip(self.config, y as int);
        }
        let cx: usize = x / cs;
        let cy: usize = y / cs;
        proof {
            assert(cx * cs <= x && x < cx * cs + cs && cy * cs <= y && y < cy * cs + cs)
                by (nonlinear_arith)
                requires
                    cs >= 1,
                    cx == x as int / cs as int,
                    cy == y as int / cs as int,
                    (x as int / cs as int) * cs + x as int % (cs as int) == x,
                    (y as int / cs as int) * cs + y as int % (cs as int) == y,
                    0 <= x as int % (cs as int) < cs,
                    0 <= y as int % (cs as int) < cs;
        }
        let row = &mut self.chunks[cy];
        let chunk = &mut row[cx];
        chunk.replace_tile(x, y, tile);
        proof {
            let csi = cs as int;
            assert(0 <= (y as int - cy * csi) * csi + (x as int - cx * csi) < csi * csi)
                by (nonlinear_arith)
                requires
                    csi >= 1,
                    cx * csi <= x < cx * csi + csi,
                    cy * csi <= y < cy * csi + csi;
            assert(chunk.wf());
        }
        chunk.buffer();
        proof {
            assert((y as int % (cs as int)) * (w0.config.chunk_size as int) == (y as int % (
            cs as int)) * cs);
            lemma_tile_update(w0, *self, x as int, y as int, tile);
        }
        Ok(())
    }
}

/// After one chunk-local slot write, the world's tile view is the old view
/// with exactly the one coordinate changed.
proof fn lemma_tile_update(w0: World, w1: World, x: int, y: int, tile: Tile)
    requires
        w0.wf(),
        0 <= x < w0.config.world_size(),
        0 <= y < w0.config.world_size(),
        w1.config == w0.config,
        w1.chunks@.len() == w0.chunks@.len(),
        forall|oy: int, ox: int|
            0 <= oy < w0.chunks@.len() && 0 <= ox < w0.chunks@.len() && !(oy == y / (
            w0.config.chunk_size as int) && ox == x / (w0.config.chunk_size as int)) ==> (
            #[trigger] w1.chunks@[oy]@[ox]) == w0.chunks@[oy]@[ox],
        forall|oy: int| 0 <= oy < w0.chunks@.len() ==> (#[trigger] w1.chunks@[oy])@.len()
            == w0.chunks@[oy]@.len(),
        w1.chunks@[y / (w0.config.chunk_size as int)]@[x / (w0.config.chunk_size as int)].size
            == w0.chunks@[y / (w0.config.chunk_size as int)]@[x / (
        w0.config.chunk_size as int)].size,
        w1.chunks@[y / (w0.config.chunk_size as int)]@[x / (w0.config.chunk_size as int)].min_x
            == w0.chunks@[y / (w0.config.chunk_size as int)]@[x / (
        w0.config.chunk_size as int)].min_x,
        w1.chunks@[y / (w0.config.chunk_size as int)]@[x / (w0.config.chunk_size as int)].min_y
            == w0.chunks@[y / (w0.config.chunk_size as int)]@[x / (
        w0.config.chunk_size as int)].min_y,
        w1.chunks@[y / (w0.config.chunk_size as int)]@[x / (w0.config.chunk_size as int)].tiles@
            == w0.chunks@[y / (w0.config.chunk_size as int)]@[x / (
        w0.config.chunk_size as int)].tiles@.update(
            (y % (w0.config.chunk_size as int)) * w0.config.chunk_size + x % (
            w0.config.chunk_size as int),
            tile,
        ),
    ensures
        w1.wf(),
        forall|xx: int, yy: int|
            0 <= xx < w0.config.world_size() && 0 <= yy < w0.config.world_size()
                ==> #[trigger] w1.tile_at(xx, yy) == (if xx == x && yy == y {
                tile
            } else {
                w0.tile_at(xx, yy)
            }),
{
    let cs = w0.config.chunk_size as int;
    lemma_chunk_roundtrip(w0.config, x);
    lemma_chunk_roundtrip(w0.config, y);
    let cx = x / cs;
    let cy = y / cs;
    assert forall|oy: int, ox: int| 0 <= oy < w1.chunks@.len() && 0 <= ox < w1.chunks@.len()
        implies {
        let c = #[trigger] w1.chunks@[oy]@[ox];
        &&& c.wf()
        &&& c.size == w1.config.chunk_size
        &&& c.min_x == ox * w1.config.chunk_size
        &&& c.min_y == oy * w1.config.chunk_size
    } by {
        let c0 = w0.chunks@[oy]@[ox];
        assert(c0.wf() && c0.size == w0.config.chunk_size && c0.min_x == ox
            * w0.config.chunk_size && c0.min_y == oy * w0.config.chunk_size);
        if oy == cy && ox == cx {
            assert(w1.chunks@[oy]@[ox] == w1.chunks@[cy]@[cx]);
            assert(w1.chunks@[cy]@[cx].tiles@ == w0.chunks@[cy]@[cx].tiles@.update(
                (y % cs) * w0.config.chunk_size + x % cs,
                tile,
            ));
            assert(0 <= (y % cs) * w0.config.chunk_size + x % cs < cs * cs) by (nonlinear_arith)
                requires
                    cs == w0.config.chunk_size,
                    cs >= 1,
                    0 <= y % cs < cs,
                    0 <= x % cs < cs,
            ;
            assert(w0.chunks@[cy]@[cx].tiles@.len() == cs * cs) by (nonlinear_arith)
                requires
                    cs == w0.config.chunk_size,
                    w0.chunks@[cy]@[cx].tiles@.len() == w0.chunks@[cy]@[cx].size
                        * w0.chunks@[cy]@[cx].size,
                    w0.chunks@[cy]@[cx].size == w0.config.chunk_size,
            ;
            assert(w1.chunks@[cy]@[cx].tiles@.len() == w0.chunks@[cy]@[cx].tiles@.len());
            assert(w1.chunks@[oy]@[ox].tiles@.len() == c0.tiles@.len());
        } else {
            assert(w1.chunks@[oy]@[ox] == c0);
        }
    }
    assert(w1.wf());
    assert forall|xx: int, yy: int|
        0 <= xx < w0.config.world_size() && 0 <= yy < w0.config.world_size() implies
        #[trigger] w1.tile_at(xx, yy) == (if xx == x && yy == y {
        tile
    } else {
        w0.tile_at(xx, yy)
    }) by {
        lemma_chunk_roundtrip(w0.config, xx);
        lemma_chunk_roundtrip(w0.config, yy);
        let ox = xx / cs;
        let oy = yy / cs;
        if oy == cy && ox == cx {
            // Same chunk: slots collide only for the written coordinate.
            let slot = (yy % cs) * cs + xx % cs;
            let wslot = (y % cs) * cs + x % cs;
            assert(0 <= slot < cs * cs && slot / cs == yy % cs && slot % cs == xx % cs)
                by (nonlinear_arith)
                requires
                    cs >= 1,
                    slot == (yy % cs) * cs + xx % cs,
                    0 <= yy % cs < cs,
                    0 <= xx % cs < cs,
            ;
            assert(0 <= wslot < cs * cs && wslot / cs == y % cs && wslot % cs == x % cs)
                by (nonlinear_arith)
                requires
                    cs >= 1,
                    wslot == (y % cs) * cs + x % cs,
                    0 <= y % cs < cs,
                    0 <= x % cs < cs,
            ;
            if slot == wslot {
                assert(yy % cs == y % cs && xx % cs == x % cs);
                assert(xx == (xx / cs) * cs + xx % cs && x == (x / cs) * cs + x % cs);
                assert(xx == x && yy == y);
            } else {
                assert(w1.tile_at(xx, yy) == w0.tile_at(xx, yy));
            }
        } else {
            assert(w1.chunks@[oy]@[ox] == w0.chunks@[oy]@[ox]);
        }
    }
}

} // verus!
