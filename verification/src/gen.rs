//! Region filling and full-world generation: the rasterizer writes street
//! footprints into the tile grid through `fill_rect`, and `generate` runs
//! the whole pipeline (build the street graph, rasterize it, pack every
//! chunk).

use vstd::prelude::*;

use crate::street::{is_street_tile, Grid};
use crate::tile::{FloorTileType, Tile};
use crate::world::{lemma_chunk_roundtrip, World};

verus! {

/// Whether `(x, y)` lies in the inclusive rectangle from `(min_x, min_y)`
/// to `(max_x, max_y)`.
pub open spec fn in_rect(x: int, y: int, min_x: int, min_y: int, max_x: int, max_y: int) -> bool {
    min_x <= x <= max_x && min_y <= y <= max_y
}

/// The tile map after filling the inclusive rectangle with `tile`:
/// coordinates inside the rectangle carry `tile`, all others are as in `m`.
pub open spec fn fill_map(
    m: Map<(int, int), Tile>,
    tile: Tile,
    min_x: int,
    min_y: int,
    max_x: int,
    max_y: int,
) -> Map<(int, int), Tile> {
    Map::new(
        |p: (int, int)| m.dom().contains(p),
        |p: (int, int)|
            if in_rect(p.0, p.1, min_x, min_y, max_x, max_y) {
                tile
            } else {
                m[p]
            },
    )
}

/// Filling is idempotent, not additive: filling the same region with the
/// same tile twice leaves exactly the tile state one fill leaves.
pub proof fn lemma_fill_idempotent(
    m: Map<(int, int), Tile>,
    tile: Tile,
    min_x: int,
    min_y: int,
    max_x: int,
    max_y: int,
)
    ensures
        fill_map(fill_map(m, tile, min_x, min_y, max_x, max_y), tile, min_x, min_y, max_x, max_y)
            == fill_map(m, tile, min_x, min_y, max_x, max_y),
{
    let once = fill_map(m, tile, min_x, min_y, max_x, max_y);
    let twice = fill_map(once, tile, min_x, min_y, max_x, max_y);
    assert(twice =~= once);
}

/// Fill the inclusive rectangle with copies of `tile`, writing tile slots
/// only; no chunk geometry is repacked. An empty rectangle (a minimum
/// beyond its maximum) fills nothing.
pub fn fill_rect(
    world: &mut World,
    tile: Tile,
    min_x: usize,
    min_y: usize,
    max_x: usize,
    max_y: usize,
)
    requires
        old(world).wf(),
        max_x < old(world).config.world_size(),
        max_y < old(world).config.world_size(),
    ensures
        final(world).wf(),
        final(world).config == old(world).config,
        forall|xx: int, yy: int|
            0 <= xx < old(world).config.world_size() && 0 <= yy < old(world).config.world_size()
                ==> #[trigger] final(world).tile_at(xx, yy) == (if in_rect(
                xx,
                yy,
                min_x as int,
                min_y as int,
                max_x as int,
                max_y as int,
            ) {
                tile
            } else {
                old(world).tile_at(xx, yy)
            }),
        final(world).tile_map() == fill_map(
            old(world).tile_map(),
            tile,
            min_x as int,
            min_y as int,
            max_x as int,
            max_y as int,
        ),
{
    let ghost w0 = *old(world);
    let ghost ws = w0.config.world_size();
    if min_x > max_x || min_y > max_y {
        proof {
            assert(world.tile_map() =~= fill_map(
                w0.tile_map(),
                tile,
                min_x as int,
                min_y as int,
                max_x as int,
                max_y as int,
            ));
        }
        return ;
    }
    let mut y: usize = min_y;
    while y <= max_y
        invariant
            world.wf(),
            world.config == w0.config,
            ws == w0.config.world_size(),
            max_x < ws,
            max_y < ws,
            min_x <= max_x,
            min_y <= y <= max_y + 1,
            forall|xx: int, yy: int|
                0 <= xx < ws && 0 <= yy < ws ==> #[trigger] world.tile_at(xx, yy) == (if in_rect(
                    xx,
                    yy,
                    min_x as int,
                    min_y as int,
                    max_x as int,
                    max_y as int,
                ) && yy < y {
                    tile
                } else {
                    w0.tile_at(xx, yy)
                }),
        decreases max_y + 1 - y,
    {
        let mut x: usize = min_x;
        while x <= max_x
            invariant
                world.wf(),
                world.config == w0.config,
                ws == w0.config.world_size(),
                max_x < ws,
                max_y < ws,
                min_y <= y <= max_y,
                min_x <= x <= max_x + 1,
                forall|xx: int, yy: int|
                    0 <= xx < ws && 0 <= yy < ws ==> #[trigger] world.tile_at(xx, yy) == (
                    if in_rect(
                        xx,
                        yy,
                        min_x as int,
                        min_y as int,
                        max_x as int,
                        max_y as int,
                    ) && (yy < y || (yy == y && xx < x)) {
                        tile
                    } else {
                        w0.tile_at(xx, yy)
                    }),
            decreases max_x + 1 - x,
        {
            world.set_tile(x, y, tile);
            x = x + 1;
        }
        y = y + 1;
    }
    proof {
        assert(world.tile_map() =~= fill_map(
            w0.tile_map(),
            tile,
            min_x as int,
            min_y as int,
            max_x as int,
            max_y as int,
        ));
    }
}

/// Run the whole generation pipeline on a fresh or existing world: build
/// the street graph for the world's configuration, rasterize it into the
/// tile grid, then pack every chunk's geometry.
pub fn generate(world: &mut World)
    requires
        old(world).wf(),
    ensures
        final(world).wf(),
        final(world).config == old(world).config,
        forall|xx: int, yy: int|
            0 <= xx < old(world).config.world_size() && 0 <= yy < old(world).config.world_size()
                ==> #[trigger] final(world).tile_at(xx, yy) == (if is_street_tile(
                old(world).config,
                xx,
                yy,
            ) {
                Tile::FloorTile(FloorTileType::AsphaltFloor, None)
            } else {
                old(world).tile_at(xx, yy)
            }),
        forall|cy: int, cx: int|
            0 <= cy < final(world).chunks@.len() && 0 <= cx < final(world).chunks@.len()
                ==> (#[trigger] final(world).chunks@[cy]@[cx]).buffered(),
{
    let ghost w0 = *old(world);
    let ghost ws = w0.config.world_size();
    let grid = Grid::generate(&world.config);
    grid.rasterize(world);
    let ghost w_r = *world;

    let n: usize = world.chunks.len();
    let mut cy: usize = 0;
    while cy < n
        invariant
            world.wf(),
            world.config == w_r.config,
            n == world.chunks@.len(),
            cy <= n,
            forall|oy: int, ox: int|
                0 <= oy < n && 0 <= ox < n ==> (#[trigger] world.chunks@[oy]@[ox]).tiles@
                    == w_r.chunks@[oy]@[ox].tiles@,
            forall|oy: int, ox: int|
                0 <= oy < n && 0 <= ox < n && oy < cy ==> (
                #[trigger] world.chunks@[oy]@[ox]).buffered(),
        decreases n - cy,
    {
        let mut cx: usize = 0;
        while cx < n
            invariant
                world.wf(),
                world.config == w_r.config,
                n == world.chunks@.len(),
                cy < n,
                cx <= n,
                forall|oy: int, ox: int|
                    0 <= oy < n && 0 <= ox < n ==> (#[trigger] world.chunks@[oy]@[ox]).tiles@
                        == w_r.chunks@[oy]@[ox].tiles@,
                forall|oy: int, ox: int|
                    0 <= oy < n && 0 <= ox < n && (oy < cy || (oy == cy && ox < cx)) ==> (
                    #[trigger] world.chunks@[oy]@[ox]).buffered(),
            decreases n - cx,
        {
            let ghost w_before = *world;
            let row = &mut world.chunks[cy];
            let c = &mut row[cx];
            c.buffer();
            proof {
                assert forall|oy: int, ox: int| 0 <= oy < n && 0 <= ox < n implies {
                    &&& (#[trigger] world.chunks@[oy]@[ox]).tiles@ == w_r.chunks@[oy]@[ox].tiles@
                    &&& ((oy < cy || (oy == cy && ox < cx + 1)) ==> world.chunks@[oy]@[ox]
                        .buffered())
                    &&& world.chunks@[oy]@[ox].wf()
                    &&& world.chunks@[oy]@[ox].size == world.config.chunk_size
                    &&& world.chunks@[oy]@[ox].min_x == ox * world.config.chunk_size
                    &&& world.chunks@[oy]@[ox].min_y == oy * world.config.chunk_size
                } by {
                    if !(oy == cy && ox == cx) {
                        assert(world.chunks@[oy]@[ox] == w_before.chunks@[oy]@[ox]);
                    }
                }
            }
            cx = cx + 1;
        }
        cy = cy + 1;
    }
    proof {
        assert forall|xx: int, yy: int| 0 <= xx < ws && 0 <= yy < ws implies
            #[trigger] world.tile_at(xx, yy) == w_r.tile_at(xx, yy) by {
            lemma_chunk_roundtrip(w_r.config, xx);
            lemma_chunk_roundtrip(w_r.config, yy);
            let cs = w_r.config.chunk_size as int;
            assert(world.chunks@[yy / cs]@[xx / cs].tiles@ == w_r.chunks@[yy / cs]@[xx
                / cs].tiles@);
            assert(world.chunks@[yy / cs]@[xx / cs].size == w_r.chunks@[yy / cs]@[xx / cs].size);
        }
    }
}

} // verus!
