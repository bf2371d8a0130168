//! The street graph: a square lattice of intersections joined by streets.
//!
//! Intersections and streets live in two arenas and refer to one another by
//! stable integer handles, so every connection slot of an intersection is
//! either absent or the handle of a street shared with the neighbor on the
//! other end.

use vstd::prelude::*;

use crate::config::Config;
use crate::gen::{fill_rect, in_rect};
use crate::tile::{FloorTileType, Tile};
use crate::world::World;

verus! {

/// Whether the intersection box of grid node `(gx, gy)` covers world tile
/// `(x, y)`: the square of street-width side at the node's world position.
pub open spec fn inter_box_covers(cfg: Config, gx: int, gy: int, x: int, y: int) -> bool {
    let p = cfg.pitch();
    let s = cfg.street_width as int;
    gx * p <= x < gx * p + s && gy * p <= y < gy * p + s
}

/// Whether the street running east from grid node `(gx, gy)` covers world
/// tile `(x, y)`: it exists only for nodes short of the east edge and
/// spans the full block width to the next intersection.
pub open spec fn east_covers(cfg: Config, gx: int, gy: int, x: int, y: int) -> bool {
    let p = cfg.pitch();
    let s = cfg.street_width as int;
    &&& gx < cfg.grid_size - 1
    &&& gx * p + s <= x < gx * p + p
    &&& gy * p <= y < gy * p + s
}

/// Whether the street running south from grid node `(gx, gy)` covers
/// world tile `(x, y)`.
pub open spec fn south_covers(cfg: Config, gx: int, gy: int, x: int, y: int) -> bool {
    let p = cfg.pitch();
    let s = cfg.street_width as int;
    &&& gy < cfg.grid_size - 1
    &&& gx * p <= x < gx * p + s
    &&& gy * p + s <= y < gy * p + p
}

/// Whether rasterizing grid node `(gx, gy)` writes world tile `(x, y)`.
pub open spec fn inter_covers(cfg: Config, gx: int, gy: int, x: int, y: int) -> bool {
    inter_box_covers(cfg, gx, gy, x, y) || east_covers(cfg, gx, gy, x, y) || south_covers(
        cfg,
        gx,
        gy,
        x,
        y,
    )
}

/// The closed form of the full street footprint: a tile is asphalt after
/// rasterization exactly when it lies in a horizontal or vertical street
/// band (its offset within the pitch is below the street width) and short
/// of the far edge of the last intersection, beyond which nothing is
/// generated.
pub open spec fn is_street_tile(cfg: Config, x: int, y: int) -> bool {
    let p = cfg.pitch();
    let s = cfg.street_width as int;
    let limit = (cfg.grid_size - 1) * p + s;
    &&& 0 <= x < cfg.world_size()
    &&& 0 <= y < cfg.world_size()
    &&& ((y % p < s && x < limit) || (x % p < s && y < limit))
}

/// A coordinate below `gg * pp` falls in band `v / pp`, at offset
/// `v % pp == v - (v / pp) * pp`.
proof fn lemma_coord_band(pp: int, gg: int, v: int)
    requires
        pp >= 1,
        gg >= 1,
        0 <= v < gg * pp,
    ensures
        0 <= v / pp < gg,
        (v / pp) * pp <= v < (v / pp) * pp + pp,
        v % pp == v - (v / pp) * pp,
{
    vstd::arithmetic::div_mod::lemma_fundamental_div_mod(v, pp);
    vstd::arithmetic::div_mod::lemma_mod_division_less_than_divisor(v, pp);
    vstd::arithmetic::div_mod::lemma_div_pos_is_pos(v, pp);
    assert((v / pp) * pp <= v < (v / pp) * pp + pp && v / pp < gg && v % pp == v - (v / pp) * pp)
        by (nonlinear_arith)
        requires
            v == pp * (v / pp) + v % pp,
            0 <= v % pp < pp,
            0 <= v < gg * pp,
            v / pp >= 0,
            pp >= 1;
}

/// Row-major flattening of a grid coordinate and its inverse.
proof fn lemma_grid_index(gs: int, gx: int, gy: int)
    requires
        gs >= 1,
        0 <= gx < gs,
        0 <= gy < gs,
    ensures
        0 <= gy * gs + gx < gs * gs,
        (gy * gs + gx) % gs == gx,
        (gy * gs + gx) / gs == gy,
{
    vstd::arithmetic::div_mod::lemma_fundamental_div_mod_converse(gy * gs + gx, gs, gy, gx);
    assert(0 <= gy * gs + gx < gs * gs) by (nonlinear_arith)
        requires
            0 <= gx < gs,
            0 <= gy < gs;
}

/// The union of the footprints of all `grid_size * grid_size`
/// intersections is exactly the closed-form street footprint.
pub proof fn lemma_cover_union(cfg: Config, x: int, y: int)
    requires
        cfg.wf(),
        0 <= x < cfg.world_size(),
        0 <= y < cfg.world_size(),
    ensures
        (exists|k: int|
            0 <= k < cfg.grid_size * cfg.grid_size && #[trigger] inter_covers(
                cfg,
                k % (cfg.grid_size as int),
                k / (cfg.grid_size as int),
                x,
                y,
            )) <==> is_street_tile(cfg, x, y),
{
    let p = cfg.pitch();
    let s = cfg.street_width as int;
    let gs = cfg.grid_size as int;
    let ws = cfg.world_size();
    let limit = (gs - 1) * p + s;
    assert(ws == gs * p);
    assert(s <= p && p >= 1);
    assert((gs - 1) * p + p == gs * p) by (nonlinear_arith);

    let gx = x / p;
    let gy = y / p;
    lemma_coord_band(p, gs, x);
    lemma_coord_band(p, gs, y);

    if is_street_tile(cfg, x, y) {
        // Build a witness from the bands the coordinate falls in.
        if y % p < s && x < limit {
            if x % p < s {
                assert(inter_box_covers(cfg, gx, gy, x, y));
            } else {
                // The band cannot be the last one: its street part would
                // already be beyond the generated extent.
                assert(gx * p <= x && x % p == x - gx * p);
                if gx == gs - 1 {
                    assert(x >= (gs - 1) * p + s);
                    assert(false);
                }
                assert(east_covers(cfg, gx, gy, x, y));
            }
            lemma_grid_index(gs, gx, gy);
            assert(0 <= gy * gs + gx < gs * gs && inter_covers(
                cfg,
                (gy * gs + gx) % gs,
                (gy * gs + gx) / gs,
                x,
                y,
            ));
        } else {
            assert(x % p < s && y < limit);
            if y % p < s {
                assert(inter_box_covers(cfg, gx, gy, x, y));
            } else {
                if gy == gs - 1 {
                    assert(y >= (gs - 1) * p + s);
                    assert(false);
                }
                assert(south_covers(cfg, gx, gy, x, y));
            }
            lemma_grid_index(gs, gx, gy);
            assert(0 <= gy * gs + gx < gs * gs && inter_covers(
                cfg,
                (gy * gs + gx) % gs,
                (gy * gs + gx) / gs,
                x,
                y,
            ));
        }
    }
    if exists|k: int|
        0 <= k < cfg.grid_size * cfg.grid_size && #[trigger] inter_covers(
            cfg,
            k % (cfg.grid_size as int),
            k / (cfg.grid_size as int),
            x,
            y,
        ) {
        let k = choose|k: int|
            0 <= k < cfg.grid_size * cfg.grid_size && #[trigger] inter_covers(
                cfg,
                k % (cfg.grid_size as int),
                k / (cfg.grid_size as int),
                x,
                y,
            );
        let kx = k % gs;
        let ky = k / gs;
        vstd::arithmetic::div_mod::lemma_fundamental_div_mod(k, gs);
        vstd::arithmetic::div_mod::lemma_mod_division_less_than_divisor(k, gs);
        vstd::arithmetic::div_mod::lemma_div_pos_is_pos(k, gs);
        assert(ky < gs) by (nonlinear_arith)
            requires
                k < gs * gs,
                gs >= 1,
                ky == k / gs,
                k == gs * (k / gs) + k % gs,
                0 <= k % gs < gs;
        assert(0 <= kx < gs && 0 <= ky < gs);
        assert(kx * p <= (gs - 1) * p && ky * p <= (gs - 1) * p && (kx + 1) * p <= (gs - 1) * p
            + p && (ky + 1) * p <= (gs - 1) * p + p && (kx < gs - 1 ==> (kx + 1) * p <= (gs - 1)
            * p) && (ky < gs - 1 ==> (ky + 1) * p <= (gs - 1) * p)) by (nonlinear_arith)
            requires
                0 <= kx < gs,
                0 <= ky < gs,
                p >= 1;
        if inter_box_covers(cfg, kx, ky, x, y) {
            vstd::arithmetic::div_mod::lemma_fundamental_div_mod_converse(x, p, kx, x - kx * p);
            vstd::arithmetic::div_mod::lemma_fundamental_div_mod_converse(y, p, ky, y - ky * p);
            assert(x % p < s && y % p < s);
            assert(x < kx * p + s <= (gs - 1) * p + s);
            assert(is_street_tile(cfg, x, y));
        } else if east_covers(cfg, kx, ky, x, y) {
            vstd::arithmetic::div_mod::lemma_fundamental_div_mod_converse(y, p, ky, y - ky * p);
            assert(y % p < s);
            assert(x < kx * p + p == (kx + 1) * p) by (nonlinear_arith)
                requires
                    x < kx * p + p;
            assert(x < (gs - 1) * p <= limit);
            assert(is_street_tile(cfg, x, y));
        } else {
            assert(south_covers(cfg, kx, ky, x, y));
            vstd::arithmetic::div_mod::lemma_fundamental_div_mod_converse(x, p, kx, x - kx * p);
            assert(x % p < s);
            assert(y < ky * p + p == (ky + 1) * p) by (nonlinear_arith)
                requires
                    y < ky * p + p;
            assert(y < (gs - 1) * p <= limit);
            assert(is_street_tile(cfg, x, y));
        }
    }
}

/// A connection slot of an intersection: absent, or the handle of a street
/// in the grid's street arena.
pub type Connection = Option<usize>;

/// The eight directions an intersection can connect in. The generator only
/// ever uses N, E, S and W; the diagonals are reserved.
#[derive(Debug, Clone, Copy, PartialEq, Eq, Structural)]
pub enum ConnectDir {
    N,
    NE,
    E,
    SE,
    S,
    SW,
    W,
    NW,
}

/// A node of the street graph at grid coordinate `(x, y)`, with one
/// connection slot per direction.
#[derive(Debug, Clone, Copy, PartialEq, Eq, Structural)]
pub struct Intersection {
    pub x: usize,
    pub y: usize,
    pub n: Connection,
    pub ne: Connection,
    pub e: Connection,
    pub se: Connection,
    pub s: Connection,
    pub sw: Connection,
    pub w: Connection,
    pub nw: Connection,
}

/// An edge of the street graph: the handles of its two endpoint
/// intersections, each tagged with the direction the street is attached at
/// on that intersection.
#[derive(Debug, Clone, Copy, PartialEq, Eq, Structural)]
pub struct Street {
    pub inter1: usize,
    pub inter1_dir: ConnectDir,
    pub inter2: usize,
    pub inter2_dir: ConnectDir,
}

/// Handle of the horizontal street joining intersections `(gx, gy)` and
/// `(gx + 1, gy)`, for `gx < gs - 1`. Horizontal streets occupy the first
/// `gs * (gs - 1)` slots of the street arena, in row-major order.
pub open spec fn h_street_id(gs: int, gx: int, gy: int) -> int {
    gy * (gs - 1) + gx
}

/// Handle of the vertical street joining intersections `(gx, gy)` and
/// `(gx, gy + 1)`, for `gy < gs - 1`. Vertical streets follow the
/// horizontal ones, in row-major order.
pub open spec fn v_street_id(gs: int, gx: int, gy: int) -> int {
    gs * (gs - 1) + gy * gs + gx
}

/// The intersection the generator produces at grid coordinate `(gx, gy)`:
/// connected east and west to its horizontal neighbors and north and south
/// to its vertical ones, with every diagonal slot empty.
pub open spec fn spec_intersection(gs: int, gx: int, gy: int) -> Intersection {
    Intersection {
        x: gx as usize,
        y: gy as usize,
        n: if gy >= 1 {
            Some(v_street_id(gs, gx, gy - 1) as usize)
        } else {
            None
        },
        ne: None,
        e: if gx < gs - 1 {
            Some(h_street_id(gs, gx, gy) as usize)
        } else {
            None
        },
        se: None,
        s: if gy < gs - 1 {
            Some(v_street_id(gs, gx, gy) as usize)
        } else {
            None
        },
        sw: None,
        w: if gx >= 1 {
            Some(h_street_id(gs, gx - 1, gy) as usize)
        } else {
            None
        },
        nw: None,
    }
}

/// The street the generator stores under handle `i`: horizontal streets
/// join west to east, vertical ones north to south.
pub open spec fn spec_street(gs: int, i: int) -> Street {
    if i < gs * (gs - 1) {
        Street {
            inter1: (i / (gs - 1) * gs + i % (gs - 1)) as usize,
            inter1_dir: ConnectDir::E,
            inter2: (i / (gs - 1) * gs + i % (gs - 1) + 1) as usize,
            inter2_dir: ConnectDir::W,
        }
    } else {
        let j = i - gs * (gs - 1);
        Street {
            inter1: (j / gs * gs + j % gs) as usize,
            inter1_dir: ConnectDir::S,
            inter2: ((j / gs + 1) * gs + j % gs) as usize,
            inter2_dir: ConnectDir::N,
        }
    }
}

/// The street graph: a `grid_size * grid_size` arena of intersections in
/// row-major order, and the arena of the streets joining them.
pub struct Grid {
    pub grid_size: usize,
    pub intersections: Vec<Intersection>,
    pub streets: Vec<Street>,
}

impl Grid {
    /// The generated shape: intersection `(gx, gy)` sits at arena slot
    /// `gy * grid_size + gx` and carries its grid coordinates.
    pub open spec fn wf(self) -> bool {
        &&& self.grid_size >= 1
        &&& self.grid_size <= 0x7fff
        &&& self.intersections@.len() == self.grid_size * self.grid_size
        &&& forall|i: int|
            0 <= i < self.grid_size * self.grid_size ==> (#[trigger] self.intersections@[i])
                == spec_intersection(
                self.grid_size as int,
                i % (self.grid_size as int),
                i / (self.grid_size as int),
            )
    }

    /// Rasterize the whole street graph into the world: after the pass,
    /// a tile is asphalt exactly where the closed-form street footprint
    /// says, and every other tile is as it was.
    pub fn rasterize(&self, world: &mut World)
        requires
            old(world).wf(),
            self.wf(),
            self.grid_size == old(world).config.grid_size,
        ensures
            final(world).wf(),
            final(world).config == old(world).config,
            forall|xx: int, yy: int|
                0 <= xx < old(world).config.world_size() && 0 <= yy
                    < old(world).config.world_size() ==> #[trigger] final(world).tile_at(xx, yy)
                    == (if is_street_tile(old(world).config, xx, yy) {
                    Tile::FloorTile(FloorTileType::AsphaltFloor, None)
                } else {
                    old(world).tile_at(xx, yy)
                }),
    {
        let ghost w0 = *old(world);
        let ghost ws = w0.config.world_size();
        let ghost gsi = self.grid_size as int;
        let gs: usize = self.grid_size;
        let n: usize = self.intersections.len();
        let mut i: usize = 0;
        while i < n
            invariant
                world.wf(),
                world.config == w0.config,
                ws == w0.config.world_size(),
                self.wf(),
                gs == self.grid_size,
                gsi == gs as int,
                gs == w0.config.grid_size,
                n == self.intersections@.len(),
                n == gs * gs,
                i <= n,
                forall|xx: int, yy: int|
                    0 <= xx < ws && 0 <= yy < ws ==> #[trigger] world.tile_at(xx, yy) == (
                    if exists|k: int|
                        0 <= k < i && #[trigger] inter_covers(
                            w0.config,
                            k % gsi,
                            k / gsi,
                            xx,
                            yy,
                        ) {
                        Tile::FloorTile(FloorTileType::AsphaltFloor, None)
                    } else {
                        w0.tile_at(xx, yy)
                    }),
            decreases n - i,
        {
            let ghost w_before = *world;
            let inter: Intersection = self.intersections[i];
            proof {
                vstd::arithmetic::div_mod::lemma_mod_division_less_than_divisor(i as int, gsi);
                vstd::arithmetic::div_mod::lemma_div_pos_is_pos(i as int, gsi);
                vstd::arithmetic::div_mod::lemma_fundamental_div_mod(i as int, gsi);
                assert((i as int) / gsi < gsi) by (nonlinear_arith)
                    requires
                        gsi >= 1,
                        i as int == gsi * (i as int / gsi) + i as int % gsi,
                        0 <= i as int % gsi < gsi,
                        (i as int) < gsi * gsi;
                assert(inter == spec_intersection(gsi, i as int % gsi, i as int / gsi));
                assert(inter.x == i as int % gsi && inter.y == i as int / gsi);
            }
            inter.rasterize(world);
            proof {
                assert forall|xx: int, yy: int| 0 <= xx < ws && 0 <= yy < ws implies
                    #[trigger] world.tile_at(xx, yy) == (if exists|k: int|
                    0 <= k < i + 1 && #[trigger] inter_covers(w0.config, k % gsi, k / gsi, xx, yy) {
                    Tile::FloorTile(FloorTileType::AsphaltFloor, None)
                } else {
                    w0.tile_at(xx, yy)
                }) by {
                    assert(world.tile_at(xx, yy) == (if inter_covers(
                        w0.config,
                        inter.x as int,
                        inter.y as int,
                        xx,
                        yy,
                    ) {
                        Tile::FloorTile(FloorTileType::AsphaltFloor, None)
                    } else {
                        w_before.tile_at(xx, yy)
                    }));
                    if inter_covers(w0.config, i as int % gsi, i as int / gsi, xx, yy) {
                        assert(exists|k: int|
                            0 <= k < i + 1 && #[trigger] inter_covers(
                                w0.config,
                                k % gsi,
                                k / gsi,
                                xx,
                                yy,
                            ));
                    } else if exists|k: int|
                        0 <= k < i && #[trigger] inter_covers(w0.config, k % gsi, k / gsi, xx, yy) {
                        let k = choose|k: int|
                            0 <= k < i && #[trigger] inter_covers(
                                w0.config,
                                k % gsi,
                                k / gsi,
                                xx,
                                yy,
                            );
                        assert(0 <= k < i + 1 && inter_covers(w0.config, k % gsi, k / gsi, xx, yy));
                    } else {
                        assert(forall|k: int|
                            0 <= k < i + 1 ==> !#[trigger] inter_covers(
                                w0.config,
                                k % gsi,
                                k / gsi,
                                xx,
                                yy,
                            ));
                    }
                }
            }
            i = i + 1;
        }
        proof {
            assert forall|xx: int, yy: int| 0 <= xx < ws && 0 <= yy < ws implies
                #[trigger] world.tile_at(xx, yy) == (if is_street_tile(w0.config, xx, yy) {
                Tile::FloorTile(FloorTileType::AsphaltFloor, None)
            } else {
                w0.tile_at(xx, yy)
            }) by {
                lemma_cover_union(w0.config, xx, yy);
            }
        }
    }

    /// Build the full rectilinear lattice for `config.grid_size`: every
    /// intersection is connected east/west and north/south to its
    /// neighbors, each connection is one street shared by both endpoints,
    /// and no diagonal street exists.
    pub fn generate(config: &Config) -> (g: Grid)
        requires
            config.wf(),
        ensures
            g.wf(),
            g.grid_size == config.grid_size,
            g.intersections@.len() == config.grid_size * config.grid_size,
            g.streets@.len() == 2 * config.grid_size * (config.grid_size - 1),
            forall|i: int|
                0 <= i < g.streets@.len() ==> (#[trigger] g.streets@[i]) == spec_street(
                    config.grid_size as int,
                    i,
                ),
            forall|i: int|
                0 <= i < g.intersections@.len() ==> (#[trigger] g.intersections@[i]).ne is None
                    && g.intersections@[i].se is None && g.intersections@[i].sw is None
                    && g.intersections@[i].nw is None,
    {
        let gs: usize = config.grid_size;
        proof {
            assert(gs <= 0x7fff && gs * gs <= 0x7fff * 0x7fff) by (nonlinear_arith)
                requires
                    gs >= 1,
                    gs * config.pitch() <= 0x7fff,
                    config.street_width >= 1,
                    config.block_width >= 0;
        }

        let mut intersections: Vec<Intersection> = Vec::new();
        let mut gy: usize = 0;
        while gy < gs
            invariant
                gs >= 1,
                gs * gs <= 0x7fff * 0x7fff,
                gy <= gs,
                intersections@.len() == gy * gs,
                forall|i: int|
                    0 <= i < gy * gs ==> (#[trigger] intersections@[i]) == spec_intersection(
                        gs as int,
                        i % (gs as int),
                        i / (gs as int),
                    ),
            decreases gs - gy,
        {
            proof {
                assert(gy * gs + gs <= gs * gs) by (nonlinear_arith)
                    requires
                        gy < gs,
                        gs >= 0;
            }
            let mut gx: usize = 0;
            while gx < gs
                invariant
                    gs >= 1,
                    gs * gs <= 0x7fff * 0x7fff,
                    gy < gs,
                    gx <= gs,
                    gy * gs + gs <= gs * gs,
                    intersections@.len() == gy * gs + gx,
                    forall|i: int|
                        0 <= i < gy * gs + gx ==> (#[trigger] intersections@[i])
                            == spec_intersection(gs as int, i % (gs as int), i / (gs as int)),
                decreases gs - gx,
            {
                let mut inter = Intersection::new(gx, gy);
                proof {
                    assert(gy * (gs - 1) + gx <= gs * gs && gs * (gs - 1) + gy * gs + gx <= 2 * (
                    gs * gs) && (gy >= 1 ==> gs * (gs - 1) + (gy - 1) * gs + gx <= 2 * (gs * gs)))
                        by (nonlinear_arith)
                        requires
                            gx < gs,
                            gy < gs,
                            gs >= 1;
                    assert(2 * (gs * gs) <= 2 * (0x7fff * 0x7fff));
                }
                if gx + 1 < gs {
                    inter.e = Some(gy * (gs - 1) + gx);
                }
                if gx >= 1 {
                    inter.w = Some(gy * (gs - 1) + (gx - 1));
                }
                if gy + 1 < gs {
                    inter.s = Some(gs * (gs - 1) + gy * gs + gx);
                }
                if gy >= 1 {
                    inter.n = Some(gs * (gs - 1) + (gy - 1) * gs + gx);
                }
                proof {
                    vstd::arithmetic::div_mod::lemma_fundamental_div_mod_converse(
                        (gy * gs + gx) as int,
                        gs as int,
                        gy as int,
                        gx as int,
                    );
                    assert(inter == spec_intersection(gs as int, gx as int, gy as int));
                }
                intersections.push(inter);
                gx = gx + 1;
            }
            proof {
                assert((gy + 1) * gs == gy * gs + gs) by (nonlinear_arith);
            }
            gy = gy + 1;
        }

        let mut streets: Vec<Street> = Vec::new();
        // Horizontal streets first, in row-major order of their west end.
        let mut gy: usize = 0;
        while gy < gs
            invariant
                gs >= 1,
                gs * gs <= 0x7fff * 0x7fff,
                gy <= gs,
                streets@.len() == gy * (gs - 1),
                forall|i: int|
                    0 <= i < gy * (gs - 1) ==> (#[trigger] streets@[i]) == spec_street(
                        gs as int,
                        i,
                    ),
            decreases gs - gy,
        {
            proof {
                assert(gy * (gs - 1) + (gs - 1) <= gs * (gs - 1) && gs * (gs - 1) <= gs * gs)
                    by (nonlinear_arith)
                    requires
                        gy < gs,
                        gs >= 1;
            }
            let mut gx: usize = 0;
            while gx + 1 < gs
                invariant
                    gs >= 1,
                    gs * gs <= 0x7fff * 0x7fff,
                    gy < gs,
                    gx <= gs - 1,
                    gy * (gs - 1) + (gs - 1) <= gs * (gs - 1),
                    gs * (gs - 1) <= gs * gs,
                    streets@.len() == gy * (gs - 1) + gx,
                    forall|i: int|
                        0 <= i < gy * (gs - 1) + gx ==> (#[trigger] streets@[i]) == spec_street(
                            gs as int,
                            i,
                        ),
                decreases gs - gx,
            {
                let id: usize = gy * (gs - 1) + gx;
                proof {
                    assert(gy * gs + gx + 1 < gs * gs) by (nonlinear_arith)
                        requires
                            gx + 1 < gs,
                            gy < gs,
                            gs >= 1;
                }
                let street = Street {
                    inter1: gy * gs + gx,
                    inter1_dir: ConnectDir::E,
                    inter2: gy * gs + gx + 1,
                    inter2_dir: ConnectDir::W,
                };
                proof {
                    vstd::arithmetic::div_mod::lemma_fundamental_div_mod_converse(
                        id as int,
                        (gs - 1) as int,
                        gy as int,
                        gx as int,
                    );
                    assert(id < gs * (gs - 1)) by (nonlinear_arith)
                        requires
                            id == gy * (gs - 1) + gx,
                            gx < gs - 1,
                            gy < gs,
                            gs >= 1;
                    assert(street == spec_street(gs as int, id as int));
                }
                streets.push(street);
                gx = gx + 1;
            }
            proof {
                assert((gy + 1) * (gs - 1) == gy * (gs - 1) + (gs - 1)) by (nonlinear_arith);
                if gs == 1 {
                    assert(gy * (gs - 1) + gx == (gy + 1) * (gs - 1));
                }
            }
            gy = gy + 1;
        }
        proof {
            assert(gs * (gs - 1) == streets@.len()) by (nonlinear_arith)
                requires
                    streets@.len() == gs * (gs - 1),
            ;
        }
        // Vertical streets after them, in row-major order of their north end.
        let ghost h_count = streets@.len() as int;
        let mut gy: usize = 0;
        while gy + 1 < gs
            invariant
                gs >= 1,
                gs * gs <= 0x7fff * 0x7fff,
                gy <= gs - 1,
                h_count == gs * (gs - 1),
                streets@.len() == h_count + gy * gs,
                forall|i: int|
                    0 <= i < streets@.len() ==> (#[trigger] streets@[i]) == spec_street(
                        gs as int,
                        i,
                    ),
            decreases gs - gy,
        {
            proof {
                assert(gs * (gs - 1) + gy * gs + gs <= 2 * (gs * gs)) by (nonlinear_arith)
                    requires
                        gy + 1 < gs,
                        gs >= 1;
            }
            let mut gx: usize = 0;
            while gx < gs
                invariant
                    gs >= 1,
                    gs * gs <= 0x7fff * 0x7fff,
                    gy + 1 < gs,
                    gx <= gs,
                    h_count == gs * (gs - 1),
                    gs * (gs - 1) + gy * gs + gs <= 2 * (gs * gs),
                    streets@.len() == h_count + gy * gs + gx,
                    forall|i: int|
                        0 <= i < streets@.len() ==> (#[trigger] streets@[i]) == spec_street(
                            gs as int,
                            i,
                        ),
                decreases gs - gx,
            {
                proof {
                    assert(gy * gs + gx < gs * gs && (gy + 1) * gs + gx < gs * gs)
                        by (nonlinear_arith)
                        requires
                            gx < gs,
                            gy + 1 < gs,
                            gs >= 1;
                }
                let street = Street {
                    inter1: gy * gs + gx,
                    inter1_dir: ConnectDir::S,
                    inter2: (gy + 1) * gs + gx,
                    inter2_dir: ConnectDir::N,
                };
                proof {
                    let id = h_count + gy * gs + gx;
                    vstd::arithmetic::div_mod::lemma_fundamental_div_mod_converse(
                        (gy * gs + gx) as int,
                        gs as int,
                        gy as int,
                        gx as int,
                    );
                    assert(id >= gs * (gs - 1));
                    assert(street == spec_street(gs as int, id));
                }
                streets.push(street);
                gx = gx + 1;
            }
            proof {
                assert((gy + 1) * gs == gy * gs + gs) by (nonlinear_arith);
            }
            gy = gy + 1;
        }
        proof {
            if gs == 1 {
                assert(streets@.len() == 2 * gs * (gs - 1));
            } else {
                assert(h_count + (gs - 1) * gs == 2 * gs * (gs - 1)) by (nonlinear_arith)
                    requires
                        h_count == gs * (gs - 1),
                        gs >= 1,
                ;
            }
        }

        let g = Grid { grid_size: gs, intersections, streets };
        proof {
            assert forall|i: int| 0 <= i < g.intersections@.len() implies (
            #[trigger] g.intersections@[i]).ne is None && g.intersections@[i].se is None
                && g.intersections@[i].sw is None && g.intersections@[i].nw is None by {
                assert(g.intersections@[i] == spec_intersection(
                    gs as int,
                    i % (gs as int),
                    i / (gs as int),
                ));
            }
        }
        g
    }
}

impl Intersection {
    /// Rasterize this intersection into the world: fill its own box with
    /// asphalt, and, where a neighbor exists, the street box running east
    /// and the one running south, each spanning the full block width.
    /// Exactly the tiles this node's footprint covers are written.
    pub fn rasterize(&self, world: &mut World)
        requires
            old(world).wf(),
            self.x < old(world).config.grid_size,
            self.y < old(world).config.grid_size,
        ensures
            final(world).wf(),
            final(world).config == old(world).config,
            forall|xx: int, yy: int|
                0 <= xx < old(world).config.world_size() && 0 <= yy
                    < old(world).config.world_size() ==> #[trigger] final(world).tile_at(xx, yy)
                    == (if inter_covers(
                    old(world).config,
                    self.x as int,
                    self.y as int,
                    xx,
                    yy,
                ) {
                    Tile::FloorTile(FloorTileType::AsphaltFloor, None)
                } else {
                    old(world).tile_at(xx, yy)
                }),
    {
        let ghost w0 = *old(world);
        let ghost ws = w0.config.world_size();
        let cfg: Config = world.config;
        let gs: usize = cfg.grid_size;
        proof {
            assert(cfg.pitch() <= ws) by (nonlinear_arith)
                requires
                    ws == cfg.grid_size * cfg.pitch(),
                    cfg.grid_size >= 1,
                    cfg.pitch() >= 0;
        }
        let pitch: usize = cfg.street_width + cfg.block_width;
        proof {
            assert(cfg.pitch() <= ws && self.x * pitch + pitch <= gs * pitch && self.y * pitch
                + pitch <= gs * pitch && gs * pitch == ws) by (nonlinear_arith)
                requires
                    pitch == cfg.pitch(),
                    ws == gs * cfg.pitch(),
                    gs == cfg.grid_size,
                    self.x < gs,
                    self.y < gs,
                    gs >= 1,
                    pitch >= 1;
        }
        let min_x: usize = self.x * pitch;
        let min_y: usize = self.y * pitch;
        let max_x: usize = min_x + cfg.street_width - 1;
        let max_y: usize = min_y + cfg.street_width - 1;

        let asphalt = Tile::FloorTile(FloorTileType::AsphaltFloor, None);
        fill_rect(world, asphalt, min_x, min_y, max_x, max_y);
        let ghost w1 = *world;

        if self.x + 1 < gs {
            fill_rect(world, asphalt, max_x + 1, min_y, max_x + cfg.block_width, max_y);
        }
        let ghost w2 = *world;

        if self.y + 1 < gs {
            fill_rect(world, asphalt, min_x, max_y + 1, max_x, max_y + cfg.block_width);
        }

        proof {
            let gx = self.x as int;
            let gy = self.y as int;
            assert forall|xx: int, yy: int| 0 <= xx < ws && 0 <= yy < ws implies
                #[trigger] world.tile_at(xx, yy) == (if inter_covers(w0.config, gx, gy, xx, yy) {
                asphalt
            } else {
                w0.tile_at(xx, yy)
            }) by {
                assert(w1.tile_at(xx, yy) == (if in_rect(
                    xx,
                    yy,
                    min_x as int,
                    min_y as int,
                    max_x as int,
                    max_y as int,
                ) {
                    asphalt
                } else {
                    w0.tile_at(xx, yy)
                }));
                assert(in_rect(xx, yy, min_x as int, min_y as int, max_x as int, max_y as int)
                    == inter_box_covers(w0.config, gx, gy, xx, yy));
                if self.x + 1 < gs {
                    assert(in_rect(
                        xx,
                        yy,
                        max_x + 1,
                        min_y as int,
                        max_x + cfg.block_width,
                        max_y as int,
                    ) == east_covers(w0.config, gx, gy, xx, yy));
                } else {
                    assert(w2 == w1 && !east_covers(w0.config, gx, gy, xx, yy));
                }
                if self.y + 1 < gs {
                    assert(in_rect(
                        xx,
                        yy,
                        min_x as int,
                        max_y + 1,
                        max_x as int,
                        max_y + cfg.block_width,
                    ) == south_covers(w0.config, gx, gy, xx, yy));
                } else {
                    assert(*world == w2 && !south_covers(w0.config, gx, gy, xx, yy));
                }
            }
        }
    }

    /// A fresh, unconnected intersection at grid coordinate `(x, y)`.
    pub fn new(x: usize, y: usize) -> (inter: Intersection)
        ensures
            inter == (Intersection {
                x,
                y,
                n: None,
                ne: None,
                e: None,
                se: None,
                s: None,
                sw: None,
                w: None,
                nw: None,
            }),
    {
        Intersection {
            x,
            y,
            n: None,
            ne: None,
            e: None,
            se: None,
            s: None,
            sw: None,
            w: None,
            nw: None,
        }
    }
}

} // verus!
