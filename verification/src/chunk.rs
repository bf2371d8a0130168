//! Chunks: fixed-size square partitions of the tile grid, each owning a
//! row-major buffer of its tiles together with the flat geometry arrays
//! packed from them, ready for a rendering backend to upload.

use vstd::prelude::*;

use crate::tile::{spec_colors, spec_indices, spec_positions, FloorTileType, Tile};

verus! {

/// The position entries emitted for the first `n` tiles of a chunk whose
/// south-west tile sits at world coordinate `(min_x, min_y)`: tile `i` lies
/// at `(min_x + i % size, min_y + i / size)`.
pub open spec fn chunk_positions(min_x: int, min_y: int, size: int, n: nat) -> Seq<i32>
    decreases n,
{
    if n == 0 {
        Seq::empty()
    } else {
        chunk_positions(min_x, min_y, size, (n - 1) as nat) + spec_positions(
            min_x + (n - 1) % size,
            min_y + (n - 1) / size,
        )
    }
}

/// The color entries emitted for the first `n` tiles of a chunk.
pub open spec fn chunk_colors(tiles: Seq<Tile>, n: nat) -> Seq<u8>
    decreases n,
{
    if n == 0 {
        Seq::empty()
    } else {
        chunk_colors(tiles, (n - 1) as nat) + spec_colors(tiles[n - 1])
    }
}

/// The index entries emitted for the first `n` tiles of a chunk: tile `i`
/// is preceded by `4 * i` vertices, and its six indices are relative to
/// that running count.
pub open spec fn chunk_indices(n: nat) -> Seq<u16>
    decreases n,
{
    if n == 0 {
        Seq::empty()
    } else {
        chunk_indices((n - 1) as nat) + spec_indices(4 * (n - 1))
    }
}

/// Counting the geometry of `n` tiles: each tile emits exactly 4 vertices
/// (8 position entries, 12 color entries) and 6 indices, and no index ever
/// reaches the vertex count `4 * n`.
pub proof fn lemma_geometry_counts(tiles: Seq<Tile>, min_x: int, min_y: int, size: int, n: nat)
    requires
        4 * n <= 65536,
    ensures
        chunk_positions(min_x, min_y, size, n).len() == 8 * n,
        chunk_colors(tiles, n).len() == 12 * n,
        chunk_indices(n).len() == 6 * n,
        forall|j: int| 0 <= j < 6 * n ==> chunk_indices(n)[j] < 4 * n,
    decreases n,
{
    if n > 0 {
        lemma_geometry_counts(tiles, min_x, min_y, size, (n - 1) as nat);
        assert forall|j: int| 0 <= j < 6 * n implies chunk_indices(n)[j] < 4 * n by {
            if j < 6 * (n - 1) {
                assert(chunk_indices(n)[j] == chunk_indices((n - 1) as nat)[j]);
            } else {
                assert(chunk_indices(n)[j] == spec_indices(4 * (n - 1))[j - 6 * (n - 1)]);
            }
        }
    }
}

/// One square chunk of the world: `size * size` tiles in row-major order,
/// the world coordinate of its first tile, and the geometry arrays last
/// packed from its tiles, with the cached index count.
pub struct Chunk {
    pub min_x: usize,
    pub min_y: usize,
    pub size: usize,
    pub tiles: Vec<Tile>,
    pub positions: Vec<i32>,
    pub colors: Vec<u8>,
    pub indices: Vec<u16>,
    pub index_count: usize,
}

impl Chunk {
    /// Structural soundness: a positive side length small enough that the
    /// chunk's vertex indices fit 16 bits, a full tile buffer, and an
    /// origin that keeps doubled world coordinates inside 32 bits.
    pub open spec fn wf(self) -> bool {
        &&& self.size >= 1
        &&& 4 * self.size * self.size < 65536
        &&& self.tiles@.len() == self.size * self.size
        &&& self.min_x + self.size <= 0x4000_0000
        &&& self.min_y + self.size <= 0x4000_0000
    }

    /// The tile at chunk-local coordinate `(lx, ly)`.
    pub open spec fn spec_tile(self, lx: int, ly: int) -> Tile {
        self.tiles@[ly * self.size + lx]
    }

    /// The geometry arrays agree with the tile buffer.
    pub open spec fn buffered(self) -> bool {
        &&& self.positions@ == chunk_positions(
            self.min_x as int,
            self.min_y as int,
            self.size as int,
            (self.size * self.size) as nat,
        )
        &&& self.colors@ == chunk_colors(self.tiles@, (self.size * self.size) as nat)
        &&& self.indices@ == chunk_indices((self.size * self.size) as nat)
        &&& self.index_count == 6 * self.size * self.size
    }

    /// A chunk of nothing but default tiles, with empty geometry arrays.
    /// The geometry is not packed here: call `buffer` on the result.
    pub fn blank(min_x: usize, min_y: usize, size: usize) -> (c: Chunk)
        requires
            size >= 1,
            4 * size * size < 65536,
            min_x + size <= 0x4000_0000,
            min_y + size <= 0x4000_0000,
        ensures
            c.wf(),
            c.min_x == min_x,
            c.min_y == min_y,
            c.size == size,
            c.tiles@.len() == size * size,
            forall|i: int| 0 <= i < size * size ==> c.tiles@[i] == Tile::FloorTile(FloorTileType::GrassFloor, None),
            c.positions@ == Seq::<i32>::empty(),
            c.colors@ == Seq::<u8>::empty(),
            c.indices@ == Seq::<u16>::empty(),
            c.index_count == 0,
    {
        proof {
            assert(size * size < 16384) by (nonlinear_arith)
                requires
                    4 * size * size < 65536,
                    size >= 0;
        }
        let count: usize = size * size;
        let mut tiles: Vec<Tile> = Vec::new();
        let mut i: usize = 0;
        while i < count
            invariant
                i <= count,
                tiles@.len() == i,
                forall|j: int| 0 <= j < i ==> tiles@[j] == Tile::FloorTile(FloorTileType::GrassFloor, None),
            decreases count - i,
        {
            tiles.push(Tile::default());
            i = i + 1;
        }
        Chunk {
            min_x,
            min_y,
            size,
            tiles,
            positions: Vec::new(),
            colors: Vec::new(),
            indices: Vec::new(),
            index_count: 0,
        }
    }

    /// Pack this chunk's tiles into fresh position, color and index arrays,
    /// replacing whatever was buffered before. Each tile contributes a unit
    /// square of four vertices and two triangles; indices are relative to
    /// the running vertex count of the whole pass.
    pub fn buffer(&mut self)
        requires
            old(self).wf(),
        ensures
            final(self).wf(),
            final(self).buffered(),
            final(self).min_x == old(self).min_x,
            final(self).min_y == old(self).min_y,
            final(self).size == old(self).size,
            final(self).tiles == old(self).tiles,
    {
        proof {
            assert(self.size * self.size < 16384) by (nonlinear_arith)
                requires
                    4 * self.size * self.size < 65536,
                    self.size >= 0;
        }
        let size: usize = self.size;
        let size_sq: usize = size * size;
        proof {
            assert(4 * size_sq < 65536) by (nonlinear_arith)
                requires
                    size_sq == size * size,
                    4 * size * size < 65536,
            ;
        }
        let mut positions: Vec<i32> = Vec::new();
        let mut colors: Vec<u8> = Vec::new();
        let mut indices: Vec<u16> = Vec::new();

        let ghost gmin_x = self.min_x as int;
        let ghost gmin_y = self.min_y as int;

        let mut y: usize = 0;
        while y < size
            invariant
                *self == *old(self),
                size == self.size,
                size_sq == size * size,
                4 * size_sq < 65536,
                gmin_x == self.min_x as int,
                gmin_y == self.min_y as int,
                self.wf(),
                y <= size,
                positions@ == chunk_positions(gmin_x, gmin_y, size as int, (y * size) as nat),
                colors@ == chunk_colors(self.tiles@, (y * size) as nat),
                indices@ == chunk_indices((y * size) as nat),
            decreases size - y,
        {
            proof {
                assert(y * size + size <= size * size) by (nonlinear_arith)
                    requires
                        y < size,
                        size >= 0;
            }
            let mut x: usize = 0;
            while x < size
                invariant
                    *self == *old(self),
                    size == self.size,
                    size_sq == size * size,
                    4 * size_sq < 65536,
                    gmin_x == self.min_x as int,
                    gmin_y == self.min_y as int,
                    self.wf(),
                    y < size,
                    x <= size,
                    y * size + size <= size_sq,
                    positions@ == chunk_positions(
                        gmin_x,
                        gmin_y,
                        size as int,
                        (y * size + x) as nat,
                    ),
                    colors@ == chunk_colors(self.tiles@, (y * size + x) as nat),
                    indices@ == chunk_indices((y * size + x) as nat),
                decreases size - x,
            {
                let i: usize = y * size + x;
                proof {
                    lemma_geometry_counts(
                        self.tiles@,
                        gmin_x,
                        gmin_y,
                        size as int,
                        i as nat,
                    );
                    vstd::arithmetic::div_mod::lemma_fundamental_div_mod_converse(
                        i as int,
                        size as int,
                        y as int,
                        x as int,
                    );
                }
                let tile: Tile = self.tiles[i];
                tile.buffer(&mut positions, &mut colors, &mut indices, self.min_x + x, self.min_y + y);
                proof {
                    let n1 = (i + 1) as nat;
                    assert((n1 - 1) as nat == i as nat);
                    assert(positions@ == chunk_positions(gmin_x, gmin_y, size as int, n1));
                    assert(colors@ == chunk_colors(self.tiles@, n1));
                    assert(indices@ == chunk_indices(n1));
                }
                x = x + 1;
            }
            proof {
                assert((y + 1) * size == y * size + size) by (nonlinear_arith);
            }
            y = y + 1;
        }
        proof {
            lemma_geometry_counts(self.tiles@, gmin_x, gmin_y, size as int, size_sq as nat);
        }
        proof {
            assert(positions@ == chunk_positions(gmin_x, gmin_y, size as int, (size * size) as nat));
            assert(indices@.len() == 6 * size_sq);
            assert(6 * size_sq == 6 * size * size) by (nonlinear_arith)
                requires
                    size_sq == size * size,
            ;
        }
        self.index_count = indices.len();
        self.positions = positions;
        self.colors = colors;
        self.indices = indices;
    }

    /// Overwrite the single tile slot for world coordinate `(x, y)`, which
    /// must lie inside this chunk. The geometry arrays are left as they
    /// were; the caller re-packs them.
    pub fn replace_tile(&mut self, x: usize, y: usize, tile: Tile)
        requires
            old(self).wf(),
            old(self).min_x <= x < old(self).min_x + old(self).size,
            old(self).min_y <= y < old(self).min_y + old(self).size,
        ensures
            *final(self) == (Chunk {
                tiles: final(self).tiles,
                ..*old(self)
            }),
            final(self).tiles@ == old(self).tiles@.update(
                (y - old(self).min_y) * old(self).size + (x - old(self).min_x),
                tile,
            ),
    {
        let rel_x: usize = x - self.min_x;
        let rel_y: usize = y - self.min_y;
        proof {
            assert(rel_y * self.size + rel_x < self.size * self.size && self.size * self.size
                < 16384) by (nonlinear_arith)
                requires
                    rel_x < self.size,
                    rel_y < self.size,
                    self.size >= 1,
                    4 * self.size * self.size < 65536;
        }
        self.tiles[rel_y * self.size + rel_x] = tile;
    }
}

} // verus!
