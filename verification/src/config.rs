//! Generation constants, lifted into an explicit configuration value so that
//! worlds of different sizes can be built and tested without recompilation.

use vstd::prelude::*;

verus! {

/// The constants that shape a generated city.
///
/// `grid_size` is the number of street intersections along each axis,
/// `street_width` and `block_width` are measured in tiles, and `chunk_size`
/// is the side length, in tiles, of one square chunk of the tile grid.
#[derive(Debug, Clone, Copy, PartialEq, Eq, Structural)]
pub struct Config {
    pub grid_size: usize,
    pub street_width: usize,
    pub block_width: usize,
    pub chunk_size: usize,
}

impl Config {
    /// Distance, in tiles, from the start of one street to the start of the
    /// next along either axis.
    pub open spec fn pitch(self) -> int {
        self.street_width + self.block_width
    }

    /// Side length of the whole world, in tiles.
    pub open spec fn world_size(self) -> int {
        self.grid_size * self.pitch()
    }

    /// Number of chunks along each axis of the world.
    pub open spec fn chunks_per_axis(self) -> int {
        self.world_size() / self.chunk_size as int
    }

    /// A configuration the generator can work with: positive sizes, a chunk
    /// small enough that its indices fit 16 bits, a world extent that is an
    /// exact multiple of the chunk size, and a world extent small enough
    /// that tile coordinates, street handles and their products all fit
    /// comfortably in 32 bits.
    pub open spec fn wf(self) -> bool {
        &&& self.grid_size >= 1
        &&& self.street_width >= 1
        &&& self.chunk_size >= 1
        &&& 4 * self.chunk_size * self.chunk_size < 65536
        &&& self.world_size() % (self.chunk_size as int) == 0
        &&& self.world_size() <= 0x7fff
    }

    /// Runtime check that this configuration is well-formed.
    pub fn valid(&self) -> (b: bool)
        ensures
            b == self.wf(),
    {
        if self.grid_size < 1 || self.street_width < 1 || self.chunk_size < 1 {
            return false;
        }
        if self.street_width > 0x7fff || self.block_width > 0x7fff {
            proof {
                assert(self.world_size() > 0x7fffint) by (nonlinear_arith)
                    requires
                        self.grid_size >= 1,
                        self.pitch() > 0x7fffint;
            }
            return false;
        }
        let pitch: usize = self.street_width + self.block_width;
        let bound: usize = 0x7fff;
        if self.grid_size > bound / pitch {
            proof {
                vstd::arithmetic::div_mod::lemma_fundamental_div_mod(bound as int, pitch as int);
                assert(self.world_size() > bound) by (nonlinear_arith)
                    requires
                        pitch == self.pitch(),
                        pitch >= 1,
                        self.grid_size > bound as int / pitch as int,
                        bound as int == (bound as int / pitch as int) * pitch + bound as int % (
                        pitch as int),
                        0 <= bound as int % (pitch as int) < pitch;
            }
            return false;
        }
        proof {
            vstd::arithmetic::div_mod::lemma_fundamental_div_mod(bound as int, pitch as int);
            assert(self.grid_size * pitch <= bound) by (nonlinear_arith)
                requires
                    pitch >= 1,
                    self.grid_size <= bound as int / pitch as int,
                    bound as int == (bound as int / pitch as int) * pitch + bound as int % (
                    pitch as int),
                    0 <= bound as int % (pitch as int);
        }
        let world_size: usize = self.grid_size * pitch;
        if self.chunk_size > 127 {
            proof {
                assert(4 * self.chunk_size * self.chunk_size >= 65536) by (nonlinear_arith)
                    requires
                        self.chunk_size > 127;
            }
            return false;
        }
        proof {
            assert(4 * self.chunk_size * self.chunk_size <= 64516int) by (nonlinear_arith)
                requires
                    self.chunk_size <= 127;
        }
        if 4 * self.chunk_size * self.chunk_size >= 65536 {
            return false;
        }
        world_size % self.chunk_size == 0
    }
}

/// The canonical constants: a 10 x 10 street grid, 15-tile-wide streets,
/// 185-tile-wide blocks, and 20-tile chunks.
impl Default for Config {
    fn default() -> (c: Config)
        ensures
            c == (Config { grid_size: 10, street_width: 15, block_width: 185, chunk_size: 20 }),
            c.wf(),
    {
        Config { grid_size: 10, street_width: 15, block_width: 185, chunk_size: 20 }
    }
}

} // verus!
