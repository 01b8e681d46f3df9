//! Settings and integer helpers of the parallel Delaunay tetrahedralizer:
//! grid colouring for conflict-free parallel work, bit interleaving of grid
//! coordinates, and per-tetrahedron ownership tokens.
use vstd::prelude::*;
use std::sync::atomic::AtomicUsize;

verus! {

/// Parallel Delaunay 3-D mesher settings.
#[derive(Debug, Clone)]
pub struct Hxt3D {
    /// Number of threads to use during parallel insertion; `0` means all
    /// logical CPU cores.
    pub num_threads: usize,
    /// Hilbert curve order (grid resolution `2^hilbert_order`).
    pub hilbert_order: u32,
    /// Size of the conflict-resolution buffer (points) per thread.
    pub conflict_buffer_size: usize,
    /// Whether Delaunay refinement runs after the parallel insertion.
    pub enable_refinement: bool,
}

impl Default for Hxt3D {
    fn default() -> (h: Self)
        ensures
            h.num_threads == 0,
            h.hilbert_order == 8,
            h.conflict_buffer_size == 65_536,
            h.enable_refinement,
    {
        Hxt3D {
            num_threads: 0,
            hilbert_order: 8,
            conflict_buffer_size: 65_536,
            enable_refinement: true,
        }
    }
}

impl Hxt3D {
    /// The default settings.
    pub fn new() -> (h: Self)
        ensures
            h.num_threads == 0,
            h.hilbert_order == 8,
            h.conflict_buffer_size == 65_536,
            h.enable_refinement,
    {
        Self::default()
    }

    /// The same settings on a single thread.
    pub fn single_threaded(self) -> (h: Self)
        ensures
            h.num_threads == 1,
            h.hilbert_order == self.hilbert_order,
            h.conflict_buffer_size == self.conflict_buffer_size,
            h.enable_refinement == self.enable_refinement,
    {
        let mut s = self;
        s.num_threads = 1;
        s
    }
}

// ─── Grid colouring ──────────────────────────────────────────────────────────

/// The colour of grid cell `(ix, iy, iz)`: the parities of its coordinates
/// as three bits.
pub open spec fn cell_color(ix: int, iy: int, iz: int) -> int {
    ix % 2 + 2 * (iy % 2) + 4 * (iz % 2)
}

/// The colour of the cell with linear index `t` in a grid `nx` cells wide
/// and `ny` cells deep, `x` running fastest.
pub open spec fn grid_color(t: int, nx: int, ny: int) -> int {
    cell_color(t % nx, (t / nx) % ny, (t / nx) / ny)
}

/// The linear index of cell `(ix, iy, iz)` gives back its coordinates.
pub proof fn lemma_cell_index(ix: int, iy: int, iz: int, nx: int, ny: int)
    requires
        0 <= ix < nx,
        0 <= iy < ny,
        0 <= iz,
    ensures
        grid_color((iz * ny + iy) * nx + ix, nx, ny) == cell_color(ix, iy, iz),
        (iz * ny + iy) * nx + ix == iz * ny * nx + iy * nx + ix,
{
    let t = (iz * ny + iy) * nx + ix;
    vstd::arithmetic::div_mod::lemma_fundamental_div_mod_converse(t, nx, iz * ny + iy, ix);
    vstd::arithmetic::div_mod::lemma_fundamental_div_mod_converse(iz * ny + iy, ny, iz, iy);
    assert((iz * ny + iy) * nx == iz * ny * nx + iy * nx) by (nonlinear_arith);
}

/// Adjacent cells (sharing a face, an edge or a corner) have different
/// colours, and there are eight colours.
pub proof fn lemma_neighbour_colors_differ(
    ix: int,
    iy: int,
    iz: int,
    jx: int,
    jy: int,
    jz: int,
)
    requires
        0 <= ix && 0 <= iy && 0 <= iz && 0 <= jx && 0 <= jy && 0 <= jz,
        -1 <= ix - jx <= 1,
        -1 <= iy - jy <= 1,
        -1 <= iz - jz <= 1,
        ix != jx || iy != jy || iz != jz,
    ensures
        cell_color(ix, iy, iz) != cell_color(jx, jy, jz),
        0 <= cell_color(ix, iy, iz) < 8,
{
}

/// The colour of a cell from its coordinates, as bits.
fn color_bits(ix: usize, iy: usize, iz: usize) -> (c: u8)
    ensures
        c == cell_color(ix as int, iy as int, iz as int),
{
    let a = ix & 1;
    let b = iy & 1;
    let d = iz & 1;
    assert(a == ix % 2) by (bit_vector)
        requires
            a == ix & 1,
    ;
    assert(b == iy % 2) by (bit_vector)
        requires
            b == iy & 1,
    ;
    assert(d == iz % 2) by (bit_vector)
        requires
            d == iz & 1,
    ;
    let v = a | (b << 1u32) | (d << 2u32);
    assert(v == a + 2 * b + 4 * d) by (bit_vector)
        requires
            a <= 1,
            b <= 1,
            d <= 1,
            v == a | (b << 1u32) | (d << 2u32),
    ;
    v as u8
}

/// Colours each cell of an `nx × ny × nz` grid (x fastest, then y, then z)
/// so that no two cells sharing a face, an edge or a corner get the same
/// colour: the colour is the parities of the cell's coordinates, in `0..8`.
pub fn grid_coloring_3d(nx: usize, ny: usize, nz: usize) -> (colors: Vec<u8>)
    requires
        nx * ny * nz <= usize::MAX,
    ensures
        colors@.len() == nx * ny * nz,
        forall|t: int| 0 <= t < colors@.len() ==> colors@[t] == grid_color(t, nx as int, ny as int),
        forall|ix: int, iy: int, iz: int|
            0 <= ix < nx && 0 <= iy < ny && 0 <= iz < nz ==> colors@[iz * ny * nx + iy * nx + ix]
                == cell_color(ix, iy, iz),
{
    let mut colors: Vec<u8> = Vec::new();
    let mut iz: usize = 0;
    assert(0 * ny * nx == 0) by (nonlinear_arith);
    while iz < nz
        invariant
            iz <= nz,
            nx * ny * nz <= usize::MAX,
            colors@.len() == iz * ny * nx,
            forall|t: int|
                0 <= t < colors@.len() ==> colors@[t] == grid_color(t, nx as int, ny as int),
        decreases nz - iz,
    {
        let mut iy: usize = 0;
        assert(iz * ny * nx + 0 * nx == iz * ny * nx) by (nonlinear_arith);
        while iy < ny
            invariant
                iz < nz,
                iy <= ny,
                nx * ny * nz <= usize::MAX,
                colors@.len() == iz * ny * nx + iy * nx,
                forall|t: int|
                    0 <= t < colors@.len() ==> colors@[t] == grid_color(t, nx as int, ny as int),
            decreases ny - iy,
        {
            let mut ix: usize = 0;
            while ix < nx
                invariant
                    iz < nz,
                    iy < ny,
                    ix <= nx,
                    nx * ny * nz <= usize::MAX,
                    colors@.len() == iz * ny * nx + iy * nx + ix,
                    forall|t: int|
                        0 <= t < colors@.len() ==> colors@[t] == grid_color(
                            t,
                            nx as int,
                            ny as int,
                        ),
                decreases nx - ix,
            {
                proof {
                    lemma_cell_index(ix as int, iy as int, iz as int, nx as int, ny as int);
                    assert(iz * ny * nx + iy * nx + ix < nx * ny * nz) by (nonlinear_arith)
                        requires
                            iz < nz,
                            iy < ny,
                            ix < nx,
                    ;
                }
                let c = color_bits(ix, iy, iz);
                colors.push(c);
                ix = ix + 1;
            }
            assert(iz * ny * nx + iy * nx + nx == iz * ny * nx + (iy + 1) * nx) by (nonlinear_arith);
            iy = iy + 1;
        }
        assert(iz * ny * nx + ny * nx == (iz + 1) * ny * nx) by (nonlinear_arith);
        iz = iz + 1;
    }
    assert(nz * ny * nx == nx * ny * nz) by (nonlinear_arith);
    assert forall|ix: int, iy: int, iz: int|
        0 <= ix < nx && 0 <= iy < ny && 0 <= iz < nz implies colors@[iz * ny * nx + iy * nx + ix]
        == cell_color(ix, iy, iz) by {
        lemma_cell_index(ix, iy, iz, nx as int, ny as int);
        assert(iz * ny * nx + iy * nx + ix < nx * ny * nz) by (nonlinear_arith)
            requires
                0 <= ix < nx,
                0 <= iy < ny,
                0 <= iz < nz,
        ;
    }
    colors
}

// ─── Bit interleaving ────────────────────────────────────────────────────────

/// Bit `b` of `v`.
pub open spec fn bit(v: u64, b: nat) -> u64 {
    (v >> b) & 1
}

/// The first `k` bits of `ix`, `iy` and `iz` interleaved: bit `b` of `ix`
/// goes to bit `3b`, of `iy` to `3b + 1`, of `iz` to `3b + 2`.
pub open spec fn interleaved(ix: u64, iy: u64, iz: u64, k: nat) -> u64
    decreases k,
{
    if k == 0 {
        0
    } else {
        let b = (k - 1) as nat;
        interleaved(ix, iy, iz, b) | (bit(ix, b) << (3 * b)) | (bit(iy, b) << (3 * b + 1)) | (bit(
            iz,
            b,
        ) << (3 * b + 2))
    }
}

/// The interleaved key of grid coordinates over `order` bits (at most 20),
/// used to sort points for cache-friendly insertion.
pub fn interleave_bits(ix: u64, iy: u64, iz: u64, order: u32) -> (code: u64)
    ensures
        code == interleaved(ix, iy, iz, if order < 20 {
            order as nat
        } else {
            20
        }),
{
    let k: u32 = if order < 20 {
        order
    } else {
        20
    };
    let mut code: u64 = 0;
    let mut b: u32 = 0;
    while b < k
        invariant
            b <= k <= 20,
            code == interleaved(ix, iy, iz, b as nat),
        decreases k - b,
    {
        let s = 3 * b;
        code = code | (((ix >> b) & 1) << s) | (((iy >> b) & 1) << (s + 1)) | (((iz >> b) & 1) << (
        s + 2));
        b = b + 1;
    }
    code
}

// ─── Ownership tokens ────────────────────────────────────────────────────────

/// An ownership token for a tetrahedron during parallel insertion: 0 when
/// free, else the owning thread's ID plus one.
pub struct TetOwnership {
    owner: AtomicUsize,
}

impl TetOwnership {
    /// A free token. The value inside a standard atomic has no model in
    /// the specifications, so no clause states that the token is free.
    pub fn new() -> Self {
        TetOwnership { owner: AtomicUsize::new(0) }
    }

    /// Tries to claim the token for thread `thread_id`; `true` on success,
    /// `false` if another thread owns it. What comes back depends on the
    /// other threads, so no clause states it.
    pub fn try_claim(&self, thread_id: usize) -> bool
        requires
            thread_id < usize::MAX,
    {
        let r = self.owner.compare_exchange(
            0,
            thread_id + 1,
            std::sync::atomic::Ordering::Acquire,
            std::sync::atomic::Ordering::Relaxed,
        );
        r.is_ok()
    }

    /// Releases the token.
    pub fn release(&self) {
        self.owner.store(0, std::sync::atomic::Ordering::Release);
    }
}

} // verus!
