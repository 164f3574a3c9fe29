use vstd::prelude::*;

verus! {

/// Vertices along each side of a patch: a power of two plus one, so that neighbouring patches
/// share their edge vertices.
pub const VERTICES_PER_PATCH: usize = 33;

/// Normals per vertex along each side of a patch: a power of two, at least two.
pub const NORMALS_RESOLUTION: usize = 2;

/// Normals along each side of a patch.
pub const NORMALS_PER_PATCH: usize = VERTICES_PER_PATCH * NORMALS_RESOLUTION;

/// Patches that can be resident at once.
pub const MAX_PATCH_COUNT: usize = 2048;

/// Contributions a frame can draw: the size of the instance and command buffers. Each resident
/// node contributes at most its four quadrants.
pub const MAX_DRAW_COUNT: usize = 8192;

/// Grid cells along each side of one quadrant of a patch.
pub const QUADRANT_CELLS: usize = 16;

/// Indices of one quadrant of the shared index buffer: two triangles per cell.
pub const QUADRANT_INDICES: usize = 1536;

} // verus!
