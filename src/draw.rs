use vstd::prelude::*;
use vstd::arithmetic::div_mod::lemma_fundamental_div_mod_converse;
use crate::constants::{
    MAX_DRAW_COUNT, MAX_PATCH_COUNT, NORMALS_PER_PATCH, QUADRANT_CELLS, QUADRANT_INDICES, VERTICES_PER_PATCH,
};
use crate::lod_select::{VisibleNode, VisibleNodePart};
use crate::quad_tree::Child;
use crate::node::NodeId;
use vstd::arithmetic::power2::{pow2, lemma_pow2_unfold, lemma_pow2_strictly_increases, lemma2_to64};

verus! {

/// The vertex that index `n` of the shared index buffer refers to. The buffer holds the four
/// quadrants of the patch grid in the order top-left, top-right, bottom-left, bottom-right;
/// within a quadrant the cells go row by row, and each cell `(x, y)` gives the triangles
/// `(x, y), (x, y + 1), (x + 1, y + 1)` and `(x, y), (x + 1, y + 1), (x + 1, y)`.
pub open spec fn index_value(n: int) -> int {
    let q = n / QUADRANT_INDICES as int;
    let cell = (n % QUADRANT_INDICES as int) / 6;
    let k = n % 6;
    let x = (q % 2) * QUADRANT_CELLS as int + cell % QUADRANT_CELLS as int + if k == 2 || k == 4
        || k == 5 {
        1int
    } else {
        0int
    };
    let y = (q / 2) * QUADRANT_CELLS as int + cell / QUADRANT_CELLS as int + if k == 1 || k == 2
        || k == 4 {
        1int
    } else {
        0int
    };
    x + y * VERTICES_PER_PATCH as int
}

proof fn lemma_index_value(q: int, cy: int, cx: int, k: int)
    requires
        0 <= q < 4,
        0 <= cy < 16,
        0 <= cx < 16,
        0 <= k < 6,
    ensures
        index_value(q * 1536 + (cy * 16 + cx) * 6 + k) == ((q % 2) * 16 + cx + if k == 2 || k == 4
            || k == 5 {
            1int
        } else {
            0int
        }) + ((q / 2) * 16 + cy + if k == 1 || k == 2 || k == 4 {
            1int
        } else {
            0int
        }) * 33,
{
    let n = q * 1536 + (cy * 16 + cx) * 6 + k;
    lemma_fundamental_div_mod_converse(n, 1536, q, (cy * 16 + cx) * 6 + k);
    lemma_fundamental_div_mod_converse((cy * 16 + cx) * 6 + k, 6, cy * 16 + cx, k);
    lemma_fundamental_div_mod_converse(n, 6, q * 256 + cy * 16 + cx, k);
    lemma_fundamental_div_mod_converse(cy * 16 + cx, 16, cy, cx);
}

/// Corner `k` of the two triangles of cell `(x, y)` of quadrant `q`.
fn cell_vertex(q: usize, y: usize, x: usize, k: usize) -> (r: u16)
    requires
        q < 4,
        y < 16,
        x < 16,
        k < 6,
    ensures
        r == index_value(q * 1536 + (y * 16 + x) * 6 + k),
{
    proof {
        lemma_index_value(q as int, y as int, x as int, k as int);
    }
    let dx: usize = if k == 2 || k == 4 || k == 5 {
        1
    } else {
        0
    };
    let dy: usize = if k == 1 || k == 2 || k == 4 {
        1
    } else {
        0
    };
    let vx = (q % 2) * QUADRANT_CELLS + x + dx;
    let vy = (q / 2) * QUADRANT_CELLS + y + dy;
    (vx + vy * VERTICES_PER_PATCH) as u16
}

/// Appends the two triangles of each cell of the quadrant `q`.
fn add_region(indices: &mut Vec<u16>, q: usize)
    requires
        q < 4,
        old(indices)@.len() == q * QUADRANT_INDICES,
        forall|j: int| 0 <= j < old(indices)@.len() ==> #[trigger] old(indices)@[j] == index_value(j),
    ensures
        final(indices)@.len() == (q + 1) * QUADRANT_INDICES,
        forall|j: int| 0 <= j < final(indices)@.len() ==> #[trigger] final(indices)@[j] == index_value(j),
{
    let mut y: usize = 0;
    while y < QUADRANT_CELLS
        invariant
            q < 4,
            0 <= y <= 16,
            indices@.len() == q * 1536 + y * 16 * 6,
            forall|j: int| 0 <= j < indices@.len() ==> #[trigger] indices@[j] == index_value(j),
        decreases 16 - y,
    {
        let mut x: usize = 0;
        while x < QUADRANT_CELLS
            invariant
                q < 4,
                0 <= y < 16,
                0 <= x <= 16,
                indices@.len() == q * 1536 + (y * 16 + x) * 6,
                forall|j: int| 0 <= j < indices@.len() ==> #[trigger] indices@[j] == index_value(j),
            decreases 16 - x,
        {
            let mut k: usize = 0;
            while k < 6
                invariant
                    q < 4,
                    0 <= y < 16,
                    0 <= x < 16,
                    0 <= k <= 6,
                    indices@.len() == q * 1536 + (y * 16 + x) * 6 + k,
                    forall|j: int| 0 <= j < indices@.len() ==> #[trigger] indices@[j] == index_value(j),
                decreases 6 - k,
            {
                let v = cell_vertex(q, y, x, k);
                indices.push(v);
                k = k + 1;
            }
            x = x + 1;
        }
        y = y + 1;
    }
}

/// The shared index buffer: two triangles for every cell of the patch grid, laid out in four
/// contiguous quadrants (top-left, top-right, bottom-left, bottom-right).
pub fn index_buffer() -> (r: Vec<u16>)
    ensures
        r@.len() == 4 * QUADRANT_INDICES,
        forall|j: int| 0 <= j < r@.len() ==> #[trigger] r@[j] == index_value(j),
{
    let mut indices: Vec<u16> = Vec::new();
    let mut q: usize = 0;
    while q < 4
        invariant
            0 <= q <= 4,
            indices@.len() == q * QUADRANT_INDICES,
            forall|j: int| 0 <= j < indices@.len() ==> #[trigger] indices@[j] == index_value(j),
        decreases 4 - q,
    {
        add_region(&mut indices, q);
        q = q + 1;
    }
    indices
}

/// An indexed indirect draw command.
#[derive(Copy, Clone, Debug, PartialEq, Eq, Structural)]
pub struct DrawCommandIndices {
    pub count: u32,
    pub instance_count: u32,
    pub first_index: u32,
    pub base_vertex: u32,
    pub base_instance: u32,
}

/// Number of indices of the shared index buffer.
pub const INDEX_COUNT: u32 = 6144;

/// The first index and the number of indices that draw `part` of a patch.
pub open spec fn spec_index_range(part: VisibleNodePart) -> (u32, u32) {
    match part {
        VisibleNodePart::Whole => (0, INDEX_COUNT),
        VisibleNodePart::Child(c) => ((c.spec_index() * (INDEX_COUNT / 4) as nat) as u32, INDEX_COUNT / 4),
    }
}

/// The first vertex of a slot in the shared vertex buffer.
pub open spec fn spec_base_vertex(id: NodeId) -> int {
    id.0 * (VERTICES_PER_PATCH * VERTICES_PER_PATCH) as int
}

/// The draw command for contribution `node`, drawn as instance `idx`.
pub open spec fn spec_draw_command(node: VisibleNode, idx: int) -> DrawCommandIndices {
    DrawCommandIndices {
        count: spec_index_range(node.part).1,
        instance_count: 1,
        first_index: spec_index_range(node.part).0,
        base_vertex: spec_base_vertex(node.node_id) as u32,
        base_instance: idx as u32,
    }
}

/// The first index and the number of indices that draw `part` of a patch.
pub fn index_range(part: VisibleNodePart) -> (r: (u32, u32))
    ensures
        r == spec_index_range(part),
{
    let index_count = INDEX_COUNT;
    match part {
        VisibleNodePart::Whole => (0, index_count),
        VisibleNodePart::Child(child) => match child {
            Child::TopLeft => (0, index_count / 4),
            Child::TopRight => (index_count / 4, index_count / 4),
            Child::BottomLeft => (index_count / 4 * 2, index_count / 4),
            Child::BottomRight => (index_count / 4 * 3, index_count / 4),
        },
    }
}

/// One draw command per contribution, in order: the contribution's part of the index buffer,
/// its slot's vertices, one instance whose data sits at the contribution's position.
pub fn draw_commands(visible_nodes: &Vec<VisibleNode>) -> (r: Vec<DrawCommandIndices>)
    requires
        visible_nodes@.len() <= MAX_DRAW_COUNT,
        forall|i: int| 0 <= i < visible_nodes@.len() ==> (#[trigger] visible_nodes@[i]).node_id.0 < MAX_PATCH_COUNT,
    ensures
        r@.len() == visible_nodes@.len(),
        forall|i: int| 0 <= i < r@.len() ==> #[trigger] r@[i] == spec_draw_command(visible_nodes@[i], i),
{
    let mut commands: Vec<DrawCommandIndices> = Vec::new();
    let mut idx: usize = 0;
    while idx < visible_nodes.len()
        invariant
            0 <= idx <= visible_nodes@.len(),
            visible_nodes@.len() <= MAX_DRAW_COUNT,
            forall|i: int| 0 <= i < visible_nodes@.len() ==> (#[trigger] visible_nodes@[i]).node_id.0 < MAX_PATCH_COUNT,
            commands@.len() == idx,
            forall|i: int| 0 <= i < idx ==> #[trigger] commands@[i] == spec_draw_command(visible_nodes@[i], i),
        decreases visible_nodes@.len() - idx,
    {
        let node = visible_nodes[idx];
        assert(node.node_id.0 < MAX_PATCH_COUNT);
        let (first_index, count) = index_range(node.part);
        commands.push(
            DrawCommandIndices {
                count,
                instance_count: 1,
                first_index,
                base_vertex: (node.node_id.0 * (VERTICES_PER_PATCH * VERTICES_PER_PATCH)) as u32,
                base_instance: idx as u32,
            },
        );
        idx = idx + 1;
    }
    commands
}

/// The distance below which the children of a level-`lod` node are wanted, for trees of
/// `max_lod_level + 1` split levels: halving from one level to the next, `2` at the deepest.
pub open spec fn spec_split_distance(max_lod_level: nat, lod: nat) -> nat {
    pow2((max_lod_level + 1 - lod) as nat)
}

/// Deepest level for which split distances can be made.
pub const MAX_SPLIT_LEVEL: usize = 56;

/// The split distances of levels `0..=max_lod_level`, coarsest level first.
pub fn split_distances(max_lod_level: usize) -> (r: Vec<u64>)
    requires
        max_lod_level <= MAX_SPLIT_LEVEL,
    ensures
        r@.len() == max_lod_level + 1,
        forall|i: int| 0 <= i < r@.len() ==> #[trigger] r@[i] == spec_split_distance(max_lod_level as nat, i as nat),
{
    let mut r: Vec<u64> = Vec::new();
    let mut value: u64 = 1;
    let mut k: usize = 0;
    proof {
        lemma2_to64();
    }
    while k <= max_lod_level
        invariant
            max_lod_level <= 56,
            0 <= k <= max_lod_level + 1,
            value == pow2(k as nat),
            k <= 57,
            r@.len() == 0,
        decreases max_lod_level + 1 - k,
    {
        proof {
            lemma2_to64();
            lemma_pow2_unfold(k as nat + 1);
            lemma_pow2_strictly_increases(k as nat + 1, 64);
        }
        value = value * 2;
        k = k + 1;
    }
    // `value` is now 2^(max_lod_level + 1): the distance of level zero.
    let mut lod: usize = 0;
    while lod <= max_lod_level
        invariant
            max_lod_level <= 56,
            0 <= lod <= max_lod_level + 1,
            value == pow2((max_lod_level + 1 - lod) as nat),
            r@.len() == lod,
            forall|i: int| 0 <= i < lod ==> #[trigger] r@[i] == spec_split_distance(max_lod_level as nat, i as nat),
        decreases max_lod_level + 1 - lod,
    {
        r.push(value);
        proof {
            lemma_pow2_unfold((max_lod_level + 1 - lod) as nat);
        }
        value = value / 2;
        lod = lod + 1;
    }
    r
}

/// Grid position `(x, y)` of vertex `i` of a patch, and the position it morphs to: the nearest
/// point whose both coordinates are even, which remains when the grid is halved.
pub open spec fn spec_morph_target_index(i: int) -> int {
    let v = VERTICES_PER_PATCH as int;
    let x = i % v;
    let y = i / v;
    (x - x % 2) + (y - y % 2) * v
}

/// The vertex that vertex `i` of a patch morphs to.
pub fn morph_target_index(i: usize) -> (r: usize)
    requires
        i < VERTICES_PER_PATCH * VERTICES_PER_PATCH,
    ensures
        r == spec_morph_target_index(i as int),
        r <= i,
{
    let x = i % VERTICES_PER_PATCH;
    let y = (i - x) / VERTICES_PER_PATCH;
    proof {
        lemma_fundamental_div_mod_converse(i as int, 33, y as int, x as int);
    }
    i - (x % 2) - ((y % 2) * VERTICES_PER_PATCH)
}

/// Where normal `i` of a patch goes in the half-resolution normal grid: only the normals whose
/// both grid coordinates are even are kept.
pub open spec fn spec_low_detail_normal_index(i: int) -> Option<int> {
    let n = NORMALS_PER_PATCH as int;
    let x = i % n;
    let y = i / n;
    if x % 2 == 0 && y % 2 == 0 {
        Some((y / 2) * (n / 2) + x / 2)
    } else {
        None
    }
}

/// Where normal `i` of a patch goes in the half-resolution normal grid, if it is kept there.
pub fn low_detail_normal_index(i: usize) -> (r: Option<usize>)
    requires
        i < NORMALS_PER_PATCH * NORMALS_PER_PATCH,
    ensures
        r matches Some(j) ==> spec_low_detail_normal_index(i as int) == Some(j as int) && j < (
        NORMALS_PER_PATCH / 2) * (NORMALS_PER_PATCH / 2),
        r is None <==> spec_low_detail_normal_index(i as int) is None,
{
    let x = i % NORMALS_PER_PATCH;
    let y = (i - x) / NORMALS_PER_PATCH;
    proof {
        lemma_fundamental_div_mod_converse(i as int, 66, y as int, x as int);
        assert(NORMALS_PER_PATCH == 66);
        assert(NORMALS_PER_PATCH * NORMALS_PER_PATCH == 4356) by (nonlinear_arith)
            requires
                NORMALS_PER_PATCH == 66,
        ;
        assert(y < 66) by (nonlinear_arith)
            requires
                i == y * 66 + x,
                i < 4356,
                x >= 0,
        ;
    }
    if x % 2 == 0 && y % 2 == 0 {
        Some((y / 2) * (NORMALS_PER_PATCH / 2) + (x / 2))
    } else {
        None
    }
}

/// How the triangles of the planet are rasterised.
#[derive(Copy, Clone, Debug, PartialEq, Eq, Structural)]
pub enum PolygonMode {
    /// Solid triangles
    Fill,
    /// Triangle edges only
    Line,
}

/// Options for drawing the planet.
#[derive(Copy, Clone, Debug, PartialEq, Eq, Structural)]
pub struct DrawParameters {
    pub wire_frame: bool,
}

impl Default for DrawParameters {
    fn default() -> (r: DrawParameters)
        ensures
            !r.wire_frame,
    {
        DrawParameters { wire_frame: false }
    }
}

impl DrawParameters {
    /// Edges only when drawing in wire frame, solid triangles otherwise.
    pub fn polygon_mode(&self) -> (r: PolygonMode)
        ensures
            r == (if self.wire_frame {
                PolygonMode::Line
            } else {
                PolygonMode::Fill
            }),
    {
        if self.wire_frame {
            PolygonMode::Line
        } else {
            PolygonMode::Fill
        }
    }
}

} // verus!
