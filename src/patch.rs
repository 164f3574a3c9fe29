use vstd::prelude::*;
use vstd::arithmetic::power2::{pow2, lemma_pow2_unfold, lemma_pow2_strictly_increases, lemma_pow2_pos, lemma2_to64};
use crate::quad_tree::Child;

verus! {

proof fn lemma_pow2_62()
    ensures
        pow2(62) == 0x4000_0000_0000_0000,
{
    lemma2_to64();
    lemma_pow2_unfold(64);
    lemma_pow2_unfold(63);
}

/// The six faces of the cube that is inflated into the planet.
#[derive(Copy, Clone, Debug, PartialEq, Eq, Structural)]
pub enum Face {
    Left,
    Right,
    Top,
    Bottom,
    Front,
    Back,
}

impl Face {
    /// The fixed number of each face.
    pub open spec fn spec_index(self) -> nat {
        match self {
            Face::Left => 0,
            Face::Right => 1,
            Face::Top => 2,
            Face::Bottom => 3,
            Face::Front => 4,
            Face::Back => 5,
        }
    }

    pub fn index(self) -> (r: usize)
        ensures
            r == self.spec_index(),
    {
        match self {
            Face::Left => 0,
            Face::Right => 1,
            Face::Top => 2,
            Face::Bottom => 3,
            Face::Front => 4,
            Face::Back => 5,
        }
    }

    /// All six faces, each at its own number.
    pub fn values() -> (r: [Face; 6])
        ensures
            forall|i: int| 0 <= i < 6 ==> (#[trigger] r@[i]).spec_index() == i,
    {
        [Face::Left, Face::Right, Face::Top, Face::Bottom, Face::Front, Face::Back]
    }
}

/// Deepest level of detail a patch location can have.
pub const MAX_LOD_LEVEL: usize = 62;

/// A square part of a face. The face is cut into `2^lod_level` by `2^lod_level` cells; the
/// patch is the cell in column `x` and row `y`, so its offset from the face's top-left corner
/// is `(x, y) / 2^lod_level` and its size is `1 / 2^lod_level` of the face.
#[derive(Copy, Clone, Debug, PartialEq, Eq, Structural)]
pub struct PatchLocation {
    pub face: Face,
    pub x: u64,
    pub y: u64,
    pub lod_level: usize,
}

/// Cells of a face at resolution `m` (the face cut into `2^m` by `2^m` cells) that one cell at
/// level `lod` spans along each axis.
pub open spec fn span(lod: nat, m: nat) -> nat {
    pow2((m - lod) as nat)
}

impl PatchLocation {
    /// The level is at most `MAX_LOD_LEVEL` and the cell lies on the face.
    pub open spec fn valid(self) -> bool {
        self.lod_level <= MAX_LOD_LEVEL && self.x < pow2(self.lod_level as nat) && self.y < pow2(
            self.lod_level as nat,
        )
    }

    /// Whether the patch covers cell `(px, py)` of its face at resolution `m >= lod_level`.
    pub open spec fn covers(self, m: nat, px: int, py: int) -> bool {
        let s = span(self.lod_level as nat, m) as int;
        self.x * s <= px < (self.x + 1) * s && self.y * s <= py < (self.y + 1) * s
    }

    /// The quadrant `c` of this patch, one level deeper.
    pub open spec fn spec_split(self, c: Child) -> PatchLocation {
        PatchLocation {
            face: self.face,
            x: (2 * self.x + if c.is_right() { 1int } else { 0int }) as u64,
            y: (2 * self.y + if c.is_bottom() { 1int } else { 0int }) as u64,
            lod_level: (self.lod_level + 1) as usize,
        }
    }

    /// The whole face, at level zero.
    pub open spec fn spec_root(face: Face) -> PatchLocation {
        PatchLocation { face, x: 0, y: 0, lod_level: 0 }
    }

    pub fn root(face: Face) -> (r: PatchLocation)
        ensures
            r == PatchLocation::spec_root(face),
            r.valid(),
    {
        proof {
            lemma2_to64();
        }
        PatchLocation { face, x: 0, y: 0, lod_level: 0 }
    }

    pub fn split(&self, index: Child) -> (r: PatchLocation)
        requires
            self.valid(),
            self.lod_level < MAX_LOD_LEVEL,
        ensures
            r == self.spec_split(index),
            r.valid(),
    {
        proof {
            lemma_pow2_unfold((self.lod_level + 1) as nat);
            lemma_pow2_strictly_increases(self.lod_level as nat, 62);
            lemma_pow2_62();
        }
        let x = self.x * 2;
        let y = self.y * 2;
        let lod_level = self.lod_level + 1;
        match index {
            Child::TopLeft => PatchLocation { face: self.face, x, y, lod_level },
            Child::TopRight => PatchLocation { face: self.face, x: x + 1, y, lod_level },
            Child::BottomLeft => PatchLocation { face: self.face, x, y: y + 1, lod_level },
            Child::BottomRight => PatchLocation { face: self.face, x: x + 1, y: y + 1, lod_level },
        }
    }

    pub fn top_left(&self) -> (r: PatchLocation)
        requires
            self.valid(),
            self.lod_level < MAX_LOD_LEVEL,
        ensures
            r == self.spec_split(Child::TopLeft),
            r.valid(),
    {
        self.split(Child::TopLeft)
    }

    pub fn top_right(&self) -> (r: PatchLocation)
        requires
            self.valid(),
            self.lod_level < MAX_LOD_LEVEL,
        ensures
            r == self.spec_split(Child::TopRight),
            r.valid(),
    {
        self.split(Child::TopRight)
    }

    pub fn bottom_left(&self) -> (r: PatchLocation)
        requires
            self.valid(),
            self.lod_level < MAX_LOD_LEVEL,
        ensures
            r == self.spec_split(Child::BottomLeft),
            r.valid(),
    {
        self.split(Child::BottomLeft)
    }

    pub fn bottom_right(&self) -> (r: PatchLocation)
        requires
            self.valid(),
            self.lod_level < MAX_LOD_LEVEL,
        ensures
            r == self.spec_split(Child::BottomRight),
            r.valid(),
    {
        self.split(Child::BottomRight)
    }
}

/// The quadrants of a valid patch above the deepest level are valid.
pub proof fn lemma_split_valid(l: PatchLocation, c: Child)
    requires
        l.valid(),
        l.lod_level < MAX_LOD_LEVEL,
    ensures
        l.spec_split(c).valid(),
        l.spec_split(c).lod_level == l.lod_level + 1,
{
    lemma_pow2_unfold((l.lod_level + 1) as nat);
    lemma_pow2_strictly_increases(l.lod_level as nat, 62);
    lemma_pow2_62();
}

/// The root of a face is a valid location.
pub proof fn lemma_root_valid(face: Face)
    ensures
        PatchLocation::spec_root(face).valid(),
{
    lemma2_to64();
}

proof fn lemma_halves(a: int, h: int, p: int)
    requires
        h > 0,
    ensures
        (a * (2 * h) <= p < (a + 1) * (2 * h)) <==> ((2 * a) * h <= p < (2 * a + 1) * h || (2 * a
            + 1) * h <= p < (2 * a + 2) * h),
        !((2 * a) * h <= p < (2 * a + 1) * h && (2 * a + 1) * h <= p < (2 * a + 2) * h),
{
    assert(a * (2 * h) == (2 * a) * h && (a + 1) * (2 * h) == (2 * a + 2) * h && (2 * a + 1) * h
        == (2 * a) * h + h && (2 * a + 2) * h == (2 * a) * h + 2 * h) by (nonlinear_arith);
}

/// Splitting a patch gives four quadrants one level deeper, each half as wide, that cover
/// exactly the cells of the patch without overlapping one another.
pub proof fn lemma_split_partition(l: PatchLocation, m: nat, px: int, py: int)
    requires
        l.valid(),
        l.lod_level < MAX_LOD_LEVEL,
        m > l.lod_level,
    ensures
        forall|c: Child| (#[trigger] l.spec_split(c)).lod_level == l.lod_level + 1,
        forall|c: Child| (#[trigger] l.spec_split(c)).face == l.face,
        forall|c: Child|
            2 * span((#[trigger] l.spec_split(c)).lod_level as nat, m) == span(
                l.lod_level as nat,
                m,
            ),
        l.covers(m, px, py) <==> exists|c: Child| (#[trigger] l.spec_split(c)).covers(m, px, py),
        forall|c1: Child, c2: Child|
            (#[trigger] l.spec_split(c1)).covers(m, px, py) && (#[trigger] l.spec_split(
                c2,
            )).covers(m, px, py) ==> c1 == c2,
{
    let k = (m - l.lod_level - 1) as nat;
    let h = pow2(k) as int;
    lemma_pow2_pos(k);
    lemma_pow2_unfold((m - l.lod_level) as nat);
    assert(span(l.lod_level as nat, m) == 2 * h);
    lemma_pow2_unfold((l.lod_level + 1) as nat);
    lemma_pow2_strictly_increases(l.lod_level as nat, 62);
    lemma_pow2_62();
    assert forall|c: Child|
        2 * span((#[trigger] l.spec_split(c)).lod_level as nat, m) == span(
            l.lod_level as nat,
            m,
        ) by {
        assert((m - (l.lod_level + 1)) as nat == k);
    }
    lemma_halves(l.x as int, h, px);
    lemma_halves(l.y as int, h, py);
    assert forall|c: Child| #[trigger] l.spec_split(c).covers(m, px, py) <==> (
    (2 * l.x + if c.is_right() { 1int } else { 0int }) * h <= px < (2 * l.x + if c.is_right() {
        1int
    } else {
        0int
    } + 1) * h && (2 * l.y + if c.is_bottom() { 1int } else { 0int }) * h <= py < (2 * l.y
        + if c.is_bottom() { 1int } else { 0int } + 1) * h) by {
        assert((m - (l.lod_level + 1)) as nat == k);
    }
    if l.covers(m, px, py) {
        let right = (2 * l.x + 1) * h <= px;
        let bottom = (2 * l.y + 1) * h <= py;
        let c = if right {
            if bottom { Child::BottomRight } else { Child::TopRight }
        } else {
            if bottom { Child::BottomLeft } else { Child::TopLeft }
        };
        assert(l.spec_split(c).covers(m, px, py));
    }
}

} // verus!
