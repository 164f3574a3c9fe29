use vstd::prelude::*;

verus! {

/// The quadrant at index `i`.
pub open spec fn child_at(i: int) -> Child {
    if i == 0 {
        Child::TopLeft
    } else if i == 1 {
        Child::TopRight
    } else if i == 2 {
        Child::BottomLeft
    } else {
        Child::BottomRight
    }
}

/// One of the four quadrants of a quad tree node.
#[derive(Copy, Clone, Debug, PartialEq, Eq, Structural)]
pub enum Child {
    TopLeft,
    TopRight,
    BottomLeft,
    BottomRight,
}

impl Child {
    /// Position of the quadrant in a node's array of children, in reading order.
    pub open spec fn spec_index(self) -> nat {
        match self {
            Child::TopLeft => 0,
            Child::TopRight => 1,
            Child::BottomLeft => 2,
            Child::BottomRight => 3,
        }
    }

    /// Whether the quadrant lies in the right half of its parent.
    pub open spec fn is_right(self) -> bool {
        self == Child::TopRight || self == Child::BottomRight
    }

    /// Whether the quadrant lies in the bottom half of its parent.
    pub open spec fn is_bottom(self) -> bool {
        self == Child::BottomLeft || self == Child::BottomRight
    }

    pub fn index(self) -> (r: usize)
        ensures
            r == self.spec_index(),
    {
        match self {
            Child::TopLeft => 0,
            Child::TopRight => 1,
            Child::BottomLeft => 2,
            Child::BottomRight => 3,
        }
    }

    /// All four quadrants, each at its own index.
    pub fn values() -> (r: [Child; 4])
        ensures
            forall|i: int| 0 <= i < 4 ==> (#[trigger] r@[i]).spec_index() == i,
            forall|i: int| 0 <= i < 4 ==> #[trigger] r@[i] == child_at(i),
    {
        [Child::TopLeft, Child::TopRight, Child::BottomLeft, Child::BottomRight]
    }
}

/// A node of a quad tree: its content and either no children or exactly four.
pub struct QuadTree<T> {
    pub content: T,
    pub children: Option<Box<[QuadTree<T>; 4]>>,
}

impl<T> QuadTree<T> {
    pub fn new(content: T) -> (r: QuadTree<T>)
        ensures
            r.content == content,
            r.children is None,
    {
        QuadTree { children: None, content }
    }

    pub fn has_children(&self) -> (r: bool)
        ensures
            r == self.children is Some,
    {
        self.children.is_some()
    }
}

} // verus!
