//! Cells of the cube-sphere quadtree.

use vstd::prelude::*;

verus! {

/// Deepest level of the quadtree.
pub const MAX_QUADTREE_LEVEL: u8 = 22;

/// Number of cube faces, each the root of one quadtree.
pub const NUM_FACES: u8 = 6;

/// Number of cells along one side of a face at `level`.
pub open spec fn side(level: nat) -> nat
    decreases level,
{
    if level == 0 {
        1
    } else {
        2 * side((level - 1) as nat)
    }
}

pub proof fn lemma_side_bounded(level: nat)
    requires
        level <= MAX_QUADTREE_LEVEL,
    ensures
        1 <= side(level) <= 4194304,
{
    lemma_side_monotone(level, MAX_QUADTREE_LEVEL as nat);
    reveal_with_fuel(side, 23);
    assert(side(22) == 4194304);
}

pub proof fn lemma_side_monotone(a: nat, b: nat)
    requires
        a <= b,
    ensures
        1 <= side(a) <= side(b),
    decreases b,
{
    if a < b {
        lemma_side_monotone(a, (b - 1) as nat);
    } else if a > 0 {
        lemma_side_monotone((a - 1) as nat, (a - 1) as nat);
    }
}

/// A quadtree cell: a face, a level and coordinates within that level.
#[derive(Clone, Copy, Debug, PartialEq, Eq, Structural)]
pub struct VNode {
    pub face: u8,
    pub level: u8,
    pub x: u32,
    pub y: u32,
}

impl VNode {
    pub open spec fn spec_face(self) -> u8 {
        self.face
    }

    pub open spec fn spec_level(self) -> u8 {
        self.level
    }

    pub open spec fn spec_x(self) -> u32 {
        self.x
    }

    pub open spec fn spec_y(self) -> u32 {
        self.y
    }

    /// The cell lies inside its face.
    pub open spec fn wf(self) -> bool {
        &&& self.face < NUM_FACES
        &&& self.level <= MAX_QUADTREE_LEVEL
        &&& (self.x as nat) < side(self.level as nat)
        &&& (self.y as nat) < side(self.level as nat)
    }

    pub open spec fn spec_parent(self) -> VNode {
        VNode { face: self.face, level: (self.level - 1) as u8, x: self.x / 2, y: self.y / 2 }
    }

    /// Child `i`: bit 0 of `i` picks the column, bit 1 the row.
    pub open spec fn spec_child(self, i: nat) -> VNode {
        VNode {
            face: self.face,
            level: (self.level + 1) as u8,
            x: (2 * self.x + i % 2) as u32,
            y: (2 * self.y + i / 2) as u32,
        }
    }

    /// The ancestor (or the node itself) at `level`, if `level` is not deeper than the node.
    pub open spec fn spec_ancestor_at(self, level: nat) -> VNode
        decreases self.level,
    {
        if self.level as nat <= level || self.level == 0 {
            self
        } else {
            self.spec_parent().spec_ancestor_at(level)
        }
    }

    /// Builds the cell at `(face, level, x, y)`; `None` where it lies outside the face.
    pub fn new(face: u8, level: u8, x: u32, y: u32) -> (r: Option<VNode>)
        ensures
            r matches Some(n) ==> n.wf() && n.face == face && n.level == level && n.x == x
                && n.y == y,
            r is None <==> !(VNode { face, level, x, y }).wf(),
    {
        if face >= NUM_FACES || level > MAX_QUADTREE_LEVEL {
            return None;
        }
        let s = side_len(level);
        if x < s && y < s {
            Some(VNode { face, level, x, y })
        } else {
            None
        }
    }

    /// The root cell of `face`.
    pub fn root(face: u8) -> (r: VNode)
        requires
            face < NUM_FACES,
        ensures
            r.wf(),
            r.face == face && r.level == 0 && r.x == 0 && r.y == 0,
    {
        proof {
            reveal_with_fuel(side, 1);
        }
        VNode { face, level: 0, x: 0, y: 0 }
    }

    pub fn face(&self) -> (r: u8)
        ensures
            r == self.face,
    {
        self.face
    }

    pub fn level(&self) -> (r: u8)
        ensures
            r == self.level,
    {
        self.level
    }

    pub fn x(&self) -> (r: u32)
        ensures
            r == self.x,
    {
        self.x
    }

    pub fn y(&self) -> (r: u32)
        ensures
            r == self.y,
    {
        self.y
    }

    /// The enclosing cell one level up, with the index of `self` among its children;
    /// `None` at a root.
    pub fn parent(&self) -> (r: Option<(VNode, u8)>)
        requires
            self.wf(),
        ensures
            self.level == 0 <==> r is None,
            r matches Some(p) ==> p.0 == self.spec_parent() && p.0.wf() && p.1 < 4
                && p.0.spec_child(p.1 as nat) == *self,
    {
        if self.level == 0 {
            None
        } else {
            let p = VNode { face: self.face, level: self.level - 1, x: self.x / 2, y: self.y / 2 };
            let i: u8 = ((self.x % 2) + 2 * (self.y % 2)) as u8;
            proof {
                assert(side(self.level as nat) == 2 * side((self.level - 1) as nat));
            }
            Some((p, i))
        }
    }

    /// The four cells one level down.
    pub fn children(&self) -> (r: [VNode; 4])
        requires
            self.wf(),
            self.level < MAX_QUADTREE_LEVEL,
        ensures
            forall|i: int| 0 <= i < 4 ==> r[i] == self.spec_child(i as nat) && r[i].wf(),
    {
        proof {
            lemma_side_bounded(self.level as nat);
            assert(side(self.level as nat + 1) == 2 * side(self.level as nat));
        }
        let x = self.x;
        let y = self.y;
        let l = self.level + 1;
        [
            VNode { face: self.face, level: l, x: 2 * x, y: 2 * y },
            VNode { face: self.face, level: l, x: 2 * x + 1, y: 2 * y },
            VNode { face: self.face, level: l, x: 2 * x, y: 2 * y + 1 },
            VNode { face: self.face, level: l, x: 2 * x + 1, y: 2 * y + 1 },
        ]
    }

    /// The ancestor at `level`; the node itself where it is not deeper than `level`.
    pub fn find_ancestor(&self, level: u8) -> (r: VNode)
        requires
            self.wf(),
        ensures
            r == self.spec_ancestor_at(level as nat),
            r.wf(),
            self.level >= level ==> r.level == level,
            r.face == self.face,
    {
        let mut n = *self;
        while n.level > level
            invariant
                n.wf(),
                n.spec_ancestor_at(level as nat) == self.spec_ancestor_at(level as nat),
                self.level >= level ==> n.level >= level,
                n.face == self.face,
            decreases n.level,
        {
            let p = n.parent();
            n = p.unwrap().0;
        }
        n
    }
}

/// A child's parent is the node it was taken from.
pub proof fn lemma_child_parent(n: VNode, i: nat)
    requires
        n.wf(),
        n.level < MAX_QUADTREE_LEVEL,
        i < 4,
    ensures
        n.spec_child(i).spec_parent() == n,
        n.spec_child(i).wf(),
{
    lemma_side_bounded(n.level as nat);
    lemma_side_bounded(n.level as nat + 1);
    assert(side(n.level as nat + 1) == 2 * side(n.level as nat));
    let c = n.spec_child(i);
    assert(c.x == 2 * n.x + i % 2);
    assert(c.y == 2 * n.y + i / 2);
    assert(c.x / 2 == n.x);
    assert(c.y / 2 == n.y);
}

/// Position of `n` among its parent's children.
pub open spec fn child_index(n: VNode) -> nat {
    (n.x % 2 + 2 * (n.y % 2)) as nat
}

/// A node is the child of its parent at its own child index.
pub proof fn lemma_parent_child(n: VNode)
    requires
        n.wf(),
        n.level > 0,
    ensures
        n.spec_parent().wf(),
        n.spec_parent().spec_child(child_index(n)) == n,
        child_index(n) < 4,
{
    assert(side(n.level as nat) == 2 * side((n.level - 1) as nat));
}

/// The ancestor at `level` is well formed, at that level, on the same face.
pub proof fn lemma_ancestor_at(n: VNode, level: nat)
    requires
        n.wf(),
        level <= n.level,
    ensures
        n.spec_ancestor_at(level).wf(),
        n.spec_ancestor_at(level).level == level,
        n.spec_ancestor_at(level).face == n.face,
    decreases n.level,
{
    if n.level as nat > level {
        lemma_parent_child(n);
        lemma_ancestor_at(n.spec_parent(), level);
    }
}

/// Going up to `a` and then to `b` is going up to `b`.
pub proof fn lemma_ancestor_of_ancestor(n: VNode, a: nat, b: nat)
    requires
        n.wf(),
        b <= a <= n.level,
    ensures
        n.spec_ancestor_at(a).spec_ancestor_at(b) == n.spec_ancestor_at(b),
    decreases n.level,
{
    if n.level as nat > a {
        lemma_parent_child(n);
        lemma_ancestor_of_ancestor(n.spec_parent(), a, b);
    } else {
        assert(n.spec_ancestor_at(a) == n);
    }
}

/// The ancestor one level below `level` has the ancestor at `level` as parent.
pub proof fn lemma_ancestor_step(n: VNode, level: nat)
    requires
        n.wf(),
        level < n.level,
    ensures
        n.spec_ancestor_at(level + 1).spec_parent() == n.spec_ancestor_at(level),
        n.spec_ancestor_at(level).spec_child(child_index(n.spec_ancestor_at(level + 1))) == n.spec_ancestor_at(level + 1),
        child_index(n.spec_ancestor_at(level + 1)) < 4,
{
    let c = n.spec_ancestor_at(level + 1);
    lemma_ancestor_at(n, level + 1);
    lemma_ancestor_of_ancestor(n, level + 1, level);
    assert(c.level > 0);
    assert(c.spec_ancestor_at(level) == c.spec_parent().spec_ancestor_at(level));
    lemma_parent_child(c);
    assert(c.spec_parent().level == level);
    assert(c.spec_parent().spec_ancestor_at(level) == c.spec_parent());
}

/// Number of cells along one side of a face at `level`.
pub fn side_len(level: u8) -> (r: u32)
    requires
        level <= MAX_QUADTREE_LEVEL,
    ensures
        r as nat == side(level as nat),
{
    let mut s: u32 = 1;
    let mut l: u8 = 0;
    while l < level
        invariant
            l <= level <= MAX_QUADTREE_LEVEL,
            s as nat == side(l as nat),
        decreases level - l,
    {
        proof {
            lemma_side_bounded(l as nat + 1);
        }
        s = s * 2;
        l = l + 1;
    }
    s
}

} // verus!
