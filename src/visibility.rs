//! The render set: the coarsest valid nodes that together cover the surface.

use vstd::prelude::*;
use crate::layer::LayerMask;
use crate::node::{
    MAX_QUADTREE_LEVEL, NUM_FACES, VNode, child_index, lemma_ancestor_at, lemma_ancestor_of_ancestor,
    lemma_ancestor_step, lemma_child_parent, lemma_parent_child, lemma_side_bounded,
};
use crate::priority::{Priority, spec_cutoff};
use crate::tile::{TileCache, entry_of};

verus! {

impl TileCache {
    /// `n` itself qualifies: resident, above the cutoff (or a root), and every layer of
    /// `mask` is valid.
    pub open spec fn locally_visible(&self, n: VNode, mask: LayerMask) -> bool {
        let e = entry_of(self.levels@[n.level as int], n);
        &&& n.wf()
        &&& self.resident(n)
        &&& (n.level == 0 || e.priority.key > spec_cutoff().key)
        &&& mask.bits & !e.valid.bits == 0
    }

    /// `n` is tentatively visible: it and all its ancestors qualify.
    pub open spec fn tentatively_visible(&self, n: VNode, mask: LayerMask) -> bool
        decreases n.level,
    {
        self.locally_visible(n, mask) && (n.level == 0 || self.tentatively_visible(n.spec_parent(), mask))
    }

    /// The children of `n` that are not tentatively visible, one bit each; all four bits
    /// at the deepest level.
    pub open spec fn uncovered_children(&self, n: VNode, mask: LayerMask) -> u8 {
        if n.level >= MAX_QUADTREE_LEVEL {
            15
        } else {
            ((if self.tentatively_visible(n.spec_child(0), mask) { 0u8 } else { 1u8 })
                + (if self.tentatively_visible(n.spec_child(1), mask) { 0u8 } else { 2u8 })
                + (if self.tentatively_visible(n.spec_child(2), mask) { 0u8 } else { 4u8 })
                + (if self.tentatively_visible(n.spec_child(3), mask) { 0u8 } else { 8u8 })) as u8
        }
    }

    /// `(n, m)` belongs to the render set for `mask`: `n` is tentatively visible and `m`,
    /// the part of it that no visible child covers, is not empty.
    pub open spec fn emitted(&self, n: VNode, m: u8, mask: LayerMask) -> bool {
        &&& self.tentatively_visible(n, mask)
        &&& m == self.uncovered_children(n, mask)
        &&& m > 0
    }

    /// Whether `n` qualifies by itself.
    fn qualifies(&self, n: VNode, mask: LayerMask) -> (r: bool)
        requires
            self.wf(),
            n.wf(),
        ensures
            r == self.locally_visible(n, mask),
    {
        match self.levels[n.level as usize].slot_of(n) {
            Some(i) => {
                let e = &self.levels[n.level as usize].slots[i];
                proof {
                    let c = self.levels@[n.level as int];
                    let j = choose|j: int| 0 <= j < c.slots.len() && #[trigger] c.slots@[j].node == n;
                    assert(c.slots@[j].node == c.slots@[i as int].node);
                }
                (n.level == 0 || e.priority.key > Priority::cutoff().key) && mask.bits & !e.valid.bits == 0
            },
            None => false,
        }
    }

    /// Emits the render pairs of the subtree under the tentatively visible node `n`.
    fn collect_visible(&self, n: VNode, mask: LayerMask, out: &mut Vec<(VNode, u8)>)
        requires
            self.wf(),
            n.wf(),
            self.tentatively_visible(n, mask),
            forall|k: int| 0 <= k < old(out).len() ==> self.emitted((#[trigger] old(out)@[k]).0, old(out)@[k].1, mask),
            distinct_nodes(old(out)@),
            forall|k: int| 0 <= k < old(out).len() ==> !below((#[trigger] old(out)@[k]).0, n),
        ensures
            forall|k: int| 0 <= k < final(out).len() ==> self.emitted((#[trigger] final(out)@[k]).0, final(out)@[k].1, mask),
            distinct_nodes(final(out)@),
            forall|k: int| old(out).len() <= k < final(out).len() ==> below((#[trigger] final(out)@[k]).0, n),
            final(out).len() >= old(out).len(),
            forall|k: int| 0 <= k < old(out).len() ==> #[trigger] final(out)@[k] == old(out)@[k],
            forall|d: VNode| below(d, n) && #[trigger] self.emitted(d, self.uncovered_children(d, mask), mask) ==> exists|k: int|
                0 <= k < final(out).len() && #[trigger] final(out)@[k] == (d, self.uncovered_children(d, mask)),
        decreases MAX_QUADTREE_LEVEL - n.level,
    {
        proof {
            assert(n.spec_ancestor_at(n.level as nat) == n);
            assert(below(n, n));
        }
        if n.level >= MAX_QUADTREE_LEVEL {
            out.push((n, 15));
            proof {
                assert forall|a: int, b: int|
                    0 <= a < out.len() && 0 <= b < out.len() && a != b implies #[trigger] out@[a].0 != #[trigger] out@[b].0 by {
                    if a < out.len() - 1 && b < out.len() - 1 {
                        assert(out@[a] == old(out)@[a] && out@[b] == old(out)@[b]);
                    } else if a < out.len() - 1 {
                        assert(out@[a] == old(out)@[a]);
                    } else {
                        assert(out@[b] == old(out)@[b]);
                    }
                }
                assert forall|d: VNode| below(d, n) && #[trigger] self.emitted(d, self.uncovered_children(d, mask), mask) implies exists|k: int|
                    0 <= k < out.len() && #[trigger] out@[k] == (d, self.uncovered_children(d, mask)) by {
                    assert(d.level == n.level);
                    assert(d.spec_ancestor_at(n.level as nat) == d);
                    assert(out@[out.len() - 1] == (d, self.uncovered_children(d, mask)));
                }
            }
            return;
        }
        let children = n.children();
        let mut visible: [bool; 4] = [false; 4];
        let mut m: u8 = 0;
        let mut j: usize = 0;
        while j < 4
            invariant
                self.wf(),
                n.wf(),
                n.level < MAX_QUADTREE_LEVEL,
                self.tentatively_visible(n, mask),
                0 <= j <= 4,
                forall|a: int| 0 <= a < 4 ==> children[a] == n.spec_child(a as nat) && children[a].wf(),
                forall|a: int| 0 <= a < j ==> visible[a] == self.tentatively_visible(n.spec_child(a as nat), mask),
                m == (if j > 0 && !visible[0] { 1u8 } else { 0u8 }) + (if j > 1 && !visible[1] { 2u8 } else { 0u8 })
                    + (if j > 2 && !visible[2] { 4u8 } else { 0u8 }) + (if j > 3 && !visible[3] { 8u8 } else { 0u8 }),
            decreases 4 - j,
        {
            let c = children[j];
            let v = self.qualifies(c, mask);
            proof {
                lemma_child_parent(n, j as nat);
            }
            visible[j] = v;
            if !v {
                m = m + if j == 0 { 1u8 } else if j == 1 { 2u8 } else if j == 2 { 4u8 } else { 8u8 };
            }
            j = j + 1;
        }
        proof {
            assert(m == self.uncovered_children(n, mask));
        }
        let ghost start = out@;
        if m > 0 {
            out.push((n, m));
            proof {
                assert(out@[out.len() - 1] == (n, m));
                assert forall|a: int, b: int|
                    0 <= a < out.len() && 0 <= b < out.len() && a != b implies #[trigger] out@[a].0 != #[trigger] out@[b].0 by {
                    if a < out.len() - 1 && b < out.len() - 1 {
                        assert(out@[a] == old(out)@[a] && out@[b] == old(out)@[b]);
                    } else if a < out.len() - 1 {
                        assert(out@[a] == old(out)@[a]);
                    } else {
                        assert(out@[b] == old(out)@[b]);
                    }
                }
            }
        }
        proof {
            assert(n.spec_ancestor_at(n.level as nat) == n);
        }
        let mut j: usize = 0;
        while j < 4
            invariant
                self.wf(),
                n.wf(),
                n.level < MAX_QUADTREE_LEVEL,
                self.tentatively_visible(n, mask),
                0 <= j <= 4,
                m == self.uncovered_children(n, mask),
                forall|a: int| 0 <= a < 4 ==> children[a] == n.spec_child(a as nat) && children[a].wf(),
                forall|a: int| 0 <= a < 4 ==> visible[a] == self.tentatively_visible(n.spec_child(a as nat), mask),
                forall|k: int| 0 <= k < out.len() ==> self.emitted((#[trigger] out@[k]).0, out@[k].1, mask),
                out.len() >= start.len(),
                forall|k: int| 0 <= k < start.len() ==> #[trigger] out@[k] == start[k],
                start == old(out)@,
                distinct_nodes(out@),
                forall|k: int| 0 <= k < start.len() ==> !below((#[trigger] start[k]).0, n),
                forall|k: int| start.len() <= k < out.len() ==> below((#[trigger] out@[k]).0, n) && ((out@[k]).0 == n
                    || ((out@[k]).0.level > n.level && child_index((out@[k]).0.spec_ancestor_at(n.level as nat + 1)) < j)),
                m > 0 ==> exists|k: int| 0 <= k < out.len() && #[trigger] out@[k] == (n, m),
                forall|d: VNode|
                    below(d, n) && d.level > n.level && child_index(d.spec_ancestor_at(n.level as nat + 1)) < j
                        && #[trigger] self.emitted(d, self.uncovered_children(d, mask), mask) ==> exists|k: int|
                        0 <= k < out.len() && #[trigger] out@[k] == (d, self.uncovered_children(d, mask)),
            decreases 4 - j,
        {
            let ghost before = out@;
            proof {
                lemma_child_parent(n, j as nat);
                lemma_child_index(n, j as nat);
                assert forall|k: int| 0 <= k < out.len() implies !below((#[trigger] out@[k]).0, children[j as int]) by {
                    let x = out@[k].0;
                    if below(x, children[j as int]) {
                        lemma_below_child(x, n, j as nat);
                        if k < start.len() {
                            assert(out@[k] == start[k]);
                        } else if x == n {
                        } else {
                            assert(x.spec_ancestor_at(n.level as nat + 1) == n.spec_child(j as nat));
                        }
                    }
                }
            }
            if visible[j] {
                self.collect_visible(children[j], mask, out);
            }
            proof {
                assert forall|k: int| start.len() <= k < out.len() implies below((#[trigger] out@[k]).0, n) && ((out@[k]).0 == n
                    || ((out@[k]).0.level > n.level && child_index((out@[k]).0.spec_ancestor_at(n.level as nat + 1)) < j + 1)) by {
                    if k < before.len() {
                        assert(out@[k] == before[k]);
                    } else {
                        lemma_below_child(out@[k].0, n, j as nat);
                    }
                }
                if m > 0 {
                    let k0 = choose|k: int| 0 <= k < before.len() && #[trigger] before[k] == (n, m);
                    assert(out@[k0] == (n, m));
                }
                assert forall|d: VNode|
                    below(d, n) && d.level > n.level && child_index(d.spec_ancestor_at(n.level as nat + 1)) < j + 1
                        && #[trigger] self.emitted(d, self.uncovered_children(d, mask), mask) implies exists|k: int|
                        0 <= k < out.len() && #[trigger] out@[k] == (d, self.uncovered_children(d, mask)) by {
                    let c = d.spec_ancestor_at(n.level as nat + 1);
                    lemma_ancestor_step(d, n.level as nat);
                    lemma_ancestor_at(d, n.level as nat + 1);
                    if child_index(c) < j {
                        let k0 = choose|k: int| 0 <= k < before.len() && #[trigger] before[k] == (d, self.uncovered_children(d, mask));
                        assert(out@[k0] == before[k0]);
                    } else {
                        assert(child_index(c) == j);
                        assert(n.spec_child(j as nat) == c);
                        self.lemma_visible_ancestor(d, n.level as nat + 1, mask);
                        lemma_ancestor_of_ancestor(d, n.level as nat + 1, n.level as nat + 1);
                        assert(below(d, c));
                    }
                }
            }
            j = j + 1;
        }
        proof {
            assert forall|k: int| old(out).len() <= k < out.len() implies below((#[trigger] out@[k]).0, n) by {}
            assert forall|d: VNode| below(d, n) && #[trigger] self.emitted(d, self.uncovered_children(d, mask), mask) implies exists|k: int|
                0 <= k < out.len() && #[trigger] out@[k] == (d, self.uncovered_children(d, mask)) by {
                if d.level == n.level {
                    assert(d.spec_ancestor_at(n.level as nat) == d);
                } else {
                    lemma_ancestor_step(d, n.level as nat);
                }
            }
        }
    }

    /// The render set for `mask`: every node that is tentatively visible (it and its
    /// ancestors resident, worth holding or a root, and holding every layer of `mask`)
    /// with the part of it that its visible children leave uncovered, where that part
    /// is not empty.
    pub fn compute_visible(&self, mask: LayerMask) -> (r: Vec<(VNode, u8)>)
        requires
            self.wf(),
        ensures
            forall|k: int| 0 <= k < r.len() ==> self.emitted((#[trigger] r@[k]).0, r@[k].1, mask),
            forall|d: VNode| d.wf() && #[trigger] self.emitted(d, self.uncovered_children(d, mask), mask) ==> exists|k: int|
                0 <= k < r.len() && #[trigger] r@[k] == (d, self.uncovered_children(d, mask)),
            distinct_nodes(r@),
    {
        let mut out: Vec<(VNode, u8)> = Vec::new();
        let mut face: u8 = 0;
        while face < NUM_FACES
            invariant
                self.wf(),
                face <= NUM_FACES,
                forall|k: int| 0 <= k < out.len() ==> self.emitted((#[trigger] out@[k]).0, out@[k].1, mask),
                forall|d: VNode| d.wf() && d.face < face && #[trigger] self.emitted(d, self.uncovered_children(d, mask), mask) ==> exists|k: int|
                    0 <= k < out.len() && #[trigger] out@[k] == (d, self.uncovered_children(d, mask)),
                distinct_nodes(out@),
                forall|k: int| 0 <= k < out.len() ==> (#[trigger] out@[k]).0.face < face,
            decreases NUM_FACES - face,
        {
            let root = VNode::root(face);
            let ghost before = out@;
            proof {
                assert forall|k: int| 0 <= k < out.len() implies !below((#[trigger] out@[k]).0, root) by {
                    if below(out@[k].0, root) {
                        lemma_ancestor_at(out@[k].0, 0);
                    }
                }
            }
            if self.qualifies(root, mask) {
                self.collect_visible(root, mask, &mut out);
            }
            proof {
                assert forall|k: int| 0 <= k < out.len() implies (#[trigger] out@[k]).0.face < face + 1 by {
                    if k < before.len() {
                        assert(out@[k] == before[k]);
                    } else {
                        lemma_ancestor_at(out@[k].0, 0);
                    }
                }
                assert forall|d: VNode| d.wf() && d.face < face + 1 && #[trigger] self.emitted(d, self.uncovered_children(d, mask), mask) implies exists|k: int|
                    0 <= k < out.len() && #[trigger] out@[k] == (d, self.uncovered_children(d, mask)) by {
                    lemma_ancestor_at(d, 0);
                    if d.face < face {
                        let k0 = choose|k: int| 0 <= k < before.len() && #[trigger] before[k] == (d, self.uncovered_children(d, mask));
                        assert(out@[k0] == before[k0]);
                    } else {
                        self.lemma_visible_ancestor(d, 0, mask);
                        assert(d.spec_ancestor_at(0) == root);
                        assert(below(d, root));
                    }
                }
            }
            face = face + 1;
        }
        out
    }
}

/// `d` lies in the subtree under `n`.
pub open spec fn below(d: VNode, n: VNode) -> bool {
    &&& d.wf()
    &&& n.level <= d.level
    &&& d.spec_ancestor_at(n.level as nat) == n
}

/// No two pairs of `s` are for the same node.
pub open spec fn distinct_nodes(s: Seq<(VNode, u8)>) -> bool {
    forall|a: int, b: int| 0 <= a < s.len() && 0 <= b < s.len() && a != b ==> #[trigger] s[a].0 != #[trigger] s[b].0
}

/// A child sits at its own index among its parent's children.
pub proof fn lemma_child_index(n: VNode, j: nat)
    requires
        n.wf(),
        j < 4,
    ensures
        child_index(n.spec_child(j)) == j,
{
    lemma_side_bounded(n.level as nat);
    let c = n.spec_child(j);
    assert((2 * n.x + j % 2) % 2 == j % 2);
    assert((2 * n.y + j / 2) % 2 == j / 2);
    assert(c.x == (2 * n.x + j % 2) as u32);
}

/// What lies under a child of `n` lies under `n`, on that child's side.
pub proof fn lemma_below_child(x: VNode, n: VNode, j: nat)
    requires
        n.wf(),
        n.level < MAX_QUADTREE_LEVEL,
        j < 4,
        below(x, n.spec_child(j)),
    ensures
        below(x, n),
        x.level > n.level,
        x.spec_ancestor_at(n.level as nat + 1) == n.spec_child(j),
{
    let c = n.spec_child(j);
    lemma_child_parent(n, j);
    lemma_ancestor_of_ancestor(x, c.level as nat, n.level as nat);
    assert(c.spec_ancestor_at(n.level as nat) == c.spec_parent().spec_ancestor_at(n.level as nat));
    assert(n.spec_ancestor_at(n.level as nat) == n);
}

/// `(n, m)` covers the deepest-level cell `q`: `n` is an ancestor-or-self of `q`, and
/// either `n` is at the deepest level or the bit of `m` for the child of `n` on the way
/// to `q` is set.
pub open spec fn covers(n: VNode, m: u8, q: VNode) -> bool {
    &&& n.level <= q.level
    &&& q.spec_ancestor_at(n.level as nat) == n
    &&& n.level >= MAX_QUADTREE_LEVEL || m & (1u8 << (child_index(q.spec_ancestor_at(n.level as nat + 1)) as u8)) != 0
}

impl TileCache {
    /// Tentative visibility reaches every ancestor.
    pub proof fn lemma_visible_ancestor(&self, n: VNode, k: nat, mask: LayerMask)
        requires
            n.wf(),
            self.tentatively_visible(n, mask),
            k <= n.level,
        ensures
            self.tentatively_visible(n.spec_ancestor_at(k), mask),
        decreases n.level,
    {
        if n.level as nat > k {
            lemma_parent_child(n);
            self.lemma_visible_ancestor(n.spec_parent(), k, mask);
        }
    }

    /// Bit `j` of the uncovered mask is set exactly when child `j` is not visible.
    pub proof fn lemma_uncovered_bit(&self, n: VNode, j: nat, mask: LayerMask)
        requires
            n.level < MAX_QUADTREE_LEVEL,
            j < 4,
        ensures
            (self.uncovered_children(n, mask) & (1u8 << (j as u8)) != 0) == !self.tentatively_visible(n.spec_child(j), mask),
    {
        let a0: u8 = if self.tentatively_visible(n.spec_child(0), mask) { 0u8 } else { 1u8 };
        let a1: u8 = if self.tentatively_visible(n.spec_child(1), mask) { 0u8 } else { 2u8 };
        let a2: u8 = if self.tentatively_visible(n.spec_child(2), mask) { 0u8 } else { 4u8 };
        let a3: u8 = if self.tentatively_visible(n.spec_child(3), mask) { 0u8 } else { 8u8 };
        let u = self.uncovered_children(n, mask);
        assert(u == ((a0 + a1 + a2 + a3) as u8));
        let jj = j as u8;
        assert((a0 == 0 || a0 == 1) && (a1 == 0 || a1 == 2) && (a2 == 0 || a2 == 4) && (a3 == 0 || a3 == 8) && jj < 4
            ==> ((((a0 + a1 + a2 + a3) as u8) & (1u8 << jj) != 0) == (if jj == 0 { a0 != 0 } else if jj == 1 { a1 != 0 } else if jj == 2 { a2 != 0 } else { a3 != 0 }))) by (bit_vector);
    }

    /// Starting from a visible ancestor of `q` at level `level`, some emitted pair covers `q`.
    proof fn lemma_cover_from(&self, mask: LayerMask, q: VNode, level: nat)
        requires
            q.wf(),
            q.level == MAX_QUADTREE_LEVEL,
            level <= q.level,
            self.tentatively_visible(q.spec_ancestor_at(level), mask),
        ensures
            exists|n: VNode| #[trigger] self.emitted(n, self.uncovered_children(n, mask), mask) && covers(n, self.uncovered_children(n, mask), q),
        decreases MAX_QUADTREE_LEVEL - level,
    {
        let a = q.spec_ancestor_at(level);
        lemma_ancestor_at(q, level);
        assert(a.spec_ancestor_at(level) == a);
        if level == MAX_QUADTREE_LEVEL {
            assert(self.uncovered_children(a, mask) == 15);
            assert(covers(a, self.uncovered_children(a, mask), q));
            assert(self.emitted(a, self.uncovered_children(a, mask), mask));
        } else {
            let c = q.spec_ancestor_at(level + 1);
            lemma_ancestor_step(q, level);
            if self.tentatively_visible(c, mask) {
                self.lemma_cover_from(mask, q, level + 1);
            } else {
                self.lemma_uncovered_bit(a, child_index(c), mask);
                let u = self.uncovered_children(a, mask);
                assert(u & (1u8 << (child_index(c) as u8)) != 0);
                let ci = child_index(c) as u8;
                assert(u & (1u8 << ci) != 0 ==> u > 0) by (bit_vector);
                assert(covers(a, u, q));
                assert(self.emitted(a, u, mask));
            }
        }
    }

    /// The render set partitions the surface: under a visible root, every cell of the
    /// deepest level is covered by exactly one pair of the render set.
    pub proof fn lemma_visible_partition(&self, mask: LayerMask, q: VNode)
        requires
            q.wf(),
            q.level == MAX_QUADTREE_LEVEL,
            self.tentatively_visible(q.spec_ancestor_at(0), mask),
        ensures
            exists|n: VNode| #[trigger] self.emitted(n, self.uncovered_children(n, mask), mask) && covers(n, self.uncovered_children(n, mask), q),
            forall|a: VNode, ma: u8, b: VNode, mb: u8|
                #[trigger] self.emitted(a, ma, mask) && covers(a, ma, q) && #[trigger] self.emitted(b, mb, mask) && covers(b, mb, q)
                    ==> a == b && ma == mb,
    {
        self.lemma_cover_from(mask, q, 0);
        assert forall|a: VNode, ma: u8, b: VNode, mb: u8|
            #[trigger] self.emitted(a, ma, mask) && covers(a, ma, q) && #[trigger] self.emitted(b, mb, mask) && covers(b, mb, q)
                implies a == b && ma == mb by {
            if a.level < b.level {
                self.lemma_no_cover_above(mask, q, a, ma, b);
            } else if b.level < a.level {
                self.lemma_no_cover_above(mask, q, b, mb, a);
            }
        }
    }

    /// Where a deeper node `b` on the way to `q` is visible, a shallower `a` does not cover `q`.
    proof fn lemma_no_cover_above(&self, mask: LayerMask, q: VNode, a: VNode, ma: u8, b: VNode)
        requires
            q.wf(),
            q.level == MAX_QUADTREE_LEVEL,
            self.emitted(a, ma, mask),
            self.tentatively_visible(b, mask),
            b.level <= q.level,
            q.spec_ancestor_at(b.level as nat) == b,
            a.level < b.level,
        ensures
            !covers(a, ma, q),
    {
        let l = a.level as nat;
        lemma_ancestor_at(q, b.level as nat);
        lemma_ancestor_step(q, l);
        let c = q.spec_ancestor_at(l + 1);
        lemma_ancestor_of_ancestor(q, b.level as nat, l + 1);
        self.lemma_visible_ancestor(b, l + 1, mask);
        assert(self.tentatively_visible(c, mask));
        self.lemma_uncovered_bit(a, child_index(c), mask);
    }
}

} // verus!
