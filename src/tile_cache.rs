//! One quadtree level's cache: a fixed number of slots, each holding the
//! entry of one resident node, replaced in batches by priority.

use vstd::prelude::*;
use vec_map::VecMap;
use crate::node::VNode;
use crate::priority::Priority;
use crate::layer::{GeneratorMask, LayerMask, NUM_LAYER_TYPES, layer_bit};
use crate::provenance::{empty_provenance, vec_map_contents, vec_map_get, vec_map_insert, vec_map_new};

verus! {

/// A CPU copy of a node's heightmap, with its extremes.
pub struct CpuHeightmap {
    pub min: i16,
    pub max: i16,
    pub heights: Vec<i16>,
}

/// One slot's payload.
pub struct Entry {
    /// How important this entry is for the current frame.
    pub priority: Priority,
    /// The node this entry is for.
    pub node: VNode,
    /// Layers whose data is current.
    pub valid: LayerMask,
    /// Layers with a streaming request outstanding.
    pub streaming: LayerMask,
    /// A CPU copy of the heightmap tile.
    pub heightmap: Option<CpuHeightmap>,
    /// Map from layer index to the generators that (perhaps indirectly) produced it.
    pub generators: VecMap<u64>,
}

/// `e` is the entry a node gets when it is admitted.
pub open spec fn is_fresh_entry(e: Entry, p: Priority, n: VNode) -> bool {
    &&& e.priority == p
    &&& e.node == n
    &&& e.valid.bits == 0
    &&& e.streaming.bits == 0
    &&& e.heightmap is None
    &&& vec_map_contents(e.generators) == empty_provenance()
}

/// Provenance `m` after the layers of `mask` below `upto` are stamped with generators `g`.
pub open spec fn stamped(m: Map<usize, u64>, mask: u32, g: u64, upto: nat) -> Map<usize, u64> {
    Map::new(
        |k: usize| m.contains_key(k) || (k < upto && mask & layer_bit(k as nat) != 0),
        |k: usize|
            if k < upto && mask & layer_bit(k as nat) != 0 {
                g
            } else {
                m[k]
            },
    )
}

/// Union of the generators recorded for the layers of `mask` below `upto`.
pub open spec fn dependencies(m: Map<usize, u64>, mask: u32, upto: nat) -> u64
    decreases upto,
{
    if upto == 0 {
        0
    } else {
        let j = (upto - 1) as nat;
        let rest = dependencies(m, mask, j);
        if mask & layer_bit(j) != 0 && m.contains_key(j as usize) {
            rest | m[j as usize]
        } else {
            rest
        }
    }
}

/// Generating the same outputs with the same provenance a second time changes nothing:
/// the valid bits and the recorded provenance are those after the first time.
pub proof fn lemma_generate_idempotent(valid: u32, m: Map<usize, u64>, outputs: u32, g: u64)
    ensures
        (valid | outputs) | outputs == valid | outputs,
        stamped(stamped(m, outputs, g, NUM_LAYER_TYPES as nat), outputs, g, NUM_LAYER_TYPES as nat)
            == stamped(m, outputs, g, NUM_LAYER_TYPES as nat),
{
    assert((valid | outputs) | outputs == valid | outputs) by (bit_vector);
    assert(stamped(stamped(m, outputs, g, NUM_LAYER_TYPES as nat), outputs, g, NUM_LAYER_TYPES as nat)
        =~= stamped(m, outputs, g, NUM_LAYER_TYPES as nat));
}

/// Layers below `upto` whose recorded provenance includes generator bit `g`.
pub open spec fn produced_by(m: Map<usize, u64>, g: u64, upto: nat) -> u32
    decreases upto,
{
    if upto == 0 {
        0
    } else {
        let j = (upto - 1) as nat;
        let rest = produced_by(m, g, j);
        if m.contains_key(j as usize) && m[j as usize] & g != 0 {
            rest | layer_bit(j)
        } else {
            rest
        }
    }
}

impl Entry {
    /// The layers whose recorded provenance includes generator bit `g`.
    pub fn layers_produced_by(&self, g: GeneratorMask) -> (r: LayerMask)
        ensures
            r.bits == produced_by(vec_map_contents(self.generators), g.bits, NUM_LAYER_TYPES as nat),
    {
        let mut bits: u32 = 0;
        let mut j: usize = 0;
        while j < NUM_LAYER_TYPES
            invariant
                0 <= j <= NUM_LAYER_TYPES,
                bits == produced_by(vec_map_contents(self.generators), g.bits, j as nat),
            decreases NUM_LAYER_TYPES - j,
        {
            match vec_map_get(&self.generators, j) {
                Some(v) => {
                    if v & g.bits != 0 {
                        bits = bits | (1u32 << (j as u32));
                    }
                },
                None => {},
            }
            j = j + 1;
        }
        LayerMask { bits }
    }
}

impl Entry {
    /// No layer is both current and being streamed.
    pub open spec fn masks_disjoint(&self) -> bool {
        self.valid.bits & self.streaming.bits == 0
    }

    /// Records that the layers of `outputs` were generated by the generators `g`: they
    /// become valid, and each is stamped with `g`.
    pub fn mark_generated(&mut self, outputs: LayerMask, g: GeneratorMask)
        ensures
            final(self).valid.bits == old(self).valid.bits | outputs.bits,
            final(self).streaming == old(self).streaming,
            final(self).node == old(self).node,
            final(self).priority == old(self).priority,
            final(self).heightmap == old(self).heightmap,
            vec_map_contents(final(self).generators) == stamped(
                vec_map_contents(old(self).generators),
                outputs.bits,
                g.bits,
                NUM_LAYER_TYPES as nat,
            ),
    {
        self.valid = LayerMask { bits: self.valid.bits | outputs.bits };
        let ghost m0 = vec_map_contents(self.generators);
        let mut j: usize = 0;
        while j < NUM_LAYER_TYPES
            invariant
                0 <= j <= NUM_LAYER_TYPES,
                m0 == vec_map_contents(old(self).generators),
                self.valid.bits == old(self).valid.bits | outputs.bits,
                self.streaming == old(self).streaming,
                self.node == old(self).node,
                self.priority == old(self).priority,
                self.heightmap == old(self).heightmap,
                vec_map_contents(self.generators) == stamped(m0, outputs.bits, g.bits, j as nat),
            decreases NUM_LAYER_TYPES - j,
        {
            if outputs.bits & (1u32 << (j as u32)) != 0 {
                vec_map_insert(&mut self.generators, j, g.bits);
            }
            proof {
                assert(vec_map_contents(self.generators) =~= stamped(m0, outputs.bits, g.bits, j as nat + 1));
            }
            j = j + 1;
        }
    }

    /// Union of the generators recorded for the layers of `mask`.
    pub fn generator_dependencies(&self, mask: LayerMask) -> (r: GeneratorMask)
        ensures
            r.bits == dependencies(vec_map_contents(self.generators), mask.bits, NUM_LAYER_TYPES as nat),
    {
        let mut bits: u64 = 0;
        let mut j: usize = 0;
        while j < NUM_LAYER_TYPES
            invariant
                0 <= j <= NUM_LAYER_TYPES,
                bits == dependencies(vec_map_contents(self.generators), mask.bits, j as nat),
            decreases NUM_LAYER_TYPES - j,
        {
            if mask.bits & (1u32 << (j as u32)) != 0 {
                match vec_map_get(&self.generators, j) {
                    Some(v) => {
                        bits = bits | v;
                    },
                    None => {},
                }
            }
            j = j + 1;
        }
        GeneratorMask { bits }
    }

    pub fn new(node: VNode, priority: Priority) -> (r: Entry)
        ensures
            is_fresh_entry(r, priority, node),
            r.masks_disjoint(),
    {
        proof {
            assert(0u32 & 0u32 == 0u32) by (bit_vector);
        }
        Entry {
            node,
            priority,
            valid: LayerMask::empty(),
            streaming: LayerMask::empty(),
            heightmap: None,
            generators: vec_map_new(),
        }
    }
}

pub open spec fn min_int(a: int, b: int) -> int {
    if a < b {
        a
    } else {
        b
    }
}

/// Slot `j` holds `e`, either as it was before a replacement pass over `o`, or as the
/// fresh entry of one of the candidates `m`.
pub open spec fn came_from(e: Entry, j: int, o: Seq<Entry>, m: Seq<(Priority, VNode)>) -> bool {
    (j < o.len() && e == o[j]) || exists|k: int|
        0 <= k < m.len() && is_fresh_entry(e, (#[trigger] m[k]).0, m[k].1)
}

pub open spec fn nodes_unique(s: Seq<Entry>) -> bool {
    forall|i: int, j: int|
        0 <= i < s.len() && 0 <= j < s.len() && i != j ==> #[trigger] s[i].node != #[trigger] s[j].node
}

pub open spec fn missing_unique(m: Seq<(Priority, VNode)>) -> bool {
    forall|i: int, j: int|
        0 <= i < m.len() && 0 <= j < m.len() && i != j ==> #[trigger] m[i].1 != #[trigger] m[j].1
}

pub open spec fn seq_holds(s: Seq<Entry>, n: VNode) -> bool {
    exists|i: int| 0 <= i < s.len() && #[trigger] s[i].node == n
}

pub open spec fn min_key(s: Seq<Entry>) -> u32
    decreases s.len(),
{
    if s.len() == 0 {
        u32::MAX
    } else {
        let rest = min_key(s.drop_last());
        if s.last().priority.key < rest {
            s.last().priority.key
        } else {
            rest
        }
    }
}

/// Whether `add_missing` records `e` in `c`.
pub open spec fn admits(c: TileCache, e: (Priority, VNode)) -> bool {
    &&& e.0.key >= crate::priority::spec_cutoff().key
    &&& !c.holds(e.1)
    &&& !(exists|k: int| 0 <= k < c.missing.len() && (#[trigger] c.missing@[k]).1 == e.1)
    &&& (e.0.key > c.min_priority.key || c.slots.len() < c.size)
}

/// `new` is `old` after a replacement pass: the recorded nodes are consumed, the level
/// holds as many entries as the capacity allows, each entry was resident before (in the
/// same slot) or is the fresh entry of a recorded node, survivors keep their slots, and
/// nothing that left or was turned away outranks anything resident.
pub open spec fn loaded(old: TileCache, new: TileCache) -> bool {
    &&& new.wf()
    &&& new.size == old.size
    &&& new.resolution == old.resolution
    &&& new.min_priority == old.min_priority
    &&& new.missing.len() == 0
    &&& new.slots.len() == min_int(old.size as int, old.slots.len() + old.missing.len())
    &&& forall|i: int|
        0 <= i < old.slots.len() && new.holds(#[trigger] old.slots@[i].node) ==> new.slots@[i]
            == old.slots@[i]
    &&& forall|j: int|
        0 <= j < new.slots.len() ==> came_from(#[trigger] new.slots@[j], j, old.slots@, old.missing@)
    &&& forall|i: int, j: int|
        0 <= i < old.slots.len() && 0 <= j < new.slots.len() && !new.holds(
            #[trigger] old.slots@[i].node,
        ) ==> old.slots@[i].priority.key <= (#[trigger] new.slots@[j]).priority.key
    &&& forall|k: int, j: int|
        0 <= k < old.missing.len() && 0 <= j < new.slots.len() && !new.holds(
            #[trigger] old.missing@[k].1,
        ) ==> old.missing@[k].0.key <= (#[trigger] new.slots@[j]).priority.key
}

/// After a replacement pass a level holds no more entries than its capacity, and no
/// node that left or was turned away has a priority above that of a resident entry.
pub proof fn lemma_replacement_respects_capacity(old: TileCache, new: TileCache)
    requires
        old.wf(),
        loaded(old, new),
    ensures
        new.slots.len() <= new.size,
        forall|i: int, j: int|
            0 <= i < old.slots.len() && 0 <= j < new.slots.len() && !new.holds(#[trigger] old.slots@[i].node)
                ==> old.slots@[i].priority.key <= (#[trigger] new.slots@[j]).priority.key,
        forall|k: int, j: int|
            0 <= k < old.missing.len() && 0 <= j < new.slots.len() && !new.holds(#[trigger] old.missing@[k].1)
                ==> old.missing@[k].0.key <= (#[trigger] new.slots@[j]).priority.key,
{
}

/// The slots of one level.
pub struct TileCache {
    /// Maximum number of slots.
    pub size: usize,
    /// The resident entries, one per slot.
    pub slots: Vec<Entry>,
    /// Nodes to admit at the next replacement pass.
    pub missing: Vec<(Priority, VNode)>,
    /// Smallest priority among the resident entries.
    pub min_priority: Priority,
    /// Samples per side of each tile.
    pub resolution: u32,
}

impl TileCache {
    pub open spec fn holds(&self, n: VNode) -> bool {
        seq_holds(self.slots@, n)
    }

    pub open spec fn wf(&self) -> bool {
        &&& self.slots.len() <= self.size
        &&& nodes_unique(self.slots@)
        &&& missing_unique(self.missing@)
        &&& forall|k: int| 0 <= k < self.missing.len() ==> !self.holds(#[trigger] self.missing@[k].1)
        &&& forall|i: int| 0 <= i < self.slots.len() ==> (#[trigger] self.slots@[i]).masks_disjoint()
    }

    pub fn new(cache_size: usize, resolution: u32) -> (r: TileCache)
        ensures
            r.wf(),
            r.size == cache_size,
            r.slots.len() == 0,
            r.missing.len() == 0,
            r.resolution == resolution,
    {
        TileCache {
            size: cache_size,
            slots: Vec::new(),
            missing: Vec::new(),
            min_priority: Priority::none(),
            resolution,
        }
    }

    /// Whether `n` is resident.
    pub fn contains(&self, n: VNode) -> (r: bool)
        ensures
            r == self.holds(n),
    {
        self.slot_of(n).is_some()
    }

    /// The slot that holds `n`, if any.
    pub fn slot_of(&self, n: VNode) -> (r: Option<usize>)
        ensures
            r matches Some(i) ==> i < self.slots.len() && self.slots@[i as int].node == n,
            r is None <==> !self.holds(n),
    {
        let mut i: usize = 0;
        while i < self.slots.len()
            invariant
                0 <= i <= self.slots.len(),
                forall|j: int| 0 <= j < i ==> (#[trigger] self.slots@[j]).node != n,
            decreases self.slots.len() - i,
        {
            if self.slots[i].node == n {
                return Some(i);
            }
            i = i + 1;
        }
        None
    }

    /// Whether `n` already waits for admission.
    fn is_missing(&self, n: VNode) -> (r: bool)
        ensures
            r == (exists|k: int| 0 <= k < self.missing.len() && (#[trigger] self.missing@[k]).1 == n),
    {
        let mut k: usize = 0;
        while k < self.missing.len()
            invariant
                0 <= k <= self.missing.len(),
                forall|j: int| 0 <= j < k ==> (#[trigger] self.missing@[j]).1 != n,
            decreases self.missing.len() - k,
        {
            if self.missing[k].1 == n {
                return true;
            }
            k = k + 1;
        }
        false
    }

    /// Samples per side of each tile.
    pub fn resolution(&self) -> (r: u32)
        ensures
            r == self.resolution,
    {
        self.resolution
    }

    /// Records `element` for admission at the next replacement pass where its priority
    /// reaches the cutoff, it is neither resident nor recorded yet, and either a slot
    /// is free or it outranks the least resident priority.
    pub fn add_missing(&mut self, element: (Priority, VNode))
        requires
            old(self).wf(),
        ensures
            final(self).wf(),
            final(self).size == old(self).size,
            final(self).slots@ == old(self).slots@,
            final(self).resolution == old(self).resolution,
            final(self).min_priority == old(self).min_priority,
            admits(*old(self), element) ==> final(self).missing@ == old(self).missing@.push(
                element,
            ),
            !admits(*old(self), element) ==> final(self).missing@ == old(self).missing@,
    {
        if element.0.key < Priority::cutoff().key {
            return;
        }
        if self.contains(element.1) || self.is_missing(element.1) {
            return;
        }
        if element.0.key > self.min_priority.key || self.slots.len() < self.size {
            self.missing.push(element);
            proof {
                assert forall|i: int, j: int|
                    0 <= i < self.missing.len() && 0 <= j < self.missing.len() && i != j implies
                    #[trigger] self.missing@[i].1 != #[trigger] self.missing@[j].1 by {
                    if i < old(self).missing.len() && j < old(self).missing.len() {
                        assert(old(self).missing@[i] == self.missing@[i]);
                    }
                }
                assert forall|k: int| 0 <= k < self.missing.len() implies !self.holds(
                    #[trigger] self.missing@[k].1,
                ) by {
                    if k < old(self).missing.len() {
                        assert(old(self).missing@[k] == self.missing@[k]);
                    }
                }
            }
        }
    }

    /// The slot with the least priority.
    fn lowest_slot(&self) -> (r: usize)
        requires
            self.slots.len() > 0,
        ensures
            r < self.slots.len(),
            forall|j: int|
                0 <= j < self.slots.len() ==> self.slots@[r as int].priority.key <= (
                #[trigger] self.slots@[j]).priority.key,
    {
        let mut best: usize = 0;
        let mut i: usize = 1;
        while i < self.slots.len()
            invariant
                0 < i <= self.slots.len(),
                best < i,
                forall|j: int|
                    0 <= j < i ==> self.slots@[best as int].priority.key <= (
                    #[trigger] self.slots@[j]).priority.key,
            decreases self.slots.len() - i,
        {
            if self.slots[i].priority.key < self.slots[best].priority.key {
                best = i;
            }
            i = i + 1;
        }
        best
    }

    /// Admits the recorded nodes: while slots are free each takes a new one; once the
    /// level is full a node replaces the least-priority resident where it outranks it
    /// and is dropped otherwise. Survivors keep their slots, and nothing that leaves or
    /// is turned away outranks anything that stays.
    pub fn load_missing(&mut self)
        requires
            old(self).wf(),
        ensures
            loaded(*old(self), *final(self)),
    {
        let ghost o = old(self).slots@;
        let mut missing: Vec<(Priority, VNode)> = Vec::new();
        std::mem::swap(&mut missing, &mut self.missing);
        let ghost m = missing@;
        let mut k: usize = 0;
        while k < missing.len()
            invariant
                m == missing@,
                m == old(self).missing@,
                o == old(self).slots@,
                old(self).wf(),
                0 <= k <= missing.len(),
                self.size == old(self).size,
                self.resolution == old(self).resolution,
                self.min_priority == old(self).min_priority,
                self.missing.len() == 0,
                self.slots.len() == min_int(self.size as int, o.len() + k),
                nodes_unique(self.slots@),
                forall|j: int| 0 <= j < self.slots.len() ==> (#[trigger] self.slots@[j]).masks_disjoint(),
                forall|j: int|
                    0 <= j < self.slots.len() ==> (j < o.len() && #[trigger] self.slots@[j] == o[j])
                        || exists|kk: int|
                        0 <= kk < k && is_fresh_entry(self.slots@[j], (#[trigger] m[kk]).0, m[kk].1),
                forall|kk: int| k <= kk < m.len() ==> !seq_holds(self.slots@, #[trigger] m[kk].1),
                forall|i: int|
                    0 <= i < o.len() && seq_holds(self.slots@, #[trigger] o[i].node) ==> self.slots@[i]
                        == o[i],
                self.slots.len() < self.size ==> forall|i: int|
                    0 <= i < o.len() ==> seq_holds(self.slots@, #[trigger] o[i].node),
                self.slots.len() < self.size ==> forall|kk: int|
                    0 <= kk < k ==> seq_holds(self.slots@, #[trigger] m[kk].1),
                forall|i: int, j: int|
                    0 <= i < o.len() && 0 <= j < self.slots.len() && !seq_holds(
                        self.slots@,
                        #[trigger] o[i].node,
                    ) ==> o[i].priority.key <= (#[trigger] self.slots@[j]).priority.key,
                forall|kk: int, j: int|
                    0 <= kk < k && 0 <= j < self.slots.len() && !seq_holds(
                        self.slots@,
                        #[trigger] m[kk].1,
                    ) ==> m[kk].0.key <= (#[trigger] self.slots@[j]).priority.key,
            decreases missing.len() - k,
        {
            let (p, n) = missing[k];
            let ghost before = self.slots@;
            if self.slots.len() < self.size {
                self.slots.push(Entry::new(n, p));
                proof {
                    let after = self.slots@;
                    assert(after[before.len() as int].node == m[k as int].1);
                    assert forall|x: VNode| seq_holds(before, x) implies seq_holds(after, x) by {
                        let j = choose|j: int| 0 <= j < before.len() && #[trigger] before[j].node == x;
                        assert(after[j] == before[j]);
                    }
                    assert forall|i: int|
                        0 <= i < o.len() && seq_holds(after, #[trigger] o[i].node) implies after[i]
                        == o[i] by {
                        assert(seq_holds(o, o[i].node));
                        if !seq_holds(before, o[i].node) {
                            let j = choose|j: int| 0 <= j < after.len() && #[trigger] after[j].node == o[i].node;
                            assert(j == before.len());
                            assert(old(self).holds(old(self).missing@[k as int].1));
                        }
                    }
                    assert(seq_holds(after, m[k as int].1));
                }
            } else if self.size > 0 {
                let i = self.lowest_slot();
                if p.key > self.slots[i].priority.key {
                    self.slots[i] = Entry::new(n, p);
                    proof {
                        let after = self.slots@;
                        let ev = before[i as int];
                        assert(after[i as int].node == m[k as int].1);
                        assert forall|x: VNode|
                            seq_holds(after, x) && x != m[k as int].1 implies seq_holds(before, x) by {
                            let j = choose|j: int| 0 <= j < after.len() && #[trigger] after[j].node == x;
                            assert(before[j] == after[j]);
                        }
                        assert forall|x: VNode|
                            seq_holds(before, x) && x != ev.node implies seq_holds(after, x) by {
                            let j = choose|j: int| 0 <= j < before.len() && #[trigger] before[j].node == x;
                            assert(before[j] == after[j]);
                        }
                        assert forall|i2: int|
                            0 <= i2 < o.len() && seq_holds(after, #[trigger] o[i2].node) implies after[i2]
                            == o[i2] by {
                            assert(seq_holds(o, o[i2].node));
                            if o[i2].node == m[k as int].1 {
                                assert(old(self).holds(old(self).missing@[k as int].1));
                            }
                            assert(seq_holds(before, o[i2].node));
                            assert(before[i2] == o[i2]);
                            if i2 == i {
                                assert(ev.node == o[i2].node);
                                let j = choose|j: int| 0 <= j < after.len() && #[trigger] after[j].node == o[i2].node;
                                assert(j != i);
                                assert(before[j] == after[j]);
                            }
                        }
                        assert forall|i2: int, j: int|
                            0 <= i2 < o.len() && 0 <= j < after.len() && !seq_holds(
                                after,
                                #[trigger] o[i2].node,
                            ) implies o[i2].priority.key <= (#[trigger] after[j]).priority.key by {
                            assert(before[j].priority.key >= ev.priority.key);
                            if seq_holds(before, o[i2].node) {
                                assert(before[i2] == o[i2]);
                                assert(o[i2].node == ev.node);
                                let w = choose|w: int| 0 <= w < before.len() && #[trigger] before[w].node == o[i2].node;
                                assert(w == i2);
                            }
                        }
                        assert forall|k2: int, j: int|
                            0 <= k2 < k as int + 1 && 0 <= j < after.len() && !seq_holds(
                                after,
                                #[trigger] m[k2].1,
                            ) implies m[k2].0.key <= (#[trigger] after[j]).priority.key by {
                            assert(before[j].priority.key >= ev.priority.key);
                            if k2 < k as int && seq_holds(before, m[k2].1) {
                                assert(m[k2].1 == ev.node);
                                let w = choose|w: int|
                                    0 <= w < before.len() && #[trigger] before[w].node == m[k2].1;
                                assert(w == i as int);
                                assert((exists|kk: int|
                                    0 <= kk < k as int && is_fresh_entry(before[w], (#[trigger] m[kk]).0, m[kk].1))
                                    || (w < o.len() && before[w] == o[w]));
                                if w < o.len() && before[w] == o[w] {
                                    assert(seq_holds(o, m[k2].1));
                                    assert(old(self).holds(old(self).missing@[k2].1));
                                }
                                let kk = choose|kk: int|
                                    0 <= kk < k as int && is_fresh_entry(before[w], (#[trigger] m[kk]).0, m[kk].1);
                                assert(m[kk].1 == m[k2].1);
                                assert(kk == k2);
                            }
                        }
                    }
                } else {
                    proof {
                        assert forall|kk: int| k + 1 <= kk < m.len() implies !seq_holds(
                            self.slots@,
                            #[trigger] m[kk].1,
                        ) by {}
                    }
                }
            }
            k = k + 1;
        }
        proof {
            assert forall|j: int| 0 <= j < self.slots.len() implies came_from(
                #[trigger] self.slots@[j],
                j,
                o,
                m,
            ) by {
                if !(j < o.len() && self.slots@[j] == o[j]) {
                    let kk = choose|kk: int|
                        0 <= kk < k && is_fresh_entry(self.slots@[j], (#[trigger] m[kk]).0, m[kk].1);
                    assert(is_fresh_entry(self.slots@[j], m[kk].0, m[kk].1));
                }
            }
        }
    }

    /// Gives slot `i` the priority `priorities[i]` and recomputes the least resident priority.
    pub fn update_priorities(&mut self, priorities: &Vec<Priority>)
        requires
            old(self).wf(),
            priorities.len() == old(self).slots.len(),
        ensures
            final(self).wf(),
            final(self).size == old(self).size,
            final(self).missing@ == old(self).missing@,
            final(self).resolution == old(self).resolution,
            final(self).slots.len() == old(self).slots.len(),
            forall|i: int|
                0 <= i < final(self).slots.len() ==> {
                    &&& (#[trigger] final(self).slots@[i]).priority == priorities@[i]
                    &&& final(self).slots@[i].node == old(self).slots@[i].node
                    &&& final(self).slots@[i].valid == old(self).slots@[i].valid
                    &&& final(self).slots@[i].streaming == old(self).slots@[i].streaming
                },
            final(self).slots.len() == 0 ==> final(self).min_priority == crate::priority::spec_none(),
            final(self).slots.len() > 0 ==> final(self).min_priority.key == min_key(
                final(self).slots@,
            ),
    {
        let n = self.slots.len();
        let mut i: usize = 0;
        let mut min: u32 = u32::MAX;
        while i < n
            invariant
                0 <= i <= n,
                n == self.slots.len(),
                priorities.len() == n,
                self.size == old(self).size,
                self.missing@ == old(self).missing@,
                self.resolution == old(self).resolution,
                forall|j: int|
                    0 <= j < n ==> {
                        &&& (#[trigger] self.slots@[j]).node == old(self).slots@[j].node
                        &&& self.slots@[j].valid == old(self).slots@[j].valid
                        &&& self.slots@[j].streaming == old(self).slots@[j].streaming
                    },
                forall|j: int| 0 <= j < i ==> (#[trigger] self.slots@[j]).priority == priorities@[j],
                min == min_key(self.slots@.take(i as int)),
            decreases n - i,
        {
            let ghost before = self.slots@;
            self.slots[i].priority = priorities[i];
            proof {
                assert(self.slots@.take(i as int) =~= before.take(i as int));
                assert(self.slots@.take(i as int + 1).drop_last() =~= self.slots@.take(i as int));
            }
            if priorities[i].key < min {
                min = priorities[i].key;
            }
            i = i + 1;
        }
        proof {
            assert(self.slots@.take(n as int) =~= self.slots@);
            assert forall|a: int, b: int|
                0 <= a < self.slots.len() && 0 <= b < self.slots.len() && a != b implies
                #[trigger] self.slots@[a].node != #[trigger] self.slots@[b].node by {
                assert(old(self).slots@[a].node != old(self).slots@[b].node);
            }
            assert forall|k: int| 0 <= k < self.missing.len() implies !self.holds(
                #[trigger] self.missing@[k].1,
            ) by {
                if self.holds(self.missing@[k].1) {
                    let j = choose|j: int|
                        0 <= j < self.slots.len() && #[trigger] self.slots@[j].node
                            == self.missing@[k].1;
                    assert(old(self).slots@[j].node == self.missing@[k].1);
                    assert(old(self).holds(old(self).missing@[k].1));
                }
            }
            assert forall|j: int| 0 <= j < self.slots.len() implies (
            #[trigger] self.slots@[j]).masks_disjoint() by {
                assert(old(self).slots@[j].masks_disjoint());
            }
        }
        if n == 0 {
            self.min_priority = Priority::none();
        } else {
            self.min_priority = Priority { key: min };
        }
    }
}

} // verus!
