//! The cache of all levels: its configuration, its model, and the operations
//! that admit nodes and take in streamed and read-back data.

use vstd::prelude::*;
use crate::layer::{GeneratorMask, LayerMask, LayerType, MeshType, MESH_BIT_OFFSET, NUM_LAYER_TYPES, generator_bit, layer_bit};
use crate::provenance::{empty_provenance, vec_map_contents};
use crate::node::{MAX_QUADTREE_LEVEL, VNode};
use crate::priority::{Priority, spec_cutoff};
use crate::texture::TextureFormat;
use crate::tile_cache;
use crate::tile_cache::{CpuHeightmap, admits, came_from, dependencies, is_fresh_entry, loaded, produced_by, stamped};
use crate::tile_lemmas::{lemma_entry_index, lemma_same_nodes, lemma_same_shape_trans, lemma_shape_refl};

verus! {

/// Generator runs allowed per frame.
pub const FRAME_BUDGET: usize = 16;

/// Streaming requests allowed in flight at once.
pub const MAX_INFLIGHT: usize = 128;

/// Readback buffers allowed to exist at once.
pub const MAX_DOWNLOAD_BUFFERS: usize = 64;

/// Number of levels, root included.
pub const NUM_LEVELS: usize = 23;

/// Static parameters of one layer.
pub struct LayerParams {
    /// What kind of layer this is.
    pub layer_type: LayerType,
    /// Number of samples in each dimension, per tile.
    pub texture_resolution: u32,
    /// Number of samples outside the tile on each side.
    pub texture_border_size: u32,
    /// Formats used by this layer.
    pub texture_format: Vec<TextureFormat>,
    pub grid_registration: bool,
    /// Shallowest level that holds this layer.
    pub min_level: u8,
    /// Deepest level that holds this layer.
    pub max_level: u8,
    /// Levels shallower than this are streamed from storage; deeper ones are generated.
    pub streamed_levels: u8,
}

/// Number of mesh kinds.
pub const NUM_MESH_TYPES: usize = 3;

/// Level range of one mesh kind.
#[derive(Clone, Copy, Debug, PartialEq, Eq, Structural)]
pub struct MeshParams {
    pub ty: MeshType,
    pub min_level: u8,
    pub max_level: u8,
}

/// What a generator produces and what it needs.
pub struct GeneratorDesc {
    pub name: String,
    /// Layers generated.
    pub outputs: LayerMask,
    /// Layers required at the node itself.
    pub peer_inputs: LayerMask,
    /// Layers required at the parent.
    pub parent_inputs: LayerMask,
    /// Layers required at the node, or at its ancestor at the layer's deepest level.
    pub ancestor_inputs: LayerMask,
}

/// One generator run decided by the scheduler.
#[derive(Clone, Copy, Debug, PartialEq, Eq, Structural)]
pub struct GenerateTask {
    pub node: VNode,
    /// Global slot of the node.
    pub slot: usize,
    /// Global slot of the parent, where the node has one that is resident.
    pub parent_slot: Option<usize>,
    /// Position of the generator in the generator list.
    pub generator: usize,
    /// Layers this run makes valid.
    pub outputs: LayerMask,
}

/// What one frame of scheduling decided.
pub struct FramePlan {
    /// Streaming requests, one per node and layer.
    pub stream_requests: Vec<(VNode, LayerType)>,
    /// Generator runs, in the order they must be recorded.
    pub tasks: Vec<GenerateTask>,
    /// Nodes whose new heightmap must be copied back to the CPU.
    pub downloads: Vec<VNode>,
    /// Generation candidates of phase A, in the order they were found and served.
    pub candidates: Vec<VNode>,
}

/// The runs of `tasks` serve the nodes of `candidates` in list order: each run belongs to
/// a position of the list, and later runs to the same or later positions.
pub open spec fn served_in_order(tasks: Seq<GenerateTask>, candidates: Seq<VNode>, pos: Seq<int>) -> bool {
    &&& pos.len() == tasks.len()
    &&& forall|k: int| 0 <= k < tasks.len() ==> 0 <= #[trigger] pos[k] < candidates.len() && candidates[pos[k]] == tasks[k].node
    &&& forall|a: int, b: int| 0 <= a < b < tasks.len() ==> #[trigger] pos[a] <= #[trigger] pos[b]
}

/// The cache of all levels.
pub struct TileCache {
    /// Parameters of each layer, at the layer's index.
    pub layers: Vec<LayerParams>,
    /// Level range of each mesh kind, at the kind's index.
    pub meshes: Vec<MeshParams>,
    /// The cache of each level.
    pub levels: Vec<tile_cache::TileCache>,
    /// Global slot of the first slot of each level.
    pub base_slots: Vec<usize>,
    /// The generators, in dependency order.
    pub generators: Vec<GeneratorDesc>,
    /// Streaming requests not yet answered.
    pub num_inflight: usize,
    /// Readback buffers ready for reuse.
    pub free_download_buffers: usize,
    /// Readback buffers created so far.
    pub total_download_buffers: usize,
    /// Deepest level whose heightmaps are copied back to the CPU.
    pub readback_max_level: u8,
}

/// Level `l`'s cache is well formed and holds, resident or recorded, only valid nodes
/// of level `l`.
pub open spec fn level_wf(c: tile_cache::TileCache, l: int) -> bool {
    &&& c.wf()
    &&& forall|i: int|
        0 <= i < c.slots.len() ==> (#[trigger] c.slots@[i]).node.wf() && c.slots@[i].node.level == l
    &&& forall|k: int|
        0 <= k < c.missing.len() ==> (#[trigger] c.missing@[k]).1.wf() && c.missing@[k].1.level == l
}

/// The entry of `n` in `c`, where `n` is resident.
pub open spec fn entry_of(c: tile_cache::TileCache, n: VNode) -> tile_cache::Entry {
    let i = choose|i: int| 0 <= i < c.slots.len() && #[trigger] c.slots@[i].node == n;
    c.slots@[i]
}

/// Whether `l` lies in the level range of layer parameters `p`.
pub open spec fn in_range(p: LayerParams, l: int) -> bool {
    p.min_level <= l <= p.max_level
}

/// Slot `i` of level `l` in `c`.
pub open spec fn slot_at(c: &TileCache, l: int, i: int) -> tile_cache::Entry {
    c.levels@[l].slots@[i]
}

/// `a` and `b` hold the same nodes in the same slots, with the same priorities and the
/// same configuration.
pub open spec fn same_shape(a: &TileCache, b: &TileCache) -> bool {
    &&& a.layers@ == b.layers@
    &&& a.meshes@ == b.meshes@
    &&& a.generators@ == b.generators@
    &&& a.base_slots@ == b.base_slots@
    &&& a.readback_max_level == b.readback_max_level
    &&& a.levels.len() == b.levels.len()
    &&& forall|l: int|
        0 <= l < a.levels.len() ==> {
            &&& (#[trigger] a.levels@[l]).size == b.levels@[l].size
            &&& a.levels@[l].missing@ == b.levels@[l].missing@
            &&& a.levels@[l].min_priority == b.levels@[l].min_priority
            &&& a.levels@[l].resolution == b.levels@[l].resolution
            &&& a.levels@[l].slots.len() == b.levels@[l].slots.len()
        }
    &&& forall|l: int, i: int|
        0 <= l < a.levels.len() && 0 <= i < a.levels@[l].slots.len() ==> {
            &&& (#[trigger] slot_at(a, l, i)).node == slot_at(b, l, i).node
            &&& slot_at(a, l, i).priority == slot_at(b, l, i).priority
        }
}

/// Same shape, and every layer valid in `a` is valid in `b`.
pub open spec fn valid_grows(a: &TileCache, b: &TileCache) -> bool {
    &&& same_shape(a, b)
    &&& forall|l: int, i: int|
        0 <= l < a.levels.len() && 0 <= i < a.levels@[l].slots.len() ==> (#[trigger] slot_at(
            a,
            l,
            i,
        )).valid.bits & !slot_at(b, l, i).valid.bits == 0
}

/// Requests `r` from position `from` on name resident nodes at levels where their layer
/// is held and streamed.
pub open spec fn requests_ok(c: &TileCache, r: Seq<(VNode, LayerType)>, from: int) -> bool {
    forall|k: int|
        from <= k < r.len() ==> {
            let p = c.layers@[(#[trigger] r[k]).1.spec_index() as int];
            &&& c.resident(r[k].0)
            &&& r[k].0.wf()
            &&& r[k].0.level < p.streamed_levels
            &&& in_range(p, r[k].0.level as int)
        }
}

/// Every slot of `a` has the valid bits of the same slot of `b`.
pub open spec fn same_valid(a: &TileCache, b: &TileCache) -> bool {
    forall|l: int, i: int|
        0 <= l < a.levels.len() && 0 <= i < a.levels@[l].slots.len() ==> (#[trigger] slot_at(
            a,
            l,
            i,
        )).valid == slot_at(b, l, i).valid
}

/// Sum of the first `n` capacities.
pub open spec fn capacity_sum(c: Seq<usize>, n: nat) -> int
    decreases n,
{
    if n == 0 {
        0
    } else {
        capacity_sum(c, (n - 1) as nat) + c[n - 1] as int
    }
}

/// Every prefix sum of the first `n` capacities fits in a slot index.
pub open spec fn capacities_fit(c: Seq<usize>, n: nat) -> bool {
    forall|j: nat| j <= n ==> #[trigger] capacity_sum(c, j) <= usize::MAX
}

/// The least of `s`.
pub open spec fn seq_min(s: Seq<i16>) -> i16
    decreases s.len(),
{
    if s.len() <= 1 {
        s[0]
    } else {
        let r = seq_min(s.drop_last());
        if s.last() < r {
            s.last()
        } else {
            r
        }
    }
}

/// The greatest of `s`.
pub open spec fn seq_max(s: Seq<i16>) -> i16
    decreases s.len(),
{
    if s.len() <= 1 {
        s[0]
    } else {
        let r = seq_max(s.drop_last());
        if s.last() > r {
            s.last()
        } else {
            r
        }
    }
}

/// A CPU heightmap of `heights` with their extremes.
pub fn heightmap_of(heights: Vec<i16>) -> (r: CpuHeightmap)
    requires
        heights.len() > 0,
    ensures
        r.heights@ == heights@,
        r.min == seq_min(heights@),
        r.max == seq_max(heights@),
{
    let mut min = heights[0];
    let mut max = heights[0];
    let mut i: usize = 1;
    while i < heights.len()
        invariant
            1 <= i <= heights.len(),
            min == seq_min(heights@.take(i as int)),
            max == seq_max(heights@.take(i as int)),
        decreases heights.len() - i,
    {
        proof {
            assert(heights@.take(i as int + 1).drop_last() =~= heights@.take(i as int));
        }
        if heights[i] < min {
            min = heights[i];
        }
        if heights[i] > max {
            max = heights[i];
        }
        i = i + 1;
    }
    proof {
        assert(heights@.take(heights.len() as int) =~= heights@);
    }
    CpuHeightmap { min, max, heights }
}

/// `b` is `a` after the streamed `layer` of `node` arrived with `heights`: one request
/// fewer in flight; where the node is resident, its layer no longer streaming, valid if
/// its level range holds the node, and non-empty heights kept as its CPU heightmap.
pub open spec fn streaming_completed(a: &TileCache, b: &TileCache, node: VNode, layer: LayerType, heights: Seq<i16>) -> bool {
    &&& b.wf()
    &&& same_shape(a, b)
    &&& b.num_inflight == a.num_inflight - 1
    &&& !a.resident(node) ==> b.levels@ == a.levels@
    &&& a.resident(node) ==> {
        let e0 = entry_of(a.levels@[node.level as int], node);
        let e1 = entry_of(b.levels@[node.level as int], node);
        let bit = layer_bit(layer.spec_index());
        &&& e1.streaming.bits == e0.streaming.bits & !bit
        &&& in_range(a.layers@[layer.spec_index() as int], node.level as int) ==> e1.valid.bits == e0.valid.bits | bit
        &&& !in_range(a.layers@[layer.spec_index() as int], node.level as int) ==> e1.valid.bits == e0.valid.bits
        &&& heights.len() > 0 ==> (e1.heightmap matches Some(h) && h.heights@ == heights && h.min == seq_min(heights)
            && h.max == seq_max(heights))
    }
}

/// In a well-formed cache no layer of any resident entry is both valid and being
/// streamed.
pub proof fn lemma_valid_and_streaming_exclusive(c: &TileCache, l: int, i: int, ly: LayerType)
    requires
        c.wf(),
        0 <= l < NUM_LEVELS,
        0 <= i < c.levels@[l].slots.len(),
    ensures
        !(slot_at(c, l, i).valid.has_layer(ly) && slot_at(c, l, i).streaming.has_layer(ly)),
{
    let e = slot_at(c, l, i);
    assert(level_wf(c.levels@[l], l));
    assert(e.masks_disjoint());
    let v = e.valid.bits;
    let st = e.streaming.bits;
    let k = ly.spec_index() as u32;
    assert(k < 32);
    assert(k < 32 && v & st == 0 ==> !(v & (1u32 << k) != 0 && st & (1u32 << k) != 0)) by (bit_vector);
}

/// Runs over a sequence of frames.
pub open spec fn total_runs(runs: Seq<nat>) -> nat
    decreases runs.len(),
{
    if runs.len() == 0 {
        0
    } else {
        total_runs(runs.drop_last()) + runs.last()
    }
}

/// Over `N` frames, each within the frame budget (as `generate_tiles` guarantees), at
/// most `FRAME_BUDGET × N` generator runs happen.
pub proof fn lemma_budget_over_frames(runs: Seq<nat>)
    requires
        forall|k: int| 0 <= k < runs.len() ==> #[trigger] runs[k] <= FRAME_BUDGET,
    ensures
        total_runs(runs) <= FRAME_BUDGET * runs.len(),
    decreases runs.len(),
{
    if runs.len() > 0 {
        let rest = runs.drop_last();
        assert forall|k: int| 0 <= k < rest.len() implies #[trigger] rest[k] <= FRAME_BUDGET by {
            assert(rest[k] == runs[k]);
        }
        lemma_budget_over_frames(rest);
        assert(runs.last() == runs[runs.len() - 1]);
    }
}

/// `n` is in `r`.
pub open spec fn in_list(r: Seq<VNode>, n: VNode) -> bool {
    exists|k: int| 0 <= k < r.len() && r[k] == n
}

/// Every slot of `a` has the streaming bits of the same slot of `b`.
pub open spec fn same_streaming(a: &TileCache, b: &TileCache) -> bool {
    forall|l: int, i: int|
        0 <= l < a.levels.len() && 0 <= i < a.levels@[l].slots.len() ==> (#[trigger] slot_at(
            a,
            l,
            i,
        )).streaming == slot_at(b, l, i).streaming
}

/// Every streaming bit of a slot of `a` is set in the same slot of `b`.
pub open spec fn streaming_grows(a: &TileCache, b: &TileCache) -> bool {
    forall|l: int, i: int|
        0 <= l < a.levels.len() && 0 <= i < a.levels@[l].slots.len() ==> (#[trigger] slot_at(
            a,
            l,
            i,
        )).streaming.bits & !slot_at(b, l, i).streaming.bits == 0
}
/// Valid bits of `n` in `c`; none where `n` is not resident.
pub open spec fn valid_of(c: &TileCache, n: VNode) -> u32 {
    if c.resident(n) {
        entry_of(c.levels@[n.level as int], n).valid.bits
    } else {
        0
    }
}

/// Streaming bits of `n` in `c`; none where `n` is not resident.
pub open spec fn streaming_of(c: &TileCache, n: VNode) -> u32 {
    if c.resident(n) {
        entry_of(c.levels@[n.level as int], n).streaming.bits
    } else {
        0
    }
}

/// Recorded provenance of `n` in `c`; empty where `n` is not resident.
pub open spec fn provenance_of(c: &TileCache, n: VNode) -> Map<usize, u64> {
    if c.resident(n) {
        vec_map_contents(entry_of(c.levels@[n.level as int], n).generators)
    } else {
        empty_provenance()
    }
}

/// Valid bits of `n` before run `k` of `tasks`, the runs starting from `c`.
pub open spec fn valid_before(c: &TileCache, tasks: Seq<GenerateTask>, k: int, n: VNode) -> u32
    decreases k,
{
    if k <= 0 {
        valid_of(c, n)
    } else {
        let t = tasks[k - 1];
        valid_before(c, tasks, k - 1, n) | (if t.node == n { t.outputs.bits } else { 0u32 })
    }
}

/// Generators that run `k` of `tasks` stamps onto its outputs: its own bit, and the
/// provenance, just before the run, of the peer inputs and (where the parent is
/// resident) the parent inputs it reads.
pub open spec fn run_stamp(c: &TileCache, tasks: Seq<GenerateTask>, k: int) -> u64 {
    let t = tasks[k];
    let g = c.generators@[t.generator as int];
    let p = t.node.spec_parent();
    let own = dependencies(provenance_before(c, tasks, k, t.node), g.peer_inputs.bits, NUM_LAYER_TYPES as nat);
    let par = if t.node.level > 0 && c.resident(p) {
        dependencies(provenance_before(c, tasks, k, p), g.parent_inputs.bits, NUM_LAYER_TYPES as nat)
    } else {
        0u64
    };
    ((generator_bit(t.generator as nat) | own) | par) as u64
}

/// Recorded provenance of `n` before run `k` of `tasks`, the runs starting from `c`.
pub open spec fn provenance_before(c: &TileCache, tasks: Seq<GenerateTask>, k: int, n: VNode) -> Map<usize, u64>
    decreases k,
{
    if k <= 0 {
        provenance_of(c, n)
    } else {
        let t = tasks[k - 1];
        let before = provenance_before(c, tasks, k - 1, n);
        if t.node == n {
            let g = c.generators@[t.generator as int];
            let p = t.node.spec_parent();
            let own = dependencies(before, g.peer_inputs.bits, NUM_LAYER_TYPES as nat);
            let par = if t.node.level > 0 && c.resident(p) {
                dependencies(provenance_before(c, tasks, k - 1, p), g.parent_inputs.bits, NUM_LAYER_TYPES as nat)
            } else {
                0u64
            };
            stamped(before, t.outputs.bits, ((generator_bit(t.generator as nat) | own) | par) as u64, NUM_LAYER_TYPES as nat)
        } else {
            before
        }
    }
}

/// Ancestor-input layer `ly` is available to `n` before run `k`: as `ancestor_layer_met`,
/// over the valid bits before that run.
pub open spec fn layer_met_before(c: &TileCache, tasks: Seq<GenerateTask>, k: int, n: VNode, ly: LayerType) -> bool {
    let p = c.layers@[ly.spec_index() as int];
    let b = layer_bit(ly.spec_index());
    if n.level < p.min_level {
        false
    } else if n.level <= p.max_level {
        c.resident(n) && valid_before(c, tasks, k, n) & b != 0
    } else {
        let a = n.spec_ancestor_at(p.max_level as nat);
        c.resident(a) && valid_before(c, tasks, k, a) & b != 0
    }
}

pub open spec fn ancestors_met_before(c: &TileCache, tasks: Seq<GenerateTask>, k: int, n: VNode, inputs: LayerMask) -> bool {
    forall|i: nat|
        i < NUM_LAYER_TYPES && inputs.has_bit(i) ==> layer_met_before(c, tasks, k, n, #[trigger] LayerType::spec_from_index(i))
}

/// Run `k` of `tasks`, the runs starting from `c` with the streaming bits of `cs`, is what
/// the scheduler may do at that point: the node is resident and above the cutoff, the
/// run fills exactly its generator's outputs that are legal at the level and neither
/// valid nor streaming just before it, and every declared input is present just before it.
pub open spec fn task_fits(c: &TileCache, cs: &TileCache, tasks: Seq<GenerateTask>, k: int) -> bool {
    let t = tasks[k];
    let n = t.node;
    let g = c.generators@[t.generator as int];
    let vb = valid_before(c, tasks, k, n);
    &&& t.generator < c.generators.len()
    &&& n.wf()
    &&& c.resident(n)
    &&& entry_of(c.levels@[n.level as int], n).priority.key > spec_cutoff().key
    &&& t.outputs.bits != 0
    &&& t.outputs.bits == g.outputs.bits & c.legal_mask(n.level as int) & !(vb | streaming_of(cs, n))
    &&& g.peer_inputs.bits & !vb == 0
    &&& n.level == 0 ==> g.parent_inputs.bits == 0
    &&& n.level > 0 ==> {
        &&& c.resident(n.spec_parent())
        &&& g.parent_inputs.bits & !valid_before(c, tasks, k, n.spec_parent()) == 0
    }
    &&& ancestors_met_before(c, tasks, k, n, g.ancestor_inputs)
}

/// Some run of `tasks` gives `n` a new heightmap.
pub open spec fn heightmap_run(tasks: Seq<GenerateTask>, n: VNode) -> bool {
    exists|k: int| 0 <= k < tasks.len() && (#[trigger] tasks[k]).node == n && tasks[k].outputs.bits & layer_bit(0) != 0
}

/// Stream request `r` was due in `c`: its node is resident and above the cutoff, and its
/// layer is neither valid nor streaming there.
pub open spec fn request_due(c: &TileCache, r: (VNode, LayerType)) -> bool {
    &&& c.resident(r.0)
    &&& entry_of(c.levels@[r.0.level as int], r.0).priority.key > spec_cutoff().key
    &&& (valid_of(c, r.0) | streaming_of(c, r.0)) & layer_bit(r.1.spec_index()) == 0
}

/// No free readback buffer is left and no new one may be made.
pub open spec fn pool_exhausted(c: &TileCache) -> bool {
    c.free_download_buffers == 0 && c.total_download_buffers >= MAX_DOWNLOAD_BUFFERS
}

/// No node is listed twice.
pub open spec fn distinct_vnodes(s: Seq<VNode>) -> bool {
    forall|a: int, b: int| 0 <= a < s.len() && 0 <= b < s.len() && a != b ==> #[trigger] s[a] != #[trigger] s[b]
}

/// Every slot of `a` has the provenance of the same slot of `b`.
pub open spec fn same_provenance(a: &TileCache, b: &TileCache) -> bool {
    forall|l: int, i: int|
        0 <= l < a.levels.len() && 0 <= i < a.levels@[l].slots.len() ==> (#[trigger] slot_at(a, l, i)).generators
            == slot_at(b, l, i).generators
}

/// Every slot of `s` holds the valid bits that `tasks`, run from `c`, leave.
pub open spec fn valid_trace(c: &TileCache, s: &TileCache, tasks: Seq<GenerateTask>) -> bool {
    forall|l: int, i: int|
        0 <= l < NUM_LEVELS && 0 <= i < c.levels@[l].slots.len() ==> (#[trigger] slot_at(s, l, i)).valid.bits
            == valid_before(c, tasks, tasks.len() as int, slot_at(c, l, i).node)
}

/// Every slot of `s` holds the provenance that `tasks`, run from `c`, leave.
pub open spec fn provenance_trace(c: &TileCache, s: &TileCache, tasks: Seq<GenerateTask>) -> bool {
    forall|l: int, i: int|
        0 <= l < NUM_LEVELS && 0 <= i < c.levels@[l].slots.len() ==> vec_map_contents((#[trigger] slot_at(s, l, i)).generators)
            == provenance_before(c, tasks, tasks.len() as int, slot_at(c, l, i).node)
}

impl TileCache {
    /// One parameter entry per layer and mesh kind in kind order with level ranges inside
    /// the tree, one well-formed cache per level with slot numbers that fit, at most 64
    /// generators, and the in-flight and readback counters within their budgets.
    pub open spec fn wf(&self) -> bool {
        &&& self.layers.len() == NUM_LAYER_TYPES
        &&& forall|i: int|
            0 <= i < NUM_LAYER_TYPES ==> {
                &&& (#[trigger] self.layers@[i]).layer_type.spec_index() == i
                &&& self.layers@[i].min_level <= self.layers@[i].max_level <= MAX_QUADTREE_LEVEL
            }
        &&& self.meshes.len() == NUM_MESH_TYPES
        &&& forall|i: int|
            0 <= i < NUM_MESH_TYPES ==> (#[trigger] self.meshes@[i]).ty.spec_index() == i
                && self.meshes@[i].min_level <= self.meshes@[i].max_level <= MAX_QUADTREE_LEVEL
        &&& self.levels.len() == NUM_LEVELS
        &&& self.base_slots.len() == NUM_LEVELS
        &&& forall|l: int| 0 <= l < NUM_LEVELS ==> level_wf(#[trigger] self.levels@[l], l)
        &&& forall|l: int|
            0 <= l < NUM_LEVELS ==> #[trigger] self.base_slots@[l] + self.levels@[l].size <= usize::MAX
        &&& self.generators.len() <= 64
        &&& self.num_inflight <= MAX_INFLIGHT
        &&& self.free_download_buffers <= self.total_download_buffers <= MAX_DOWNLOAD_BUFFERS
    }

    /// Generator `gi` can run at `n` with what `n`, its parent and its ancestors hold.
    pub open spec fn generator_ready(&self, n: VNode, gi: int) -> bool {
        let g = self.generators@[gi];
        let e = entry_of(self.levels@[n.level as int], n);
        &&& 0 <= gi < self.generators.len()
        &&& n.wf()
        &&& self.resident(n)
        &&& g.peer_inputs.bits & !e.valid.bits == 0
        &&& n.level == 0 ==> g.parent_inputs.bits == 0
        &&& n.level > 0 ==> {
            &&& self.resident(n.spec_parent())
            &&& g.parent_inputs.bits & !entry_of(self.levels@[n.level - 1], n.spec_parent()).valid.bits == 0
        }
        &&& self.ancestor_inputs_met_spec(n, g.ancestor_inputs)
    }

    /// Outputs of generator `gi` that `n` may hold and that are neither valid nor streaming.
    pub open spec fn missing_outputs(&self, n: VNode, gi: int) -> u32 {
        let e = entry_of(self.levels@[n.level as int], n);
        self.generators@[gi].outputs.bits & self.legal_mask(n.level as int) & !(e.valid.bits | e.streaming.bits)
    }

    /// Layer `li` of slot `i` of level `l` is to be streamed: the node is worth holding,
    /// the level is in the layer's range and streamed, and the layer is neither valid nor
    /// streaming.
    pub open spec fn stream_needed(&self, l: int, i: int, li: int) -> bool {
        let e = slot_at(self, l, i);
        let p = self.layers@[li];
        &&& 0 <= l < NUM_LEVELS
        &&& 0 <= i < self.levels@[l].slots.len()
        &&& 0 <= li < NUM_LAYER_TYPES
        &&& e.priority.key > spec_cutoff().key
        &&& in_range(p, l)
        &&& l < p.streamed_levels
        &&& (e.valid.bits | e.streaming.bits) & layer_bit(li as nat) == 0
    }

    /// Layer `li` of slot `i` of level `l` is streaming, or no request can be made.
    pub open spec fn stream_served(&self, l: int, i: int, li: int) -> bool {
        slot_at(self, l, i).streaming.bits & layer_bit(li as nat) != 0 || self.num_inflight == MAX_INFLIGHT
    }

    /// Sets the masks of slot `i` of level `l`.
    pub(crate) fn set_masks(&mut self, l: usize, i: usize, valid: LayerMask, streaming: LayerMask)
        requires
            old(self).wf(),
            l < NUM_LEVELS,
            i < old(self).levels@[l as int].slots.len(),
            valid.bits & streaming.bits == 0,
        ensures
            final(self).wf(),
            same_shape(old(self), final(self)),
            final(self).num_inflight == old(self).num_inflight,
            final(self).free_download_buffers == old(self).free_download_buffers,
            final(self).total_download_buffers == old(self).total_download_buffers,
            slot_at(final(self), l as int, i as int).valid == valid,
            slot_at(final(self), l as int, i as int).streaming == streaming,
            slot_at(final(self), l as int, i as int).generators == slot_at(old(self), l as int, i as int).generators,
            slot_at(final(self), l as int, i as int).heightmap == slot_at(old(self), l as int, i as int).heightmap,
            forall|l2: int, i2: int|
                0 <= l2 < NUM_LEVELS && 0 <= i2 < final(self).levels@[l2].slots.len() && (l2 != l
                    || i2 != i) ==> #[trigger] slot_at(final(self), l2, i2) == slot_at(old(self), l2, i2),
    {
        self.levels[l].slots[i].valid = valid;
        self.levels[l].slots[i].streaming = streaming;
        proof {
            let c = self.levels@[l as int];
            let oc = old(self).levels@[l as int];
            assert(c.slots.len() == oc.slots.len());
            assert forall|j: int| 0 <= j < c.slots.len() && j != i implies c.slots@[j] == oc.slots@[j] by {}
            assert forall|a: int, b: int|
                0 <= a < c.slots.len() && 0 <= b < c.slots.len() && a != b implies
                #[trigger] c.slots@[a].node != #[trigger] c.slots@[b].node by {
                assert(oc.slots@[a].node != oc.slots@[b].node);
            }
            assert forall|k: int| 0 <= k < c.missing.len() implies !c.holds(#[trigger] c.missing@[k].1) by {
                if c.holds(c.missing@[k].1) {
                    let j = choose|j: int| 0 <= j < c.slots.len() && #[trigger] c.slots@[j].node == c.missing@[k].1;
                    assert(oc.slots@[j].node == c.slots@[j].node);
                    assert(oc.holds(oc.missing@[k].1));
                }
            }
            assert forall|j: int| 0 <= j < c.slots.len() implies (#[trigger] c.slots@[j]).masks_disjoint() by {
                if j != i {
                    assert(oc.slots@[j].masks_disjoint());
                }
            }
            assert(level_wf(c, l as int)) by {
                assert forall|j: int| 0 <= j < c.slots.len() implies (#[trigger] c.slots@[j]).node.wf() && c.slots@[j].node.level == l as int by {
                    assert(oc.slots@[j].node == c.slots@[j].node);
                }
            }
            assert forall|l2: int| 0 <= l2 < NUM_LEVELS implies level_wf(#[trigger] self.levels@[l2], l2) by {
                if l2 != l {
                    assert(self.levels@[l2] == old(self).levels@[l2]);
                }
            }
        }
    }

    /// Applies `mark_generated` to slot `i` of level `l`.
    pub(crate) fn mark_generated_at(&mut self, l: usize, i: usize, outputs: LayerMask, g: GeneratorMask)
        requires
            old(self).wf(),
            l < NUM_LEVELS,
            i < old(self).levels@[l as int].slots.len(),
            outputs.bits & slot_at(old(self), l as int, i as int).streaming.bits == 0,
        ensures
            final(self).wf(),
            valid_grows(old(self), final(self)),
            final(self).num_inflight == old(self).num_inflight,
            final(self).free_download_buffers == old(self).free_download_buffers,
            final(self).total_download_buffers == old(self).total_download_buffers,
            slot_at(final(self), l as int, i as int).valid.bits == slot_at(old(self), l as int, i as int).valid.bits | outputs.bits,
            slot_at(final(self), l as int, i as int).streaming == slot_at(old(self), l as int, i as int).streaming,
            vec_map_contents(slot_at(final(self), l as int, i as int).generators) == stamped(
                vec_map_contents(slot_at(old(self), l as int, i as int).generators),
                outputs.bits,
                g.bits,
                NUM_LAYER_TYPES as nat,
            ),
            forall|l2: int, i2: int|
                0 <= l2 < NUM_LEVELS && 0 <= i2 < final(self).levels@[l2].slots.len() && (l2 != l
                    || i2 != i) ==> #[trigger] slot_at(final(self), l2, i2) == slot_at(old(self), l2, i2),
    {
        self.levels[l].slots[i].mark_generated(outputs, g);
        proof {
            let c = self.levels@[l as int];
            let oc = old(self).levels@[l as int];
            let v = oc.slots@[i as int].valid.bits;
            let st = oc.slots@[i as int].streaming.bits;
            let o = outputs.bits;
            assert(oc.slots@[i as int].masks_disjoint());
            assert(v & st == 0 && o & st == 0 ==> (v | o) & st == 0) by (bit_vector);
            assert(v & !(v | o) == 0) by (bit_vector);
            assert(c.slots.len() == oc.slots.len());
            assert forall|j: int| 0 <= j < c.slots.len() && j != i implies c.slots@[j] == oc.slots@[j] by {}
            assert forall|a: int, b: int|
                0 <= a < c.slots.len() && 0 <= b < c.slots.len() && a != b implies
                #[trigger] c.slots@[a].node != #[trigger] c.slots@[b].node by {
                assert(oc.slots@[a].node != oc.slots@[b].node);
            }
            assert forall|k: int| 0 <= k < c.missing.len() implies !c.holds(#[trigger] c.missing@[k].1) by {
                if c.holds(c.missing@[k].1) {
                    let j = choose|j: int| 0 <= j < c.slots.len() && #[trigger] c.slots@[j].node == c.missing@[k].1;
                    assert(oc.slots@[j].node == c.slots@[j].node);
                    assert(oc.holds(oc.missing@[k].1));
                }
            }
            assert forall|j: int| 0 <= j < c.slots.len() implies (#[trigger] c.slots@[j]).masks_disjoint() by {
                if j != i {
                    assert(oc.slots@[j].masks_disjoint());
                }
            }
            assert(level_wf(c, l as int)) by {
                assert forall|j: int| 0 <= j < c.slots.len() implies (#[trigger] c.slots@[j]).node.wf() && c.slots@[j].node.level == l as int by {
                    assert(oc.slots@[j].node == c.slots@[j].node);
                }
            }
            assert forall|l2: int| 0 <= l2 < NUM_LEVELS implies level_wf(#[trigger] self.levels@[l2], l2) by {
                if l2 != l {
                    assert(self.levels@[l2] == old(self).levels@[l2]);
                }
            }
            assert forall|l2: int, i2: int|
                0 <= l2 < old(self).levels.len() && 0 <= i2 < old(self).levels@[l2].slots.len() implies (#[trigger] slot_at(
                    old(self),
                    l2,
                    i2,
                )).valid.bits & !slot_at(self, l2, i2).valid.bits == 0 by {
                if l2 != l || i2 != i {
                    let w = slot_at(self, l2, i2).valid.bits;
                    assert(w & !w == 0) by (bit_vector);
                }
            }
        }
    }

    /// A cache with the given layer and mesh tables, per-level capacities and generator
    /// list; `None` where a table is not one entry per kind in kind order with level ranges
    /// inside the tree, the capacities are not one per level or overflow a slot index, or
    /// there are more than 64 generators.
    pub fn new(
        layers: Vec<LayerParams>,
        meshes: Vec<MeshParams>,
        capacities: Vec<usize>,
        generators: Vec<GeneratorDesc>,
        readback_max_level: u8,
    ) -> (r: Option<TileCache>)
        ensures
            r matches Some(c) ==> {
                &&& c.wf()
                &&& c.layers@ == layers@
                &&& c.meshes@ == meshes@
                &&& c.generators@ == generators@
                &&& c.num_inflight == 0
                &&& c.readback_max_level == readback_max_level
                &&& forall|l: int| 0 <= l < NUM_LEVELS ==> (#[trigger] c.levels@[l]).size == capacities@[l]
                    && c.levels@[l].slots.len() == 0 && c.levels@[l].missing.len() == 0
            },
            r is None <==> !(layers.len() == NUM_LAYER_TYPES && (forall|i: int|
                0 <= i < NUM_LAYER_TYPES ==> (#[trigger] layers@[i]).layer_type.spec_index() == i
                    && layers@[i].min_level <= layers@[i].max_level <= MAX_QUADTREE_LEVEL)
                && meshes.len() == NUM_MESH_TYPES && (forall|i: int|
                0 <= i < NUM_MESH_TYPES ==> (#[trigger] meshes@[i]).ty.spec_index() == i
                    && meshes@[i].min_level <= meshes@[i].max_level <= MAX_QUADTREE_LEVEL)
                && capacities.len() == NUM_LEVELS && capacities_fit(capacities@, NUM_LEVELS as nat)
                && generators.len() <= 64),
    {
        if layers.len() != NUM_LAYER_TYPES || capacities.len() != NUM_LEVELS || generators.len() > 64 {
            return None;
        }
        let mut i: usize = 0;
        while i < NUM_LAYER_TYPES
            invariant
                0 <= i <= NUM_LAYER_TYPES,
                layers.len() == NUM_LAYER_TYPES,
                forall|j: int|
                    0 <= j < i ==> (#[trigger] layers@[j]).layer_type.spec_index() == j
                        && layers@[j].min_level <= layers@[j].max_level <= MAX_QUADTREE_LEVEL,
            decreases NUM_LAYER_TYPES - i,
        {
            if layers[i].layer_type.index() != i || layers[i].min_level > layers[i].max_level
                || layers[i].max_level > MAX_QUADTREE_LEVEL {
                return None;
            }
            i = i + 1;
        }
        if meshes.len() != NUM_MESH_TYPES {
            return None;
        }
        let mut i: usize = 0;
        while i < NUM_MESH_TYPES
            invariant
                0 <= i <= NUM_MESH_TYPES,
                meshes.len() == NUM_MESH_TYPES,
                forall|j: int|
                    0 <= j < i ==> (#[trigger] meshes@[j]).ty.spec_index() == j
                        && meshes@[j].min_level <= meshes@[j].max_level <= MAX_QUADTREE_LEVEL,
            decreases NUM_MESH_TYPES - i,
        {
            let ty_index: usize = match meshes[i].ty {
                MeshType::Grass => 0,
                MeshType::Terrain => 1,
                MeshType::TreeBillboards => 2,
            };
            if ty_index != i || meshes[i].min_level > meshes[i].max_level || meshes[i].max_level > MAX_QUADTREE_LEVEL {
                return None;
            }
            i = i + 1;
        }
        let mut levels: Vec<tile_cache::TileCache> = Vec::new();
        let mut base_slots: Vec<usize> = Vec::new();
        let mut base: usize = 0;
        let mut l: usize = 0;
        while l < NUM_LEVELS
            invariant
                0 <= l <= NUM_LEVELS,
                capacities.len() == NUM_LEVELS,
                levels.len() == l,
                base_slots.len() == l,
                base as int == capacity_sum(capacities@, l as nat),
                capacities_fit(capacities@, l as nat),
                forall|j: int| 0 <= j < l ==> level_wf(#[trigger] levels@[j], j) && levels@[j].size == capacities@[j]
                    && levels@[j].slots.len() == 0 && levels@[j].missing.len() == 0,
                forall|j: int| 0 <= j < l ==> #[trigger] base_slots@[j] + levels@[j].size <= usize::MAX,
            decreases NUM_LEVELS - l,
        {
            if capacities[l] > usize::MAX - base {
                proof {
                    if capacities_fit(capacities@, NUM_LEVELS as nat) {
                        assert(capacity_sum(capacities@, (l + 1) as nat) <= usize::MAX);
                    }
                }
                return None;
            }
            levels.push(tile_cache::TileCache::new(capacities[l], 0));
            base_slots.push(base);
            base = base + capacities[l];
            proof {
                assert(capacity_sum(capacities@, (l + 1) as nat) == base);
                assert forall|j: nat| j <= (l + 1) as nat implies #[trigger] capacity_sum(capacities@, j) <= usize::MAX by {
                    if j <= l as nat {
                        assert(capacity_sum(capacities@, j) <= usize::MAX);
                    }
                }
            }
            l = l + 1;
        }
        Some(TileCache {
            layers,
            meshes,
            levels,
            base_slots,
            generators,
            num_inflight: 0,
            free_download_buffers: 0,
            total_download_buffers: 0,
            readback_max_level,
        })
    }

    /// Records `(priority, node)` for admission at `node`'s level, as the level's
    /// `add_missing` does.
    pub fn add_missing(&mut self, priority: Priority, node: VNode)
        requires
            old(self).wf(),
            node.wf(),
        ensures
            final(self).wf(),
            final(self).levels.len() == old(self).levels.len(),
            forall|l: int| 0 <= l < NUM_LEVELS && l != node.level ==> #[trigger] final(self).levels@[l] == old(self).levels@[l],
            admits(old(self).levels@[node.level as int], (priority, node)) ==> final(self).levels@[node.level as int].missing@
                == old(self).levels@[node.level as int].missing@.push((priority, node)),
            !admits(old(self).levels@[node.level as int], (priority, node)) ==> final(self).levels@[node.level as int].missing@
                == old(self).levels@[node.level as int].missing@,
            final(self).levels@[node.level as int].slots@ == old(self).levels@[node.level as int].slots@,
    {
        let l = node.level as usize;
        self.levels[l].add_missing((priority, node));
        proof {
            assert forall|l2: int| 0 <= l2 < NUM_LEVELS implies level_wf(#[trigger] self.levels@[l2], l2) by {
                if l2 == l {
                    let c = self.levels@[l2];
                    let oc = old(self).levels@[l2];
                    assert forall|k: int| 0 <= k < c.missing.len() implies (#[trigger] c.missing@[k]).1.wf() && c.missing@[k].1.level == l2 by {
                        if k < oc.missing.len() {
                            assert(c.missing@[k] == oc.missing@[k]);
                        }
                    }
                    assert forall|j: int| 0 <= j < c.slots.len() implies (#[trigger] c.slots@[j]).node.wf() && c.slots@[j].node.level == l2 by {
                        assert(c.slots@[j] == oc.slots@[j]);
                    }
                }
            }
            assert forall|l2: int| 0 <= l2 < NUM_LEVELS implies #[trigger] self.base_slots@[l2] + self.levels@[l2].size <= usize::MAX by {
                assert(self.base_slots@[l2] + old(self).levels@[l2].size <= usize::MAX);
            }
        }
    }

    /// Runs the replacement pass on every level.
    pub fn load_missing(&mut self)
        requires
            old(self).wf(),
        ensures
            final(self).wf(),
            final(self).levels.len() == old(self).levels.len(),
            forall|l: int| 0 <= l < NUM_LEVELS ==> loaded(old(self).levels@[l], #[trigger] final(self).levels@[l]),
    {
        let mut l: usize = 0;
        while l < NUM_LEVELS
            invariant
                0 <= l <= NUM_LEVELS,
                self.wf(),
                self.layers@ == old(self).layers@,
                self.base_slots@ == old(self).base_slots@,
                self.levels.len() == old(self).levels.len(),
                forall|j: int| 0 <= j < l ==> loaded(old(self).levels@[j], #[trigger] self.levels@[j]),
                forall|j: int| l <= j < NUM_LEVELS ==> #[trigger] self.levels@[j] == old(self).levels@[j],
            decreases NUM_LEVELS - l,
        {
            let ghost before = self.levels@[l as int];
            self.levels[l].load_missing();
            proof {
                let c = self.levels@[l as int];
                assert(loaded(before, c));
                assert(level_wf(before, l as int));
                assert forall|j: int| 0 <= j < c.slots.len() implies (#[trigger] c.slots@[j]).node.wf() && c.slots@[j].node.level == l as int by {
                    assert(came_from(c.slots@[j], j, before.slots@, before.missing@));
                    if !(j < before.slots.len() && c.slots@[j] == before.slots@[j]) {
                        let k = choose|k: int| 0 <= k < before.missing.len() && is_fresh_entry(c.slots@[j], (#[trigger] before.missing@[k]).0, before.missing@[k].1);
                        assert(before.missing@[k].1.wf());
                    } else {
                        assert(before.slots@[j].node.wf());
                    }
                }
                assert forall|l2: int| 0 <= l2 < NUM_LEVELS implies level_wf(#[trigger] self.levels@[l2], l2) by {
                    if l2 != l {
                        assert(self.levels@[l2] == old(self).levels@[l2] || loaded(old(self).levels@[l2], self.levels@[l2]));
                    }
                }
                assert forall|l2: int| 0 <= l2 < NUM_LEVELS implies #[trigger] self.base_slots@[l2] + self.levels@[l2].size <= usize::MAX by {
                    assert(self.base_slots@[l2] + old(self).levels@[l2].size <= usize::MAX);
                }
            }
            l = l + 1;
        }
    }

    /// Replaces the CPU heightmap of slot `i` of level `l`.
    pub(crate) fn set_heightmap_at(&mut self, l: usize, i: usize, h: Option<CpuHeightmap>)
        requires
            old(self).wf(),
            l < NUM_LEVELS,
            i < old(self).levels@[l as int].slots.len(),
        ensures
            final(self).wf(),
            same_shape(old(self), final(self)),
            same_valid(old(self), final(self)),
            final(self).num_inflight == old(self).num_inflight,
            final(self).free_download_buffers == old(self).free_download_buffers,
            final(self).total_download_buffers == old(self).total_download_buffers,
            slot_at(final(self), l as int, i as int).heightmap == h,
            slot_at(final(self), l as int, i as int).streaming == slot_at(old(self), l as int, i as int).streaming,
            slot_at(final(self), l as int, i as int).generators == slot_at(old(self), l as int, i as int).generators,
            forall|l2: int, i2: int|
                0 <= l2 < NUM_LEVELS && 0 <= i2 < final(self).levels@[l2].slots.len() && (l2 != l
                    || i2 != i) ==> #[trigger] slot_at(final(self), l2, i2) == slot_at(old(self), l2, i2),
    {
        self.levels[l].slots[i].heightmap = h;
        proof {
            let c = self.levels@[l as int];
            let oc = old(self).levels@[l as int];
            assert(c.slots.len() == oc.slots.len());
            assert forall|j: int| 0 <= j < c.slots.len() && j != i implies c.slots@[j] == oc.slots@[j] by {}
            assert forall|a: int, b: int|
                0 <= a < c.slots.len() && 0 <= b < c.slots.len() && a != b implies
                #[trigger] c.slots@[a].node != #[trigger] c.slots@[b].node by {
                assert(oc.slots@[a].node != oc.slots@[b].node);
            }
            assert forall|k: int| 0 <= k < c.missing.len() implies !c.holds(#[trigger] c.missing@[k].1) by {
                if c.holds(c.missing@[k].1) {
                    let j = choose|j: int| 0 <= j < c.slots.len() && #[trigger] c.slots@[j].node == c.missing@[k].1;
                    assert(oc.slots@[j].node == c.slots@[j].node);
                    assert(oc.holds(oc.missing@[k].1));
                }
            }
            assert forall|j: int| 0 <= j < c.slots.len() implies (#[trigger] c.slots@[j]).masks_disjoint() by {
                assert(oc.slots@[j].masks_disjoint());
            }
            assert(level_wf(c, l as int)) by {
                assert forall|j: int| 0 <= j < c.slots.len() implies (#[trigger] c.slots@[j]).node.wf() && c.slots@[j].node.level == l as int by {
                    assert(oc.slots@[j].node == c.slots@[j].node);
                }
            }
            assert forall|l2: int| 0 <= l2 < NUM_LEVELS implies level_wf(#[trigger] self.levels@[l2], l2) by {
                if l2 != l {
                    assert(self.levels@[l2] == old(self).levels@[l2]);
                }
            }
        }
    }

    /// A streamed layer of `node` arrived. The request is no longer in flight. Where the
    /// node is still resident it stops streaming the layer, the layer becomes valid where
    /// its level range holds the node's level, and non-empty heights become the node's
    /// CPU heightmap.
    pub fn complete_streaming(&mut self, node: VNode, layer: LayerType, heights: Vec<i16>)
        requires
            old(self).wf(),
            old(self).num_inflight > 0,
        ensures
            streaming_completed(old(self), final(self), node, layer, heights@),
    {
        self.num_inflight = self.num_inflight - 1;
        let pos = self.position(node);
        if pos.is_none() {
            return;
        }
        let i = pos.unwrap();
        let l = node.level as usize;
        let li = layer.index();
        let b = layer.bit_mask();
        let e_valid = self.levels[l].slots[i].valid;
        let e_streaming = self.levels[l].slots[i].streaming;
        let legal = self.layers[li].min_level <= node.level && node.level <= self.layers[li].max_level;
        let new_valid = if legal { e_valid.union(b) } else { e_valid };
        let new_streaming = e_streaming.difference(b);
        proof {
            let v = e_valid.bits;
            let st = e_streaming.bits;
            let bb = b.bits;
            assert(slot_at(self, l as int, i as int).masks_disjoint());
            assert(v & st == 0 ==> (v | bb) & (st & !bb) == 0) by (bit_vector);
            assert(v & st == 0 ==> v & (st & !bb) == 0) by (bit_vector);
        }
        let ghost s0 = *self;
        self.set_masks(l, i, new_valid, new_streaming);
        let ghost s1 = *self;
        if heights.len() > 0 {
            let h = heightmap_of(heights);
            self.set_heightmap_at(l, i, Some(h));
        }
        proof {
            lemma_same_nodes(&s0, self, l as int);
            lemma_entry_index(s0.levels@[l as int], self.levels@[l as int], node, i as int);
            lemma_entry_index(old(self).levels@[l as int], s0.levels@[l as int], node, i as int);
        }
    }

    /// A heightmap readback finished: its buffer returns to the free pool, and where `node`
    /// is still resident and `heights` is not empty they become its CPU heightmap.
    pub fn complete_download(&mut self, node: VNode, heights: Vec<i16>)
        requires
            old(self).wf(),
            old(self).free_download_buffers < old(self).total_download_buffers,
        ensures
            final(self).wf(),
            same_shape(old(self), final(self)),
            same_valid(old(self), final(self)),
            final(self).free_download_buffers == old(self).free_download_buffers + 1,
            final(self).num_inflight == old(self).num_inflight,
            !(old(self).resident(node) && heights.len() > 0) ==> final(self).levels@ == old(self).levels@,
            forall|l: int, i: int|
                0 <= l < NUM_LEVELS && 0 <= i < old(self).levels@[l].slots.len() && slot_at(old(self), l, i).node != node
                    ==> #[trigger] slot_at(final(self), l, i) == slot_at(old(self), l, i),
            old(self).resident(node) && heights.len() > 0 ==> {
                let e0 = entry_of(old(self).levels@[node.level as int], node);
                let e1 = entry_of(final(self).levels@[node.level as int], node);
                &&& e1.heightmap matches Some(h) && h.heights@ == heights@ && h.min == seq_min(heights@) && h.max == seq_max(heights@)
                &&& e1.valid == e0.valid
                &&& e1.streaming == e0.streaming
                &&& e1.generators == e0.generators
            },
    {
        self.free_download_buffers = self.free_download_buffers + 1;
        proof {
            lemma_shape_refl(self);
        }
        if heights.len() == 0 {
            return;
        }
        match self.position(node) {
            None => {},
            Some(i) => {
                let l = node.level as usize;
                let h = heightmap_of(heights);
                let ghost s0 = *self;
                self.set_heightmap_at(l, i, Some(h));
                proof {
                    lemma_same_nodes(&s0, self, l as int);
                    lemma_entry_index(s0.levels@[l as int], self.levels@[l as int], node, i as int);
                    assert forall|l2: int, i2: int|
                        0 <= l2 < NUM_LEVELS && 0 <= i2 < old(self).levels@[l2].slots.len() && slot_at(old(self), l2, i2).node != node
                            implies #[trigger] slot_at(self, l2, i2) == slot_at(old(self), l2, i2) by {
                        assert(slot_at(&s0, l2, i2) == slot_at(old(self), l2, i2));
                    }
                }
            },
        }
    }

    /// A conservative height range for `node`: from the nearest resident ancestor-or-self
    /// with a CPU heightmap, its minimum (capped at 0) and its maximum raised by 6000;
    /// `(0, 9000)` where none has one.
    pub open spec fn height_range_spec(&self, n: VNode) -> (i32, i32)
        decreases n.level,
    {
        if self.resident(n) && entry_of(self.levels@[n.level as int], n).heightmap is Some {
            let h = entry_of(self.levels@[n.level as int], n).heightmap->Some_0;
            (if h.min < 0 { h.min as i32 } else { 0i32 }, (h.max as i32 + 6000) as i32)
        } else if n.level == 0 {
            (0i32, 9000i32)
        } else {
            self.height_range_spec(n.spec_parent())
        }
    }

    pub fn get_height_range(&self, node: VNode) -> (r: (i32, i32))
        requires
            self.wf(),
            node.wf(),
        ensures
            r == self.height_range_spec(node),
    {
        let mut n = node;
        loop
            invariant
                self.wf(),
                n.wf(),
                self.height_range_spec(n) == self.height_range_spec(node),
            decreases n.level,
        {
            match self.position(n) {
                Some(i) => {
                    match &self.levels[n.level as usize].slots[i].heightmap {
                        Some(h) => {
                            let lo: i32 = if h.min < 0 { h.min as i32 } else { 0 };
                            return (lo, h.max as i32 + 6000);
                        },
                        None => {},
                    }
                },
                None => {},
            }
            match n.parent() {
                Some(p) => {
                    n = p.0;
                },
                None => {
                    return (0, 9000);
                },
            }
        }
    }

    /// Sets the priorities of the slots of level `level`, as the level's
    /// `update_priorities` does.
    pub fn update_priorities(&mut self, level: usize, priorities: &Vec<Priority>)
        requires
            old(self).wf(),
            level < NUM_LEVELS,
            priorities.len() == old(self).levels@[level as int].slots.len(),
        ensures
            final(self).wf(),
            final(self).levels.len() == old(self).levels.len(),
            forall|l: int| 0 <= l < NUM_LEVELS && l != level ==> #[trigger] final(self).levels@[l] == old(self).levels@[l],
            forall|i: int| 0 <= i < priorities.len() ==> (#[trigger] final(self).levels@[level as int].slots@[i]).priority == priorities@[i]
                && final(self).levels@[level as int].slots@[i].node == old(self).levels@[level as int].slots@[i].node
                && final(self).levels@[level as int].slots@[i].valid == old(self).levels@[level as int].slots@[i].valid,
            final(self).levels@[level as int].slots.len() == old(self).levels@[level as int].slots.len(),
    {
        self.levels[level].update_priorities(priorities);
        proof {
            assert forall|l2: int| 0 <= l2 < NUM_LEVELS implies level_wf(#[trigger] self.levels@[l2], l2) by {
                if l2 == level {
                    let c = self.levels@[l2];
                    let oc = old(self).levels@[l2];
                    assert forall|j: int| 0 <= j < c.slots.len() implies (#[trigger] c.slots@[j]).node.wf() && c.slots@[j].node.level == l2 by {
                        assert(c.slots@[j].node == oc.slots@[j].node);
                    }
                    assert forall|k: int| 0 <= k < c.missing.len() implies (#[trigger] c.missing@[k]).1.wf() && c.missing@[k].1.level == l2 by {
                        assert(c.missing@[k] == oc.missing@[k]);
                    }
                }
            }
            assert forall|l2: int| 0 <= l2 < NUM_LEVELS implies #[trigger] self.base_slots@[l2] + self.levels@[l2].size <= usize::MAX by {
                assert(self.base_slots@[l2] + old(self).levels@[l2].size <= usize::MAX);
            }
        }
    }

    /// Slot `i` of level `l` is one a dynamic generator with these parameters refreshes.
    pub open spec fn dynamic_slot(&self, l: int, i: int, dependencies: LayerMask, min_level: u8, max_level: u8) -> bool {
        &&& min_level <= l <= max_level
        &&& 0 <= i < self.levels@[l].slots.len()
        &&& slot_at(self, l, i).priority.key >= spec_cutoff().key
        &&& dependencies.bits & !slot_at(self, l, i).valid.bits == 0
    }

    /// Global slot `s` is that of a slot a dynamic generator with these parameters refreshes.
    pub open spec fn dynamic_global_slot(&self, s: usize, dependencies: LayerMask, min_level: u8, max_level: u8) -> bool {
        exists|l: int, i: int|
            #[trigger] self.dynamic_slot(l, i, dependencies, min_level, max_level) && s == self.base_slots@[l] + i
    }

    /// Global slots, in level order, of the entries at levels `min_level..=max_level`
    /// that reach the cutoff and hold every layer of `dependencies`: the nodes a dynamic
    /// generator refreshes this frame.
    pub fn dynamic_generator_slots(&self, dependencies: LayerMask, min_level: u8, max_level: u8) -> (r: Vec<usize>)
        requires
            self.wf(),
            max_level <= MAX_QUADTREE_LEVEL,
        ensures
            forall|k: int| 0 <= k < r.len() ==> self.dynamic_global_slot(#[trigger] r@[k], dependencies, min_level, max_level),
            forall|l: int, i: int| #[trigger] self.dynamic_slot(l, i, dependencies, min_level, max_level) ==> exists|k: int|
                0 <= k < r.len() && r@[k] == self.base_slots@[l] + i,
    {
        let mut r: Vec<usize> = Vec::new();
        if min_level > max_level {
            return r;
        }
        let cutoff = Priority::cutoff();
        let mut l: u8 = min_level;
        while l <= max_level
            invariant
                self.wf(),
                max_level <= MAX_QUADTREE_LEVEL,
                min_level <= l <= max_level + 1,
                cutoff == spec_cutoff(),
                forall|k: int| 0 <= k < r.len() ==> self.dynamic_global_slot(#[trigger] r@[k], dependencies, min_level, max_level),
                forall|l2: int, i: int| l2 < l && #[trigger] self.dynamic_slot(l2, i, dependencies, min_level, max_level) ==> exists|k: int|
                    0 <= k < r.len() && r@[k] == self.base_slots@[l2] + i,
            decreases max_level + 1 - l,
        {
            let base = self.base_slots[l as usize];
            let n = self.levels[l as usize].slots.len();
            let mut i: usize = 0;
            while i < n
                invariant
                    self.wf(),
                    max_level <= MAX_QUADTREE_LEVEL,
                    min_level <= l <= max_level,
                    base == self.base_slots@[l as int],
                    cutoff == spec_cutoff(),
                    n == self.levels@[l as int].slots.len(),
                    0 <= i <= n,
                    forall|k: int| 0 <= k < r.len() ==> self.dynamic_global_slot(#[trigger] r@[k], dependencies, min_level, max_level),
                    forall|l2: int, i2: int| (l2 < l || (l2 == l && i2 < i)) && #[trigger] self.dynamic_slot(l2, i2, dependencies, min_level, max_level)
                        ==> exists|k: int| 0 <= k < r.len() && r@[k] == self.base_slots@[l2] + i2,
                decreases n - i,
            {
                let e = &self.levels[l as usize].slots[i];
                let ghost r0 = r@;
                if e.priority.key >= cutoff.key && dependencies.bits & !e.valid.bits == 0 {
                    r.push(base + i);
                    proof {
                        assert(e.priority == slot_at(self, l as int, i as int).priority);
                        assert(cutoff == spec_cutoff());
                        assert(0 <= i < self.levels@[l as int].slots.len());
                        assert(self.dynamic_slot(l as int, i as int, dependencies, min_level, max_level));
                        assert forall|l2: int, i2: int| (l2 < l || (l2 == l && i2 < i + 1)) && #[trigger] self.dynamic_slot(l2, i2, dependencies, min_level, max_level)
                            implies exists|k: int| 0 <= k < r.len() && r@[k] == self.base_slots@[l2] + i2 by {
                            if l2 == l && i2 == i {
                                assert(r@[r.len() - 1] == self.base_slots@[l2] + i2);
                            } else {
                                let k0 = choose|k: int| 0 <= k < r0.len() && r0[k] == self.base_slots@[l2] + i2;
                                assert(r@[k0] == r0[k0]);
                            }
                        }
                        assert forall|k: int| 0 <= k < r.len() implies self.dynamic_global_slot(#[trigger] r@[k], dependencies, min_level, max_level) by {
                            if k < r.len() - 1 {
                                assert(r@[k] == r@.drop_last()[k]);
                            } else {
                                assert(self.dynamic_slot(l as int, i as int, dependencies, min_level, max_level)
                                    && r@[k] == self.base_slots@[l as int] + i);
                            }
                        }
                    }
                } else {
                    proof {
                        assert(e.priority == slot_at(self, l as int, i as int).priority);
                        assert(e.valid == slot_at(self, l as int, i as int).valid);
                        assert(!self.dynamic_slot(l as int, i as int, dependencies, min_level, max_level));
                    }
                }
                i = i + 1;
            }
            l = l + 1;
        }
        r
    }

    /// Layer `li` of slot `i` of level `l` is to be generated: the level is in the layer's
    /// range and generated rather than streamed, and the layer is neither valid nor streaming.
    pub open spec fn layer_candidate(&self, l: int, i: int, li: int) -> bool {
        let p = self.layers@[li];
        let e = slot_at(self, l, i);
        &&& in_range(p, l)
        &&& l >= p.streamed_levels
        &&& (e.valid.bits | e.streaming.bits) & layer_bit(li as nat) == 0
    }

    /// Mesh kind `mi` of slot `i` of level `l` is to be generated.
    pub open spec fn mesh_candidate(&self, l: int, i: int, mi: int) -> bool {
        let m = self.meshes@[mi];
        &&& m.min_level <= l <= m.max_level
        &&& slot_at(self, l, i).valid.bits & layer_bit(MESH_BIT_OFFSET as nat + mi as nat) == 0
    }

    /// Slot `i` of level `l` holds a node worth holding that lacks a generated layer or mesh.
    pub open spec fn candidate_slot(&self, l: int, i: int) -> bool {
        &&& 0 <= l < NUM_LEVELS
        &&& 0 <= i < self.levels@[l].slots.len()
        &&& slot_at(self, l, i).priority.key > spec_cutoff().key
        &&& (exists|li: int| 0 <= li < NUM_LAYER_TYPES && #[trigger] self.layer_candidate(l, i, li))
            || (exists|mi: int| 0 <= mi < NUM_MESH_TYPES && #[trigger] self.mesh_candidate(l, i, mi))
    }

    /// Samples per side of layer `ty`'s tiles.
    pub fn resolution(&self, ty: LayerType) -> (r: u32)
        requires
            self.wf(),
        ensures
            r == self.layers@[ty.spec_index() as int].texture_resolution,
    {
        self.layers[ty.index()].texture_resolution
    }

    /// Blocks per side of layer `ty`'s tiles, for a layer with a single format whose
    /// block size divides the resolution.
    pub fn resolution_blocks(&self, ty: LayerType) -> (r: u32)
        requires
            self.wf(),
            self.layers@[ty.spec_index() as int].texture_format.len() == 1,
            self.layers@[ty.spec_index() as int].texture_resolution as int % self.block_of(ty) == 0,
        ensures
            r as int == self.blocks_of(ty),
    {
        let p = &self.layers[ty.index()];
        let block_size = p.texture_format[0].block_size();
        p.texture_resolution / block_size
    }

    /// Texels along a block of layer `ty`'s first format.
    pub open spec fn block_of(&self, ty: LayerType) -> int {
        if self.layers@[ty.spec_index() as int].texture_format@[0].spec_is_compressed() {
            4
        } else {
            1
        }
    }

    /// Blocks along a side of layer `ty`'s tiles.
    pub open spec fn blocks_of(&self, ty: LayerType) -> int {
        self.layers@[ty.spec_index() as int].texture_resolution as int / self.block_of(ty)
    }

    /// Bytes of one whole tile of layer `ty`.
    pub open spec fn tile_bytes(&self, ty: LayerType) -> int {
        self.blocks_of(ty) * self.layers@[ty.spec_index() as int].texture_format@[0].spec_bytes_per_block() * self.blocks_of(ty)
    }

    /// The bytes of a streamed tile of layer `ty` as they are uploaded: as received, or
    /// zeros for a whole tile where nothing was received.
    pub fn tile_upload_data(&self, ty: LayerType, data: Vec<u8>) -> (r: Vec<u8>)
        requires
            self.wf(),
            self.layers@[ty.spec_index() as int].texture_format.len() == 1,
            self.layers@[ty.spec_index() as int].texture_resolution as int % self.block_of(ty) == 0,
            self.tile_bytes(ty) <= usize::MAX,
        ensures
            data.len() > 0 ==> r@ == data@,
            data.len() == 0 ==> r.len() == self.tile_bytes(ty) && forall|k: int| 0 <= k < r.len() ==> #[trigger] r@[k] == 0,
    {
        if data.len() > 0 {
            return data;
        }
        let blocks = self.resolution_blocks(ty) as usize;
        let bytes_per_block = self.layers[ty.index()].texture_format[0].bytes_per_block();
        proof {
            assert(blocks * bytes_per_block <= blocks * bytes_per_block * blocks || blocks == 0) by (nonlinear_arith);
        }
        let row = if blocks == 0 { 0 } else { blocks * bytes_per_block };
        let len = row * blocks;
        let mut r: Vec<u8> = Vec::new();
        let mut k: usize = 0;
        while k < len
            invariant
                0 <= k <= len,
                r.len() == k,
                forall|j: int| 0 <= j < k ==> #[trigger] r@[j] == 0,
            decreases len - k,
        {
            r.push(0);
            k = k + 1;
        }
        r
    }

    /// Bytes between rows of a heightmap readback: a row of layer `Heightmaps`' first
    /// format, rounded up to a multiple of 256.
    pub fn readback_row_pitch(&self) -> (r: u64)
        requires
            self.wf(),
            self.layers@[0].texture_format.len() >= 1,
        ensures
            ({
                let p = self.layers@[0];
                let row = p.texture_resolution * p.texture_format@[0].spec_bytes_per_block();
                &&& r % 256 == 0
                &&& row <= r < row + 256
            }),
    {
        let p = &self.layers[LayerType::Heightmaps.index()];
        let bpb = p.texture_format[0].bytes_per_block() as u64;
        proof {
            assert((p.texture_resolution as int) * (bpb as int) <= 4294967295 * 16) by (nonlinear_arith)
                requires
                    p.texture_resolution <= 4294967295,
                    bpb <= 16,
            ;
        }
        let row_bytes: u64 = (p.texture_resolution as u64) * bpb;
        ((row_bytes + 255) / 256) * 256
    }

    /// Generator `gi` changed: every layer that it produced, directly or through an input,
    /// stops being valid everywhere, so that it is generated again.
    pub fn invalidate_generator(&mut self, gi: usize)
        requires
            old(self).wf(),
            gi < 64,
        ensures
            final(self).wf(),
            same_shape(old(self), final(self)),
            same_streaming(old(self), final(self)),
            final(self).num_inflight == old(self).num_inflight,
            forall|l: int, i: int|
                0 <= l < NUM_LEVELS && 0 <= i < old(self).levels@[l].slots.len() ==> (#[trigger] slot_at(final(self), l, i)).valid.bits
                    == slot_at(old(self), l, i).valid.bits & !produced_by(
                    vec_map_contents(slot_at(old(self), l, i).generators),
                    generator_bit(gi as nat),
                    NUM_LAYER_TYPES as nat,
                ),
    {
        let g = GeneratorMask::from_index(gi);
        proof {
            lemma_shape_refl(self);
        }
        let mut l: usize = 0;
        while l < NUM_LEVELS
            invariant
                self.wf(),
                0 <= l <= NUM_LEVELS,
                g.bits == generator_bit(gi as nat),
                same_shape(old(self), self),
                self.num_inflight == old(self).num_inflight,
                forall|l2: int, i2: int|
                    0 <= l2 < NUM_LEVELS && 0 <= i2 < old(self).levels@[l2].slots.len() ==> {
                        &&& (#[trigger] slot_at(self, l2, i2)).streaming == slot_at(old(self), l2, i2).streaming
                        &&& slot_at(self, l2, i2).generators == slot_at(old(self), l2, i2).generators
                        &&& l2 < l ==> slot_at(self, l2, i2).valid.bits == slot_at(old(self), l2, i2).valid.bits & !produced_by(
                            vec_map_contents(slot_at(old(self), l2, i2).generators),
                            g.bits,
                            NUM_LAYER_TYPES as nat,
                        )
                        &&& l2 >= l ==> slot_at(self, l2, i2).valid == slot_at(old(self), l2, i2).valid
                    },
            decreases NUM_LEVELS - l,
        {
            let n = self.levels[l].slots.len();
            let mut i: usize = 0;
            while i < n
                invariant
                    self.wf(),
                    l < NUM_LEVELS,
                    0 <= i <= n,
                    n == self.levels@[l as int].slots.len(),
                    g.bits == generator_bit(gi as nat),
                    same_shape(old(self), self),
                    self.num_inflight == old(self).num_inflight,
                    forall|l2: int, i2: int|
                        0 <= l2 < NUM_LEVELS && 0 <= i2 < old(self).levels@[l2].slots.len() ==> {
                            &&& (#[trigger] slot_at(self, l2, i2)).streaming == slot_at(old(self), l2, i2).streaming
                            &&& slot_at(self, l2, i2).generators == slot_at(old(self), l2, i2).generators
                            &&& (l2 < l || (l2 == l && i2 < i)) ==> slot_at(self, l2, i2).valid.bits == slot_at(old(self), l2, i2).valid.bits & !produced_by(
                                vec_map_contents(slot_at(old(self), l2, i2).generators),
                                g.bits,
                                NUM_LAYER_TYPES as nat,
                            )
                            &&& (l2 > l || (l2 == l && i2 >= i)) ==> slot_at(self, l2, i2).valid == slot_at(old(self), l2, i2).valid
                        },
                decreases n - i,
            {
                let produced = self.levels[l].slots[i].layers_produced_by(g);
                let valid = self.levels[l].slots[i].valid;
                let streaming = self.levels[l].slots[i].streaming;
                proof {
                    let v = valid.bits;
                    let st = streaming.bits;
                    let pb = produced.bits;
                    assert(level_wf(self.levels@[l as int], l as int));
                    assert(self.levels@[l as int].slots@[i as int].masks_disjoint());
                    assert(v & st == 0 ==> (v & !pb) & st == 0) by (bit_vector);
                }
                let ghost before = *self;
                self.set_masks(l, i, valid.difference(produced), streaming);
                proof {
                    lemma_same_shape_trans(old(self), &before, self);
                }
                i = i + 1;
            }
            l = l + 1;
        }
        proof {
            assert forall|l2: int, i2: int|
                0 <= l2 < old(self).levels.len() && 0 <= i2 < old(self).levels@[l2].slots.len() implies (#[trigger] slot_at(
                    old(self),
                    l2,
                    i2,
                )).streaming == slot_at(self, l2, i2).streaming by {
                assert(slot_at(self, l2, i2).streaming == slot_at(old(self), l2, i2).streaming);
            }
        }
    }

    /// `n` is resident.
    pub open spec fn resident(&self, n: VNode) -> bool {
        n.level < NUM_LEVELS && self.levels@[n.level as int].holds(n)
    }

    /// `n` is resident and its layer `l` is valid.
    pub open spec fn has_layer(&self, n: VNode, l: LayerType) -> bool {
        self.resident(n) && entry_of(self.levels@[n.level as int], n).valid.has_layer(l)
    }

    /// Whether an ancestor-input layer `l` is available to `n`: never above the layer's
    /// shallowest level; at the node itself down to the layer's deepest level; below that,
    /// at the node's ancestor on the deepest level.
    pub open spec fn ancestor_layer_met(&self, n: VNode, l: LayerType) -> bool {
        let p = self.layers@[l.spec_index() as int];
        if n.level < p.min_level {
            false
        } else if n.level <= p.max_level {
            self.has_layer(n, l)
        } else {
            self.has_layer(n.spec_ancestor_at(p.max_level as nat), l)
        }
    }

    pub open spec fn ancestor_inputs_met_spec(&self, n: VNode, inputs: LayerMask) -> bool {
        forall|i: nat|
            i < NUM_LAYER_TYPES && inputs.has_bit(i) ==> self.ancestor_layer_met(
                n,
                #[trigger] LayerType::spec_from_index(i),
            )
    }

    /// The mesh kinds whose level range holds `level`, among the first `upto`.
    pub open spec fn mesh_mask_spec(&self, level: int, upto: nat) -> u32
        decreases upto,
    {
        if upto == 0 {
            0
        } else {
            let i = (upto - 1) as nat;
            let rest = self.mesh_mask_spec(level, i);
            let m = self.meshes@[i as int];
            if m.min_level <= level <= m.max_level {
                rest | layer_bit(MESH_BIT_OFFSET as nat + i)
            } else {
                rest
            }
        }
    }

    /// Everything a node at `level` may hold: the layers and mesh kinds whose level
    /// range holds `level`.
    pub open spec fn legal_mask(&self, level: int) -> u32 {
        self.level_mask_spec(level, NUM_LAYER_TYPES as nat) | self.mesh_mask_spec(level, NUM_MESH_TYPES as nat)
    }

    /// The layers whose level range holds `level`.
    pub open spec fn level_mask_spec(&self, level: int, upto: nat) -> u32
        decreases upto,
    {
        if upto == 0 {
            0
        } else {
            let i = (upto - 1) as nat;
            let rest = self.level_mask_spec(level, i);
            if in_range(self.layers@[i as int], level) {
                rest | layer_bit(i)
            } else {
                rest
            }
        }
    }

    /// Global slot and entry position of `n`, where it is resident.
    pub fn get_slot(&self, n: VNode) -> (r: Option<usize>)
        requires
            self.wf(),
        ensures
            r is Some <==> self.resident(n),
            r matches Some(s) ==> exists|i: int|
                0 <= i < self.levels@[n.level as int].slots.len() && #[trigger] slot_at(self, n.level as int, i).node == n
                    && s == self.base_slots@[n.level as int] + i,
    {
        if n.level as usize >= NUM_LEVELS {
            return None;
        }
        match self.levels[n.level as usize].slot_of(n) {
            Some(i) => {
                proof {
                    assert(slot_at(self, n.level as int, i as int).node == n);
                }
                Some(self.base_slots[n.level as usize] + i)
            },
            None => None,
        }
    }

    /// Position of `n` within its level, where it is resident.
    pub(crate) fn position(&self, n: VNode) -> (r: Option<usize>)
        requires
            self.wf(),
        ensures
            r is Some <==> self.resident(n),
            r matches Some(i) ==> i < self.levels@[n.level as int].slots.len()
                && self.levels@[n.level as int].slots@[i as int].node == n && entry_of(
                self.levels@[n.level as int],
                n,
            ) == self.levels@[n.level as int].slots@[i as int],
    {
        if n.level as usize >= NUM_LEVELS {
            return None;
        }
        let r = self.levels[n.level as usize].slot_of(n);
        proof {
            if let Some(i) = r {
                let c = self.levels@[n.level as int];
                let j = choose|j: int| 0 <= j < c.slots.len() && #[trigger] c.slots@[j].node == n;
                assert(c.slots@[j].node == c.slots@[i as int].node);
            }
        }
        r
    }

    /// Whether layer `l` of `n` is valid.
    pub fn contains(&self, n: VNode, l: LayerType) -> (r: bool)
        requires
            self.wf(),
        ensures
            r == self.has_layer(n, l),
    {
        match self.position(n) {
            Some(i) => self.levels[n.level as usize].slots[i].valid.contains_layer(l),
            None => false,
        }
    }

    /// Whether every layer of `mask` is valid at `n`.
    pub fn contains_all(&self, n: VNode, mask: LayerMask) -> (r: bool)
        requires
            self.wf(),
        ensures
            r == (self.resident(n) && mask.bits & !entry_of(
                self.levels@[n.level as int],
                n,
            ).valid.bits == 0),
    {
        match self.position(n) {
            Some(i) => self.levels[n.level as usize].slots[i].valid.contains_all(mask),
            None => false,
        }
    }

    /// Whether the ancestor-input layer `l` is available to `n`.
    pub fn ancestor_layer_available(&self, n: VNode, l: LayerType) -> (r: bool)
        requires
            self.wf(),
            n.wf(),
        ensures
            r == self.ancestor_layer_met(n, l),
    {
        let min_level = self.layers[l.index()].min_level;
        let max_level = self.layers[l.index()].max_level;
        if n.level < min_level {
            false
        } else if n.level <= max_level {
            self.contains(n, l)
        } else {
            let a = n.find_ancestor(max_level);
            self.contains(a, l)
        }
    }

    /// Whether every ancestor input in `inputs` is available to `n`.
    pub fn ancestor_inputs_met(&self, n: VNode, inputs: LayerMask) -> (r: bool)
        requires
            self.wf(),
            n.wf(),
        ensures
            r == self.ancestor_inputs_met_spec(n, inputs),
    {
        let mut i: usize = 0;
        while i < NUM_LAYER_TYPES
            invariant
                0 <= i <= NUM_LAYER_TYPES,
                self.wf(),
                n.wf(),
                forall|j: nat|
                    j < i && inputs.has_bit(j) ==> self.ancestor_layer_met(
                        n,
                        #[trigger] LayerType::spec_from_index(j),
                    ),
            decreases NUM_LAYER_TYPES - i,
        {
            let l = LayerType::from_index(i);
            if inputs.contains_layer(l) && !self.ancestor_layer_available(n, l) {
                return false;
            }
            i = i + 1;
        }
        true
    }

    /// The layers and mesh kinds whose level range holds `level`.
    pub fn level_mask(&self, level: u8) -> (r: LayerMask)
        requires
            self.wf(),
        ensures
            r.bits == self.legal_mask(level as int),
    {
        let mut bits: u32 = 0;
        let mut i: usize = 0;
        while i < NUM_LAYER_TYPES
            invariant
                0 <= i <= NUM_LAYER_TYPES,
                self.layers.len() == NUM_LAYER_TYPES,
                bits == self.level_mask_spec(level as int, i as nat),
            decreases NUM_LAYER_TYPES - i,
        {
            if self.layers[i].min_level <= level && level <= self.layers[i].max_level {
                bits = bits | (1u32 << (i as u32));
            }
            i = i + 1;
        }
        let mut mesh_bits: u32 = 0;
        let mut i: usize = 0;
        while i < NUM_MESH_TYPES
            invariant
                0 <= i <= NUM_MESH_TYPES,
                self.meshes.len() == NUM_MESH_TYPES,
                mesh_bits == self.mesh_mask_spec(level as int, i as nat),
            decreases NUM_MESH_TYPES - i,
        {
            if self.meshes[i].min_level <= level && level <= self.meshes[i].max_level {
                mesh_bits = mesh_bits | (1u32 << (MESH_BIT_OFFSET + i as u32));
            }
            i = i + 1;
        }
        LayerMask { bits: bits | mesh_bits }
    }
}

} // verus!
