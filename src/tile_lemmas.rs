//! Lemmas about how the cache's state evolves within a frame: what stays resident,
//! which bits only grow, and which facts survive those changes.

use vstd::prelude::*;
use crate::layer::{LayerMask, LayerType, NUM_LAYER_TYPES, layer_bit};
use crate::node::VNode;
use crate::tile::{valid_trace, provenance_trace, request_due, valid_before, provenance_before, ancestors_met_before, layer_met_before, task_fits, streaming_of, GenerateTask, MAX_INFLIGHT, NUM_LEVELS, NUM_MESH_TYPES, TileCache, entry_of, in_list, requests_ok, same_shape, same_streaming, same_valid, slot_at, streaming_grows, valid_grows};
use crate::tile_cache;
use crate::provenance::vec_map_contents;

verus! {

pub proof fn lemma_bits_subset_trans(a: u32, b: u32, c: u32)
    requires
        a & !b == 0,
        b & !c == 0,
    ensures
        a & !c == 0,
{
    assert(a & !b == 0 && b & !c == 0 ==> a & !c == 0) by (bit_vector);
}

pub proof fn lemma_bits_subset_keeps(a: u32, b: u32, m: u32)
    requires
        a & !b == 0,
    ensures
        a & m != 0 ==> b & m != 0,
        m & !a == 0 ==> m & !b == 0,
{
    assert(a & !b == 0 ==> (a & m != 0 ==> b & m != 0)) by (bit_vector);
    assert(a & !b == 0 ==> (m & !a == 0 ==> m & !b == 0)) by (bit_vector);
}

/// Where two levels hold the same nodes in the same slots, a node's entry sits at
/// the same slot in both.
pub proof fn lemma_entry_index(a: tile_cache::TileCache, b: tile_cache::TileCache, n: VNode, i: int)
    requires
        a.wf(),
        b.wf(),
        a.slots.len() == b.slots.len(),
        forall|j: int| 0 <= j < a.slots.len() ==> (#[trigger] a.slots@[j]).node == b.slots@[j].node,
        0 <= i < a.slots.len(),
        a.slots@[i].node == n,
    ensures
        entry_of(a, n) == a.slots@[i],
        entry_of(b, n) == b.slots@[i],
        b.holds(n),
{
    assert(b.slots@[i].node == n);
    let ja = choose|j: int| 0 <= j < a.slots.len() && #[trigger] a.slots@[j].node == n;
    let jb = choose|j: int| 0 <= j < b.slots.len() && #[trigger] b.slots@[j].node == n;
    assert(a.slots@[ja].node == a.slots@[i].node);
    assert(b.slots@[jb].node == b.slots@[i].node);
}

pub proof fn lemma_has_layer_grows(a: &TileCache, b: &TileCache, n: VNode, ly: LayerType)
    requires
        a.wf(),
        b.wf(),
        valid_grows(a, b),
        a.has_layer(n, ly),
    ensures
        b.has_layer(n, ly),
{
    let l = n.level as int;
    let c = a.levels@[l];
    let i = choose|i: int| 0 <= i < c.slots.len() && #[trigger] c.slots@[i].node == n;
    assert(slot_at(a, l, i).node == slot_at(b, l, i).node);
    assert forall|j: int| 0 <= j < c.slots.len() implies (#[trigger] c.slots@[j]).node
        == b.levels@[l].slots@[j].node by {
        assert(slot_at(a, l, j).node == slot_at(b, l, j).node);
    }
    lemma_entry_index(c, b.levels@[l], n, i);
    lemma_bits_subset_keeps(slot_at(a, l, i).valid.bits, slot_at(b, l, i).valid.bits, layer_bit(ly.spec_index()));
}

pub proof fn lemma_resident_same(a: &TileCache, b: &TileCache, n: VNode)
    requires
        a.wf(),
        b.wf(),
        same_shape(a, b),
    ensures
        a.resident(n) == b.resident(n),
{
    if n.level < NUM_LEVELS {
        let l = n.level as int;
        if a.resident(n) {
            let i = choose|i: int| 0 <= i < a.levels@[l].slots.len() && #[trigger] a.levels@[l].slots@[i].node == n;
            assert(slot_at(a, l, i).node == slot_at(b, l, i).node);
        }
        if b.resident(n) {
            let i = choose|i: int| 0 <= i < b.levels@[l].slots.len() && #[trigger] b.levels@[l].slots@[i].node == n;
            assert(slot_at(a, l, i).node == slot_at(b, l, i).node);
        }
    }
}

pub proof fn lemma_ancestor_grows(a: &TileCache, b: &TileCache, n: VNode, inputs: LayerMask)
    requires
        a.wf(),
        b.wf(),
        valid_grows(a, b),
        a.ancestor_inputs_met_spec(n, inputs),
    ensures
        b.ancestor_inputs_met_spec(n, inputs),
{
    assert forall|i: nat| i < NUM_LAYER_TYPES && inputs.has_bit(i) implies b.ancestor_layer_met(
        n,
        #[trigger] LayerType::spec_from_index(i),
    ) by {
        let ly = LayerType::spec_from_index(i);
        assert(a.ancestor_layer_met(n, ly));
        let p = a.layers@[ly.spec_index() as int];
        if n.level >= p.min_level {
            if n.level <= p.max_level {
                lemma_has_layer_grows(a, b, n, ly);
            } else {
                lemma_has_layer_grows(a, b, n.spec_ancestor_at(p.max_level as nat), ly);
            }
        }
    }
}

pub proof fn lemma_grows_trans(a: &TileCache, b: &TileCache, c: &TileCache)
    requires
        valid_grows(a, b),
        valid_grows(b, c),
    ensures
        valid_grows(a, c),
{
    assert forall|l: int, i: int|
        0 <= l < a.levels.len() && 0 <= i < a.levels@[l].slots.len() implies (#[trigger] slot_at(
            a,
            l,
            i,
        )).valid.bits & !slot_at(c, l, i).valid.bits == 0 by {
        assert(slot_at(a, l, i).valid.bits & !slot_at(b, l, i).valid.bits == 0);
        assert(slot_at(b, l, i).valid.bits & !slot_at(c, l, i).valid.bits == 0);
        lemma_bits_subset_trans(slot_at(a, l, i).valid.bits, slot_at(b, l, i).valid.bits, slot_at(c, l, i).valid.bits);
    }
    assert forall|l: int| 0 <= l < a.levels.len() implies (#[trigger] a.levels@[l]).size == c.levels@[l].size
        && a.levels@[l].missing@ == c.levels@[l].missing@
        && a.levels@[l].min_priority == c.levels@[l].min_priority
        && a.levels@[l].resolution == c.levels@[l].resolution
        && a.levels@[l].slots.len() == c.levels@[l].slots.len() by {
        assert(b.levels@[l].size == c.levels@[l].size);
    }
    assert forall|l: int, i: int|
        0 <= l < a.levels.len() && 0 <= i < a.levels@[l].slots.len() implies (#[trigger] slot_at(a, l, i)).node == slot_at(c, l, i).node
            && slot_at(a, l, i).priority == slot_at(c, l, i).priority by {
        assert(slot_at(b, l, i).node == slot_at(c, l, i).node);
    }
}

pub proof fn lemma_grows_refl(a: &TileCache)
    ensures
        valid_grows(a, a),
{
    assert forall|l: int, i: int|
        0 <= l < a.levels.len() && 0 <= i < a.levels@[l].slots.len() implies (#[trigger] slot_at(
            a,
            l,
            i,
        )).valid.bits & !slot_at(a, l, i).valid.bits == 0 by {
        let v = slot_at(a, l, i).valid.bits;
        assert(v & !v == 0) by (bit_vector);
    }
}

/// Levels of `a` and `b` hold the same nodes in the same slots.
pub proof fn lemma_same_nodes(a: &TileCache, b: &TileCache, l: int)
    requires
        same_shape(a, b),
        0 <= l < a.levels.len(),
    ensures
        a.levels@[l].slots.len() == b.levels@[l].slots.len(),
        forall|j: int| 0 <= j < a.levels@[l].slots.len() ==> (#[trigger] a.levels@[l].slots@[j]).node == b.levels@[l].slots@[j].node,
{
    assert forall|j: int| 0 <= j < a.levels@[l].slots.len() implies (#[trigger] a.levels@[l].slots@[j]).node == b.levels@[l].slots@[j].node by {
        assert(slot_at(a, l, j).node == slot_at(b, l, j).node);
    }
}

pub proof fn lemma_mesh_mask_same(a: &TileCache, b: &TileCache, level: int, upto: nat)
    requires
        a.meshes@ == b.meshes@,
    ensures
        a.mesh_mask_spec(level, upto) == b.mesh_mask_spec(level, upto),
    decreases upto,
{
    if upto > 0 {
        lemma_mesh_mask_same(a, b, level, (upto - 1) as nat);
    }
}

pub proof fn lemma_legal_mask_same(a: &TileCache, b: &TileCache, level: int)
    requires
        a.layers@ == b.layers@,
        a.meshes@ == b.meshes@,
    ensures
        a.legal_mask(level) == b.legal_mask(level),
{
    lemma_level_mask_same(a, b, level, NUM_LAYER_TYPES as nat);
    lemma_mesh_mask_same(a, b, level, NUM_MESH_TYPES as nat);
}

pub proof fn lemma_level_mask_same(a: &TileCache, b: &TileCache, level: int, upto: nat)
    requires
        a.layers@ == b.layers@,
    ensures
        a.level_mask_spec(level, upto) == b.level_mask_spec(level, upto),
    decreases upto,
{
    if upto > 0 {
        lemma_level_mask_same(a, b, level, (upto - 1) as nat);
    }
}

pub proof fn lemma_same_valid_grows(a: &TileCache, b: &TileCache)
    requires
        same_shape(a, b),
        same_valid(a, b),
    ensures
        valid_grows(a, b),
{
    assert forall|l: int, i: int|
        0 <= l < a.levels.len() && 0 <= i < a.levels@[l].slots.len() implies (#[trigger] slot_at(
            a,
            l,
            i,
        )).valid.bits & !slot_at(b, l, i).valid.bits == 0 by {
        let v = slot_at(a, l, i).valid.bits;
        assert(v & !v == 0) by (bit_vector);
    }
}

pub proof fn lemma_shape_trans(a: &TileCache, b: &TileCache, c: &TileCache)
    requires
        same_shape(a, b),
        same_shape(b, c),
        same_valid(a, b),
        same_valid(b, c),
    ensures
        same_shape(a, c),
        same_valid(a, c),
{
    assert forall|l: int| 0 <= l < a.levels.len() implies (#[trigger] a.levels@[l]).size == c.levels@[l].size
        && a.levels@[l].missing@ == c.levels@[l].missing@
        && a.levels@[l].min_priority == c.levels@[l].min_priority
        && a.levels@[l].resolution == c.levels@[l].resolution
        && a.levels@[l].slots.len() == c.levels@[l].slots.len() by {
        assert(b.levels@[l].size == c.levels@[l].size);
    }
    assert forall|l: int, i: int|
        0 <= l < a.levels.len() && 0 <= i < a.levels@[l].slots.len() implies (#[trigger] slot_at(a, l, i)).node == slot_at(c, l, i).node
            && slot_at(a, l, i).priority == slot_at(c, l, i).priority
            && slot_at(a, l, i).valid == slot_at(c, l, i).valid by {
        assert(slot_at(b, l, i).node == slot_at(c, l, i).node);
    }
}

pub proof fn lemma_shape_refl(a: &TileCache)
    ensures
        same_shape(a, a),
        same_valid(a, a),
{
}

pub proof fn lemma_requests_keep(a: &TileCache, b: &TileCache, r: Seq<(VNode, LayerType)>, from: int)
    requires
        a.wf(),
        b.wf(),
        same_shape(a, b),
        requests_ok(a, r, from),
    ensures
        requests_ok(b, r, from),
{
    assert forall|k: int| from <= k < r.len() implies b.resident((#[trigger] r[k]).0) by {
        lemma_resident_same(a, b, r[k].0);
    }
}

pub proof fn lemma_candidates_keep(a: &TileCache, b: &TileCache, cands: Seq<VNode>)
    requires
        a.wf(),
        b.wf(),
        same_shape(a, b),
        forall|k: int| 0 <= k < cands.len() ==> (#[trigger] cands[k]).wf() && a.resident(cands[k]),
    ensures
        forall|k: int| 0 <= k < cands.len() ==> (#[trigger] cands[k]).wf() && b.resident(cands[k]),
{
    assert forall|k: int| 0 <= k < cands.len() implies (#[trigger] cands[k]).wf() && b.resident(cands[k]) by {
        lemma_resident_same(a, b, cands[k]);
    }
}

pub proof fn lemma_in_list_push(r: Seq<VNode>, x: VNode)
    ensures
        in_list(r.push(x), x),
        forall|n: VNode| #[trigger] in_list(r, n) ==> in_list(r.push(x), n),
{
    assert(r.push(x)[r.len() as int] == x);
    assert forall|n: VNode| #[trigger] in_list(r, n) implies in_list(r.push(x), n) by {
        let k = choose|k: int| 0 <= k < r.len() && r[k] == n;
        assert(r.push(x)[k] == n);
    }
}

pub proof fn lemma_ready_grows(a: &TileCache, b: &TileCache, n: VNode, gi: int)
    requires
        a.wf(),
        b.wf(),
        valid_grows(a, b),
        a.generator_ready(n, gi),
    ensures
        b.generator_ready(n, gi),
{
    let l = n.level as int;
    let c = a.levels@[l];
    let i = choose|i: int| 0 <= i < c.slots.len() && #[trigger] c.slots@[i].node == n;
    lemma_same_nodes(a, b, l);
    lemma_entry_index(c, b.levels@[l], n, i);
    let g = a.generators@[gi];
    lemma_bits_subset_keeps(slot_at(a, l, i).valid.bits, slot_at(b, l, i).valid.bits, g.peer_inputs.bits);
    if n.level > 0 {
        let p = n.spec_parent();
        let pc = a.levels@[l - 1];
        let pi = choose|i: int| 0 <= i < pc.slots.len() && #[trigger] pc.slots@[i].node == p;
        lemma_same_nodes(a, b, l - 1);
        lemma_entry_index(pc, b.levels@[l - 1], p, pi);
        lemma_bits_subset_keeps(slot_at(a, l - 1, pi).valid.bits, slot_at(b, l - 1, pi).valid.bits, g.parent_inputs.bits);
    }
    lemma_ancestor_grows(a, b, n, g.ancestor_inputs);
}

pub proof fn lemma_missing_stays(a: &TileCache, b: &TileCache, n: VNode, gi: int)
    requires
        a.wf(),
        b.wf(),
        valid_grows(a, b),
        same_streaming(a, b),
        a.resident(n),
        a.missing_outputs(n, gi) == 0,
    ensures
        b.missing_outputs(n, gi) == 0,
{
    let l = n.level as int;
    let c = a.levels@[l];
    let i = choose|i: int| 0 <= i < c.slots.len() && #[trigger] c.slots@[i].node == n;
    lemma_same_nodes(a, b, l);
    lemma_entry_index(c, b.levels@[l], n, i);
    lemma_legal_mask_same(a, b, l);
    let x = a.generators@[gi].outputs.bits & a.legal_mask(l);
    let v = slot_at(a, l, i).valid.bits;
    let w = slot_at(b, l, i).valid.bits;
    let st = slot_at(a, l, i).streaming.bits;
    assert(slot_at(b, l, i).streaming.bits == st);
    assert(x & !(v | st) == 0 && v & !w == 0 ==> x & !(w | st) == 0) by (bit_vector);
}

pub proof fn lemma_served_stays(a: &TileCache, b: &TileCache, l: int, i: int, li: int)
    requires
        same_shape(a, b),
        streaming_grows(a, b),
        a.num_inflight <= b.num_inflight <= MAX_INFLIGHT,
        0 <= l < a.levels.len(),
        0 <= i < a.levels@[l].slots.len(),
        a.stream_served(l, i, li),
    ensures
        b.stream_served(l, i, li),
{
    assert(slot_at(a, l, i).streaming.bits & !slot_at(b, l, i).streaming.bits == 0);
    lemma_bits_subset_keeps(slot_at(a, l, i).streaming.bits, slot_at(b, l, i).streaming.bits, layer_bit(li as nat));
}

pub proof fn lemma_needed_or_served(a: &TileCache, b: &TileCache, l: int, i: int, li: int)
    requires
        a.wf(),
        same_shape(a, b),
        same_valid(a, b),
        streaming_grows(a, b),
        a.stream_needed(l, i, li),
    ensures
        b.stream_needed(l, i, li) || b.stream_served(l, i, li),
{
    let v = slot_at(a, l, i).valid.bits;
    let s0 = slot_at(a, l, i).streaming.bits;
    let s1 = slot_at(b, l, i).streaming.bits;
    let bit = layer_bit(li as nat);
    assert(slot_at(b, l, i).valid.bits == v);
    assert(s0 & !s1 == 0);
    assert(s0 & !s1 == 0 && (v | s1) & bit != 0 && (v | s0) & bit == 0 ==> s1 & bit != 0) by (bit_vector);
}

pub proof fn lemma_streaming_grows_refl(a: &TileCache)
    ensures
        streaming_grows(a, a),
{
    assert forall|l: int, i: int|
        0 <= l < a.levels.len() && 0 <= i < a.levels@[l].slots.len() implies (#[trigger] slot_at(a, l, i)).streaming.bits
            & !slot_at(a, l, i).streaming.bits == 0 by {
        let x = slot_at(a, l, i).streaming.bits;
        assert(x & !x == 0) by (bit_vector);
    }
}

pub proof fn lemma_streaming_grows_trans(a: &TileCache, b: &TileCache, c: &TileCache)
    requires
        same_shape(a, b),
        streaming_grows(a, b),
        streaming_grows(b, c),
    ensures
        streaming_grows(a, c),
{
    assert forall|l: int, i: int|
        0 <= l < a.levels.len() && 0 <= i < a.levels@[l].slots.len() implies (#[trigger] slot_at(a, l, i)).streaming.bits
            & !slot_at(c, l, i).streaming.bits == 0 by {
        assert(slot_at(b, l, i).streaming.bits & !slot_at(c, l, i).streaming.bits == 0);
        lemma_bits_subset_trans(slot_at(a, l, i).streaming.bits, slot_at(b, l, i).streaming.bits, slot_at(c, l, i).streaming.bits);
    }
}

pub proof fn lemma_same_shape_trans(a: &TileCache, b: &TileCache, c: &TileCache)
    requires
        same_shape(a, b),
        same_shape(b, c),
    ensures
        same_shape(a, c),
{
    assert forall|l: int| 0 <= l < a.levels.len() implies (#[trigger] a.levels@[l]).size == c.levels@[l].size
        && a.levels@[l].missing@ == c.levels@[l].missing@
        && a.levels@[l].min_priority == c.levels@[l].min_priority
        && a.levels@[l].resolution == c.levels@[l].resolution
        && a.levels@[l].slots.len() == c.levels@[l].slots.len() by {
        assert(b.levels@[l].size == c.levels@[l].size);
    }
    assert forall|l: int, i: int|
        0 <= l < a.levels.len() && 0 <= i < a.levels@[l].slots.len() implies (#[trigger] slot_at(a, l, i)).node == slot_at(c, l, i).node
            && slot_at(a, l, i).priority == slot_at(c, l, i).priority by {
        assert(slot_at(b, l, i).node == slot_at(c, l, i).node);
    }
}

pub proof fn lemma_valid_before_push(c: &TileCache, tasks: Seq<GenerateTask>, t: GenerateTask, k: int, n: VNode)
    requires
        0 <= k <= tasks.len(),
    ensures
        valid_before(c, tasks.push(t), k, n) == valid_before(c, tasks, k, n),
    decreases k,
{
    if k > 0 {
        lemma_valid_before_push(c, tasks, t, k - 1, n);
        assert(tasks.push(t)[k - 1] == tasks[k - 1]);
    }
}

pub proof fn lemma_provenance_before_push(c: &TileCache, tasks: Seq<GenerateTask>, t: GenerateTask, k: int, n: VNode)
    requires
        0 <= k <= tasks.len(),
    ensures
        provenance_before(c, tasks.push(t), k, n) == provenance_before(c, tasks, k, n),
    decreases k,
{
    if k > 0 {
        lemma_provenance_before_push(c, tasks, t, k - 1, n);
        lemma_provenance_before_push(c, tasks, t, k - 1, tasks[k - 1].node.spec_parent());
        assert(tasks.push(t)[k - 1] == tasks[k - 1]);
    }
}

pub proof fn lemma_task_fits_push(c: &TileCache, cs: &TileCache, tasks: Seq<GenerateTask>, t: GenerateTask, k: int)
    requires
        0 <= k < tasks.len(),
        task_fits(c, cs, tasks, k),
    ensures
        task_fits(c, cs, tasks.push(t), k),
{
    let t2 = tasks.push(t);
    assert(t2[k] == tasks[k]);
    let n = tasks[k].node;
    lemma_valid_before_push(c, tasks, t, k, n);
    lemma_valid_before_push(c, tasks, t, k, n.spec_parent());
    let g = c.generators@[tasks[k].generator as int];
    assert forall|i: nat| i < NUM_LAYER_TYPES && g.ancestor_inputs.has_bit(i) implies layer_met_before(c, t2, k, n, #[trigger] LayerType::spec_from_index(i)) by {
        let ly = LayerType::spec_from_index(i);
        assert(layer_met_before(c, tasks, k, n, ly));
        let p = c.layers@[ly.spec_index() as int];
        lemma_valid_before_push(c, tasks, t, k, n.spec_ancestor_at(p.max_level as nat));
    }
}

/// A run's outputs are valid at every later point.
pub proof fn lemma_outputs_in_valid_before(c: &TileCache, tasks: Seq<GenerateTask>, j: int, k: int, n: VNode)
    requires
        0 <= j < k <= tasks.len(),
        tasks[j].node == n,
    ensures
        tasks[j].outputs.bits & !valid_before(c, tasks, k, n) == 0,
    decreases k,
{
    let o = tasks[j].outputs.bits;
    if k == j + 1 {
        let v = valid_before(c, tasks, j, n);
        assert(o & !(v | o) == 0) by (bit_vector);
    } else {
        lemma_outputs_in_valid_before(c, tasks, j, k - 1, n);
        let v = valid_before(c, tasks, k - 1, n);
        let x: u32 = if tasks[k - 1].node == n { tasks[k - 1].outputs.bits } else { 0u32 };
        assert(o & !v == 0 ==> o & !(v | x) == 0) by (bit_vector);
    }
}

/// Where `s` carries the trace of `tasks` from `c`, a resident node's entry in `s` has
/// the valid bits before the next run.
pub proof fn lemma_trace_entry(c: &TileCache, s: &TileCache, tasks: Seq<GenerateTask>, m: VNode)
    requires
        c.wf(),
        s.wf(),
        same_shape(c, s),
        valid_trace(c, s, tasks),
        provenance_trace(c, s, tasks),
        s.resident(m),
    ensures
        c.resident(m),
        entry_of(s.levels@[m.level as int], m).valid.bits == valid_before(c, tasks, tasks.len() as int, m),
        vec_map_contents(entry_of(s.levels@[m.level as int], m).generators) == provenance_before(c, tasks, tasks.len() as int, m),
{
    let l = m.level as int;
    let i = choose|i: int| 0 <= i < s.levels@[l].slots.len() && #[trigger] s.levels@[l].slots@[i].node == m;
    lemma_same_nodes(s, c, l);
    lemma_entry_index(s.levels@[l], s.levels@[l], m, i);
    assert(slot_at(c, l, i).node == slot_at(s, l, i).node);
    lemma_resident_same(c, s, m);
}

/// Under a trace, the ancestor test on `s` is the ancestor test before the next run.
pub proof fn lemma_trace_ancestors(c: &TileCache, s: &TileCache, tasks: Seq<GenerateTask>, n: VNode, inputs: LayerMask)
    requires
        c.wf(),
        s.wf(),
        same_shape(c, s),
        valid_trace(c, s, tasks),
        provenance_trace(c, s, tasks),
    ensures
        s.ancestor_inputs_met_spec(n, inputs) == ancestors_met_before(c, tasks, tasks.len() as int, n, inputs),
{
    let k = tasks.len() as int;
    assert forall|i: nat| i < NUM_LAYER_TYPES implies s.ancestor_layer_met(n, #[trigger] LayerType::spec_from_index(i))
        == layer_met_before(c, tasks, k, n, LayerType::spec_from_index(i)) by {
        let ly = LayerType::spec_from_index(i);
        let p = c.layers@[ly.spec_index() as int];
        let a = n.spec_ancestor_at(p.max_level as nat);
        lemma_resident_same(c, s, n);
        lemma_resident_same(c, s, a);
        if s.resident(n) {
            lemma_trace_entry(c, s, tasks, n);
        }
        if s.resident(a) {
            lemma_trace_entry(c, s, tasks, a);
        }
    }
}

pub proof fn lemma_ancestors_met_push(c: &TileCache, tasks: Seq<GenerateTask>, t: GenerateTask, k: int, n: VNode, inputs: LayerMask)
    requires
        0 <= k <= tasks.len(),
    ensures
        ancestors_met_before(c, tasks.push(t), k, n, inputs) == ancestors_met_before(c, tasks, k, n, inputs),
{
    assert forall|i: nat| i < NUM_LAYER_TYPES implies layer_met_before(c, tasks.push(t), k, n, #[trigger] LayerType::spec_from_index(i))
        == layer_met_before(c, tasks, k, n, LayerType::spec_from_index(i)) by {
        let ly = LayerType::spec_from_index(i);
        let p = c.layers@[ly.spec_index() as int];
        lemma_valid_before_push(c, tasks, t, k, n);
        lemma_valid_before_push(c, tasks, t, k, n.spec_ancestor_at(p.max_level as nat));
    }
}

/// States with the same slots and streaming bits agree on every node's streaming bits.
pub proof fn lemma_streaming_of_same(a: &TileCache, b: &TileCache, n: VNode)
    requires
        a.wf(),
        b.wf(),
        same_shape(a, b),
        same_streaming(a, b),
    ensures
        streaming_of(a, n) == streaming_of(b, n),
{
    lemma_resident_same(a, b, n);
    if a.resident(n) {
        let l = n.level as int;
        let i = choose|i: int| 0 <= i < a.levels@[l].slots.len() && #[trigger] a.levels@[l].slots@[i].node == n;
        lemma_same_nodes(a, b, l);
        lemma_entry_index(a.levels@[l], b.levels@[l], n, i);
        assert(slot_at(a, l, i).streaming == slot_at(b, l, i).streaming);
    }
}

/// A streaming bit of `n` in `a` is still set in `b`.
pub proof fn lemma_streaming_bit_stays(a: &TileCache, b: &TileCache, n: VNode, bit: u32)
    requires
        a.wf(),
        b.wf(),
        same_shape(a, b),
        streaming_grows(a, b),
        streaming_of(a, n) & bit != 0,
    ensures
        streaming_of(b, n) & bit != 0,
{
    assert(0u32 & bit == 0) by (bit_vector);
    assert(a.resident(n));
    lemma_resident_same(a, b, n);
    let l = n.level as int;
    let i = choose|i: int| 0 <= i < a.levels@[l].slots.len() && #[trigger] a.levels@[l].slots@[i].node == n;
    lemma_same_nodes(a, b, l);
    lemma_entry_index(a.levels@[l], b.levels@[l], n, i);
    assert(slot_at(a, l, i).streaming.bits & !slot_at(b, l, i).streaming.bits == 0);
    lemma_bits_subset_keeps(slot_at(a, l, i).streaming.bits, slot_at(b, l, i).streaming.bits, bit);
}

/// A request due after some streaming bits were set was due before them.
pub proof fn lemma_due_back(a: &TileCache, b: &TileCache, r: (VNode, LayerType))
    requires
        a.wf(),
        b.wf(),
        same_shape(a, b),
        same_valid(a, b),
        streaming_grows(a, b),
        request_due(b, r),
    ensures
        request_due(a, r),
{
    let n = r.0;
    lemma_resident_same(a, b, n);
    let l = n.level as int;
    let i = choose|i: int| 0 <= i < a.levels@[l].slots.len() && #[trigger] a.levels@[l].slots@[i].node == n;
    lemma_same_nodes(a, b, l);
    lemma_entry_index(a.levels@[l], b.levels@[l], n, i);
    let v = slot_at(a, l, i).valid.bits;
    let s0 = slot_at(a, l, i).streaming.bits;
    let s1 = slot_at(b, l, i).streaming.bits;
    let bit = layer_bit(r.1.spec_index());
    assert(slot_at(b, l, i).valid.bits == v);
    assert(s0 & !s1 == 0);
    assert(s0 & !s1 == 0 && (v | s1) & bit == 0 ==> (v | s0) & bit == 0) by (bit_vector);
}

/// Streaming bits seen through `streaming_of` follow the trace's slots.
pub proof fn lemma_task_fits_streaming(c: &TileCache, cs1: &TileCache, cs2: &TileCache, tasks: Seq<GenerateTask>, k: int)
    requires
        cs1.wf(),
        cs2.wf(),
        same_shape(cs1, cs2),
        same_streaming(cs1, cs2),
        task_fits(c, cs1, tasks, k),
    ensures
        task_fits(c, cs2, tasks, k),
{
    lemma_streaming_of_same(cs1, cs2, tasks[k].node);
}

} // verus!
