//! The per-frame scheduler: phase A classifies missing layers into streaming
//! requests and generation candidates, phase B runs generators within the budget.

use vstd::prelude::*;
use crate::layer::{GeneratorMask, LayerMask, LayerType, NUM_LAYER_TYPES, layer_bit};
use crate::node::{MAX_QUADTREE_LEVEL, VNode};
use crate::priority::{Priority, spec_cutoff};
use crate::provenance::vec_map_contents;
use crate::tile::{valid_trace, provenance_trace, served_in_order, pool_exhausted, distinct_vnodes, heightmap_run, task_fits, valid_before, provenance_before, request_due, streaming_of, same_provenance, FRAME_BUDGET, FramePlan, TileCache, GenerateTask, MAX_DOWNLOAD_BUFFERS, MAX_INFLIGHT, NUM_LEVELS, NUM_MESH_TYPES, entry_of, in_list, in_range, level_wf, requests_ok, same_shape, same_streaming, same_valid, slot_at, streaming_grows, valid_grows};
use crate::tile_lemmas::{lemma_trace_entry, lemma_trace_ancestors, lemma_ancestors_met_push, lemma_valid_before_push, lemma_provenance_before_push, lemma_task_fits_push, lemma_outputs_in_valid_before, lemma_streaming_of_same, lemma_streaming_bit_stays, lemma_due_back, lemma_task_fits_streaming, lemma_same_shape_trans, lemma_candidates_keep, lemma_entry_index, lemma_grows_refl, lemma_grows_trans, lemma_in_list_push, lemma_legal_mask_same, lemma_missing_stays, lemma_needed_or_served, lemma_ready_grows, lemma_requests_keep, lemma_resident_same, lemma_same_nodes, lemma_same_valid_grows, lemma_served_stays, lemma_shape_refl, lemma_shape_trans, lemma_streaming_grows_refl, lemma_streaming_grows_trans};

verus! {

impl TileCache {
    /// Runs, for node `n`, each generator in list order whose missing outputs it can
    /// produce now, while the frame budget lasts. `c0` is the state at the start of the
    /// frame, `cs` one with this state's streaming bits.
    fn generate_node(&mut self, n: VNode, plan: &mut FramePlan, Ghost(c0): Ghost<TileCache>, Ghost(cs): Ghost<TileCache>)
        requires
            old(self).wf(),
            n.wf(),
            c0.wf(),
            cs.wf(),
            same_shape(&c0, old(self)),
            same_shape(&cs, old(self)),
            same_streaming(&cs, old(self)),
            valid_trace(&c0, old(self), old(plan).tasks@),
            provenance_trace(&c0, old(self), old(plan).tasks@),
            c0.resident(n) ==> entry_of(c0.levels@[n.level as int], n).priority.key > spec_cutoff().key,
            old(plan).tasks.len() <= FRAME_BUDGET,
            forall|k: int| 0 <= k < old(plan).tasks.len() ==> task_fits(&c0, &cs, old(plan).tasks@, k),
            forall|j: int| 0 <= j < old(plan).downloads.len() ==> heightmap_run(old(plan).tasks@, #[trigger] old(plan).downloads@[j])
                && old(plan).downloads@[j].level <= c0.readback_max_level,
            distinct_vnodes(old(plan).downloads@),
        ensures
            final(self).wf(),
            valid_grows(old(self), final(self)),
            same_streaming(old(self), final(self)),
            final(self).num_inflight == old(self).num_inflight,
            final(self).free_download_buffers <= old(self).free_download_buffers,
            final(self).total_download_buffers >= old(self).total_download_buffers,
            final(plan).stream_requests@ == old(plan).stream_requests@,
            final(plan).tasks.len() <= FRAME_BUDGET,
            final(plan).tasks.len() >= old(plan).tasks.len(),
            forall|k: int| 0 <= k < old(plan).tasks.len() ==> #[trigger] final(plan).tasks@[k] == old(plan).tasks@[k],
            forall|k: int| old(plan).tasks.len() <= k < final(plan).tasks.len() ==> (#[trigger] final(plan).tasks@[k]).node == n,
            final(plan).candidates@ == old(plan).candidates@,
            valid_trace(&c0, final(self), final(plan).tasks@),
            provenance_trace(&c0, final(self), final(plan).tasks@),
            forall|k: int| 0 <= k < final(plan).tasks.len() ==> task_fits(&c0, &cs, final(plan).tasks@, k),
            forall|j: int| 0 <= j < final(plan).downloads.len() ==> heightmap_run(final(plan).tasks@, #[trigger] final(plan).downloads@[j])
                && final(plan).downloads@[j].level <= c0.readback_max_level,
            distinct_vnodes(final(plan).downloads@),
            final(plan).tasks.len() < FRAME_BUDGET && !pool_exhausted(final(self)) ==> forall|gi: int|
                #[trigger] old(self).generator_ready(n, gi) ==> final(self).missing_outputs(n, gi) == 0,
    {
        proof {
            lemma_grows_refl(self);
        }
        let pos = self.position(n);
        if pos.is_none() {
            return;
        }
        let i = pos.unwrap();
        let l = n.level as usize;
        let slot = self.base_slots[l] + i;
        let mut parent_pos: Option<usize> = None;
        let mut parent_slot: Option<usize> = None;
        if l > 0 {
            let p = n.parent().unwrap().0;
            parent_pos = self.position(p);
            if let Some(pi) = parent_pos {
                parent_slot = Some(self.base_slots[l - 1] + pi);
            }
        }
        let level_mask = self.level_mask(n.level);
        proof {
            lemma_resident_same(&c0, self, n);
            lemma_legal_mask_same(&c0, self, l as int);
        }
        let mut gi: usize = 0;
        while gi < self.generators.len()
            invariant
                self.wf(),
                old(self).wf(),
                c0.wf(),
                cs.wf(),
                valid_grows(old(self), self),
                same_shape(&c0, old(self)),
                same_shape(&cs, old(self)),
                same_streaming(&cs, old(self)),
                same_streaming(old(self), self),
                c0.resident(n),
                entry_of(c0.levels@[n.level as int], n).priority.key > spec_cutoff().key,
                self.generators@ == old(self).generators@,
                self.num_inflight == old(self).num_inflight,
                self.free_download_buffers <= old(self).free_download_buffers,
                self.total_download_buffers >= old(self).total_download_buffers,
                n.wf(),
                l == n.level,
                i < self.levels@[l as int].slots.len(),
                slot_at(self, l as int, i as int).node == n,
                l > 0 ==> (parent_pos is Some <==> self.resident(n.spec_parent())),
                l > 0 ==> (parent_pos matches Some(pi) ==> pi < self.levels@[l - 1].slots.len()
                    && slot_at(self, l - 1, pi as int).node == n.spec_parent()),
                l == 0 ==> parent_pos is None,
                level_mask.bits == self.legal_mask(l as int),
                level_mask.bits == c0.legal_mask(l as int),
                plan.stream_requests@ == old(plan).stream_requests@,
                plan.tasks.len() <= FRAME_BUDGET,
                plan.tasks.len() >= old(plan).tasks.len(),
                forall|k: int| 0 <= k < old(plan).tasks.len() ==> #[trigger] plan.tasks@[k] == old(plan).tasks@[k],
                forall|k: int| old(plan).tasks.len() <= k < plan.tasks.len() ==> (#[trigger] plan.tasks@[k]).node == n,
                plan.candidates@ == old(plan).candidates@,
                valid_trace(&c0, self, plan.tasks@),
                provenance_trace(&c0, self, plan.tasks@),
                forall|k: int| 0 <= k < plan.tasks.len() ==> task_fits(&c0, &cs, plan.tasks@, k),
                forall|j: int| 0 <= j < plan.downloads.len() ==> heightmap_run(plan.tasks@, #[trigger] plan.downloads@[j])
                    && plan.downloads@[j].level <= c0.readback_max_level,
                distinct_vnodes(plan.downloads@),
                gi <= self.generators.len(),
                forall|gj: int| 0 <= gj < gi && #[trigger] old(self).generator_ready(n, gj) ==> self.missing_outputs(n, gj) == 0
                    || pool_exhausted(self),
            ensures
                gi >= self.generators.len() || plan.tasks.len() >= FRAME_BUDGET,
            decreases self.generators.len() - gi,
        {
            if plan.tasks.len() >= FRAME_BUDGET {
                break;
            }
            let ghost tasks0 = plan.tasks@;
            let ghost k0 = tasks0.len() as int;
            proof {
                assert(level_wf(self.levels@[l as int], l as int));
                lemma_entry_index(self.levels@[l as int], self.levels@[l as int], n, i as int);
                if old(self).generator_ready(n, gi as int) {
                    lemma_ready_grows(old(self), self, n, gi as int);
                }
                lemma_same_shape_trans(&c0, old(self), self);
                lemma_same_shape_trans(&cs, old(self), self);
                lemma_trace_entry(&c0, self, tasks0, n);
                lemma_same_nodes(&cs, self, l as int);
                lemma_entry_index(cs.levels@[l as int], self.levels@[l as int], n, i as int);
                lemma_resident_same(&cs, self, n);
                assert(slot_at(&cs, l as int, i as int).streaming == slot_at(old(self), l as int, i as int).streaming);
                assert(slot_at(old(self), l as int, i as int).streaming == slot_at(self, l as int, i as int).streaming);
                if l > 0 && parent_pos is Some {
                    let pi = parent_pos->Some_0;
                    assert(level_wf(self.levels@[l - 1], l - 1));
                    lemma_entry_index(self.levels@[l - 1], self.levels@[l - 1], n.spec_parent(), pi as int);
                    lemma_trace_entry(&c0, self, tasks0, n.spec_parent());
                }
                lemma_resident_same(&c0, self, n.spec_parent());
            }
            let valid = self.levels[l].slots[i].valid;
            let streaming = self.levels[l].slots[i].streaming;
            let outputs = self.generators[gi].outputs;
            let peer_inputs = self.generators[gi].peer_inputs;
            let parent_inputs = self.generators[gi].parent_inputs;
            let ancestor_inputs = self.generators[gi].ancestor_inputs;
            let missing = LayerMask { bits: outputs.bits & !(valid.bits | streaming.bits) & level_mask.bits };
            proof {
                let o = outputs.bits;
                let v = valid.bits;
                let st = streaming.bits;
                let lm = level_mask.bits;
                assert(o & !(v | st) & lm == o & lm & !(v | st)) by (bit_vector);
                assert(missing.bits == self.missing_outputs(n, gi as int));
            }
            if missing.bits == 0 {
                gi = gi + 1;
                continue;
            }
            if peer_inputs.bits & !valid.bits != 0 {
                gi = gi + 1;
                continue;
            }
            if l == 0 && parent_inputs.bits != 0 {
                gi = gi + 1;
                continue;
            }
            if l > 0 {
                match parent_pos {
                    None => {
                        gi = gi + 1;
                        continue;
                    },
                    Some(pi) => {
                        if parent_inputs.bits & !self.levels[l - 1].slots[pi].valid.bits != 0 {
                            gi = gi + 1;
                            continue;
                        }
                    },
                }
            }
            proof {
                assert((1u32 << 0u32) == 1u32) by (bit_vector);
                assert(layer_bit(0) == 1u32);
                assert(LayerType::Heightmaps.spec_index() == 0);
            }
            if outputs.contains_layer(LayerType::Heightmaps) && self.free_download_buffers == 0
                && self.total_download_buffers >= MAX_DOWNLOAD_BUFFERS {
                gi = gi + 1;
                continue;
            }
            if !self.ancestor_inputs_met(n, ancestor_inputs) {
                gi = gi + 1;
                continue;
            }
            let own = self.levels[l].slots[i].generator_dependencies(peer_inputs);
            let mut used = GeneratorMask::from_index(gi).union(own);
            let ghost own_bits = used.bits;
            if let Some(pi) = parent_pos {
                used = used.union(self.levels[l - 1].slots[pi].generator_dependencies(parent_inputs));
            }
            proof {
                let ob = own_bits;
                assert(ob | 0u64 == ob) by (bit_vector);
            }
            let ghost before = *self;
            proof {
                let o = outputs.bits;
                let v = valid.bits;
                let st = streaming.bits;
                let lm = level_mask.bits;
                assert((o & !(v | st) & lm) & st == 0) by (bit_vector);
            }
            self.mark_generated_at(l, i, missing, used);
            let task = GenerateTask { node: n, slot, parent_slot, generator: gi, outputs: missing };
            let ghost tasks1 = tasks0.push(task);
            proof {
                lemma_grows_trans(old(self), &before, self);
                lemma_legal_mask_same(&before, self, l as int);
                lemma_trace_ancestors(&c0, &before, tasks0, n, ancestor_inputs);
                lemma_ancestors_met_push(&c0, tasks0, task, k0, n, ancestor_inputs);
                lemma_valid_before_push(&c0, tasks0, task, k0, n);
                lemma_valid_before_push(&c0, tasks0, task, k0, n.spec_parent());
                lemma_provenance_before_push(&c0, tasks0, task, k0, n);
                lemma_provenance_before_push(&c0, tasks0, task, k0, n.spec_parent());
                lemma_streaming_of_same(&cs, &before, n);
                assert(tasks1[k0] == task);
                assert(task_fits(&c0, &cs, tasks1, k0));
                assert forall|k: int| 0 <= k < tasks1.len() implies task_fits(&c0, &cs, tasks1, k) by {
                    if k < k0 {
                        lemma_task_fits_push(&c0, &cs, tasks0, task, k);
                    }
                }
                // The trace after the run.
                assert forall|l2: int, i2: int|
                    0 <= l2 < NUM_LEVELS && 0 <= i2 < c0.levels@[l2].slots.len() implies (#[trigger] slot_at(self, l2, i2)).valid.bits
                        == valid_before(&c0, tasks1, tasks1.len() as int, slot_at(&c0, l2, i2).node) by {
                    let m = slot_at(&c0, l2, i2).node;
                    lemma_valid_before_push(&c0, tasks0, task, k0, m);
                    assert(slot_at(&before, l2, i2).valid.bits == valid_before(&c0, tasks0, k0, m));
                    if l2 == l && i2 == i {
                        assert(slot_at(&c0, l2, i2).node == slot_at(&before, l2, i2).node);
                    } else {
                        assert(slot_at(&c0, l2, i2).node == slot_at(&before, l2, i2).node);
                        lemma_entry_index(before.levels@[l2], before.levels@[l2], m, i2);
                        let w = valid_before(&c0, tasks0, k0, m);
                        assert(w | 0u32 == w) by (bit_vector);
                        if m == n {
                            assert(level_wf(before.levels@[l2], l2));
                            assert(l2 == l);
                            assert(before.levels@[l2].slots@[i2].node == before.levels@[l2].slots@[i as int].node);
                        }
                    }
                }
                assert forall|l2: int, i2: int|
                    0 <= l2 < NUM_LEVELS && 0 <= i2 < c0.levels@[l2].slots.len() implies vec_map_contents((#[trigger] slot_at(self, l2, i2)).generators)
                        == provenance_before(&c0, tasks1, tasks1.len() as int, slot_at(&c0, l2, i2).node) by {
                    let m = slot_at(&c0, l2, i2).node;
                    lemma_provenance_before_push(&c0, tasks0, task, k0, m);
                    assert(slot_at(&c0, l2, i2).node == slot_at(&before, l2, i2).node);
                    if !(l2 == l && i2 == i) && m == n {
                        assert(level_wf(before.levels@[l2], l2));
                        assert(before.levels@[l2].slots@[i2].node == before.levels@[l2].slots@[i as int].node);
                    }
                }
            }
            proof {
                let o = outputs.bits;
                let v = valid.bits;
                let st = streaming.bits;
                let lm = level_mask.bits;
                assert((o & !(v | st) & lm) & 1u32 != 0 ==> o & 1u32 != 0) by (bit_vector);
            }
            let ghost before_push = *self;
            plan.tasks.push(task);
            if missing.contains_layer(LayerType::Heightmaps) && n.level <= self.readback_max_level {
                if self.free_download_buffers > 0 {
                    self.free_download_buffers = self.free_download_buffers - 1;
                } else {
                    self.total_download_buffers = self.total_download_buffers + 1;
                }
                proof {
                    assert forall|j: int| 0 <= j < plan.downloads.len() implies plan.downloads@[j] != n by {
                        if plan.downloads@[j] == n {
                            assert(heightmap_run(tasks0, n));
                            let kk = choose|kk: int| 0 <= kk < tasks0.len() && (#[trigger] tasks0[kk]).node == n
                                && tasks0[kk].outputs.bits & layer_bit(0) != 0;
                            lemma_outputs_in_valid_before(&c0, tasks0, kk, k0, n);
                            let ok = tasks0[kk].outputs.bits;
                            let vb = valid_before(&c0, tasks0, k0, n);
                            let o = outputs.bits;
                            let st = streaming.bits;
                            let lm = level_mask.bits;
                            assert(ok & !vb == 0 && ok & 1u32 != 0 ==> (o & !(vb | st) & lm) & 1u32 == 0) by (bit_vector);
                        }
                    }
                }
                plan.downloads.push(n);
            }
            proof {
                lemma_legal_mask_same(&before_push, self, l as int);
                assert(plan.tasks@ == tasks1);
                assert forall|j: int| 0 <= j < plan.downloads.len() implies heightmap_run(plan.tasks@, #[trigger] plan.downloads@[j])
                    && plan.downloads@[j].level <= c0.readback_max_level by {
                    if plan.downloads@[j] == n && (j == plan.downloads.len() - 1) && missing.bits & 1u32 != 0 {
                        assert(plan.tasks@[k0].node == n);
                    } else {
                        let d = plan.downloads@[j];
                        if heightmap_run(tasks0, d) {
                            let kk = choose|kk: int| 0 <= kk < tasks0.len() && (#[trigger] tasks0[kk]).node == d
                                && tasks0[kk].outputs.bits & layer_bit(0) != 0;
                            assert(plan.tasks@[kk] == tasks0[kk]);
                        }
                    }
                }
                assert forall|l2: int, i2: int|
                    0 <= l2 < self.levels.len() && 0 <= i2 < self.levels@[l2].slots.len() implies (#[trigger] slot_at(&before, l2, i2)).streaming
                        == slot_at(self, l2, i2).streaming by {
                    if l2 != l || i2 != i {
                        assert(slot_at(self, l2, i2) == slot_at(&before, l2, i2));
                    }
                }
                assert forall|l2: int, i2: int|
                    0 <= l2 < old(self).levels.len() && 0 <= i2 < old(self).levels@[l2].slots.len() implies (#[trigger] slot_at(old(self), l2, i2)).streaming
                        == slot_at(self, l2, i2).streaming by {
                    assert(slot_at(old(self), l2, i2).streaming == slot_at(&before, l2, i2).streaming);
                }
                let o = outputs.bits;
                let v = valid.bits;
                let st = streaming.bits;
                let lm = level_mask.bits;
                assert(o & lm & !((v | (o & !(v | st) & lm)) | st) == 0) by (bit_vector);
                lemma_same_nodes(&before, self, l as int);
                lemma_entry_index(before.levels@[l as int], self.levels@[l as int], n, i as int);
                assert(self.missing_outputs(n, gi as int) == 0);
                assert forall|gj: int| 0 <= gj < gi + 1 && #[trigger] old(self).generator_ready(n, gj) implies self.missing_outputs(n, gj) == 0
                    || pool_exhausted(self) by {
                    if gj < gi && before.missing_outputs(n, gj) == 0 {
                        assert(same_streaming(&before, self));
                        assert(self.levels == before_push.levels);
                        assert(valid_grows(&before, self));
                        lemma_missing_stays(&before, self, n, gj);
                    }
                }
            }
            gi = gi + 1;
        }
        proof {
            if plan.tasks.len() < FRAME_BUDGET && !pool_exhausted(self) {
                assert(gi == self.generators.len());
                assert forall|gj: int| #[trigger] old(self).generator_ready(n, gj) implies self.missing_outputs(n, gj) == 0 by {
                    assert(0 <= gj < gi);
                }
            }
        }
    }

    /// Streaming part of phase A on the slots of level `l` for layer `li`: at a streamed
    /// level, every node worth holding whose layer is neither valid nor being streamed is
    /// requested from storage while the in-flight budget allows.
    fn classify_level(
        &mut self,
        li: usize,
        l: usize,
        requests: &mut Vec<(VNode, LayerType)>,
    )
        requires
            old(self).wf(),
            li < NUM_LAYER_TYPES,
            l < NUM_LEVELS,
            in_range(old(self).layers@[li as int], l as int),
            requests_ok(old(self), old(requests)@, 0),
        ensures
            final(self).wf(),
            same_shape(old(self), final(self)),
            same_valid(old(self), final(self)),
            final(self).free_download_buffers == old(self).free_download_buffers,
            final(self).total_download_buffers == old(self).total_download_buffers,
            final(self).num_inflight - old(self).num_inflight == final(requests).len() - old(requests).len(),
            requests_ok(final(self), final(requests)@, 0),
            streaming_grows(old(self), final(self)),
            final(self).num_inflight >= old(self).num_inflight,
            forall|i: int| #[trigger] old(self).stream_needed(l as int, i, li as int) ==> final(self).stream_served(l as int, i, li as int),
            same_provenance(old(self), final(self)),
            final(requests).len() >= old(requests).len(),
            forall|k: int| 0 <= k < old(requests).len() ==> #[trigger] final(requests)@[k] == old(requests)@[k],
            forall|k: int| old(requests).len() <= k < final(requests).len() ==> request_due(old(self), #[trigger] final(requests)@[k])
                && streaming_of(final(self), final(requests)@[k].0) & layer_bit(final(requests)@[k].1.spec_index()) != 0,
    {
        let ly = LayerType::from_index(li);
        let streamed_levels = self.layers[li].streamed_levels;
        let cutoff = Priority::cutoff();
        let n = self.levels[l].slots.len();
        let mut i: usize = 0;
        proof {
            lemma_shape_refl(self);
            lemma_streaming_grows_refl(self);
        }
        while i < n
            invariant
                self.wf(),
                0 <= i <= n,
                n == self.levels@[l as int].slots.len(),
                li < NUM_LAYER_TYPES,
                l < NUM_LEVELS,
                ly.spec_index() == li,
                streamed_levels == self.layers@[li as int].streamed_levels,
                in_range(self.layers@[li as int], l as int),
                same_shape(old(self), self),
                same_valid(old(self), self),
                self.free_download_buffers == old(self).free_download_buffers,
                self.total_download_buffers == old(self).total_download_buffers,
                self.num_inflight >= old(self).num_inflight,
                self.num_inflight - old(self).num_inflight == requests.len() - old(requests).len(),
                requests_ok(self, requests@, 0),
                cutoff == spec_cutoff(),
                streaming_grows(old(self), self),
                old(self).wf(),
                self.num_inflight <= MAX_INFLIGHT,
                forall|i2: int| 0 <= i2 < i && #[trigger] old(self).stream_needed(l as int, i2, li as int) ==> self.stream_served(l as int, i2, li as int),
                same_provenance(old(self), self),
                requests.len() >= old(requests).len(),
                forall|k: int| 0 <= k < old(requests).len() ==> #[trigger] requests@[k] == old(requests)@[k],
                forall|k: int| old(requests).len() <= k < requests.len() ==> request_due(old(self), #[trigger] requests@[k])
                    && streaming_of(self, requests@[k].0) & layer_bit(requests@[k].1.spec_index()) != 0,
            decreases n - i,
        {
            let ghost before_slot = *self;
            let node = self.levels[l].slots[i].node;
            let priority = self.levels[l].slots[i].priority;
            let valid = self.levels[l].slots[i].valid;
            let streaming = self.levels[l].slots[i].streaming;
            proof {
                assert(self.levels@[l as int].slots@[i as int].node == node);
                assert(level_wf(self.levels@[l as int], l as int));
                assert(node.wf() && node.level == l);
                assert(self.resident(node));
            }
            if priority.key > cutoff.key && !valid.union(streaming).contains_layer(ly) && (l as u8) < streamed_levels {
                if self.num_inflight < MAX_INFLIGHT {
                    let ghost before = *self;
                    proof {
                        let v = valid.bits;
                        let st = streaming.bits;
                        let b = layer_bit(li as nat);
                        assert(self.levels@[l as int].slots@[i as int].masks_disjoint());
                        assert(v & st == 0 && (v | st) & b == 0 ==> v & (st | b) == 0) by (bit_vector);
                    }
                    self.set_masks(l, i, valid, streaming.union(ly.bit_mask()));
                    proof {
                        let bb = layer_bit(li as nat);
                        let st = streaming.bits;
                        assert((st | bb) & bb == bb) by (bit_vector);
                        assert(bb != 0) by {
                            assert(li < 32);
                            let k = li as u32;
                            assert(k < 32 ==> (1u32 << k) != 0) by (bit_vector);
                        }
                        assert(slot_at(self, l as int, i as int).streaming.bits & bb != 0);
                    }
                    self.num_inflight = self.num_inflight + 1;
                    requests.push((node, ly));
                    proof {
                        lemma_requests_keep(&before, self, requests@.drop_last(), 0);
                        lemma_resident_same(&before, self, node);
                        assert forall|k: int| 0 <= k < requests.len() implies {
                            let p = self.layers@[(#[trigger] requests@[k]).1.spec_index() as int];
                            &&& self.resident(requests@[k].0)
                            &&& requests@[k].0.wf()
                            &&& requests@[k].0.level < p.streamed_levels
                            &&& in_range(p, requests@[k].0.level as int)
                        } by {
                            if k < requests.len() - 1 {
                                assert(requests@[k] == requests@.drop_last()[k]);
                            }
                        }
                        lemma_shape_trans(old(self), &before, self);
                        assert(streaming_grows(&before, self)) by {
                            assert forall|l2: int, i2: int|
                                0 <= l2 < before.levels.len() && 0 <= i2 < before.levels@[l2].slots.len() implies (#[trigger] slot_at(&before, l2, i2)).streaming.bits
                                    & !slot_at(self, l2, i2).streaming.bits == 0 by {
                                let x = slot_at(&before, l2, i2).streaming.bits;
                                let y = slot_at(self, l2, i2).streaming.bits;
                                let b = layer_bit(li as nat);
                                assert(y == x || y == x | b);
                                assert((y == x || y == x | b) ==> x & !y == 0) by (bit_vector);
                            }
                        }
                        lemma_entry_index(before.levels@[l as int], before.levels@[l as int], node, i as int);
                        lemma_due_back(old(self), &before, (node, ly));
                        lemma_entry_index(self.levels@[l as int], self.levels@[l as int], node, i as int);
                        assert forall|k: int| old(requests).len() <= k < requests.len() implies request_due(old(self), #[trigger] requests@[k])
                            && streaming_of(self, requests@[k].0) & layer_bit(requests@[k].1.spec_index()) != 0 by {
                            if k < requests.len() - 1 {
                                assert(requests@[k] == requests@.drop_last()[k]);
                                lemma_streaming_bit_stays(&before, self, requests@[k].0, layer_bit(requests@[k].1.spec_index()));
                            }
                        }
                        assert forall|l2: int, i2: int|
                            0 <= l2 < old(self).levels.len() && 0 <= i2 < old(self).levels@[l2].slots.len() implies (#[trigger] slot_at(old(self), l2, i2)).generators
                                == slot_at(self, l2, i2).generators by {
                            assert(slot_at(old(self), l2, i2).generators == slot_at(&before, l2, i2).generators);
                        }
                    }
                }
            }
            proof {
                assert(same_shape(&before_slot, self));
                assert(streaming_grows(&before_slot, self)) by {
                    assert forall|l2: int, i2: int|
                        0 <= l2 < before_slot.levels.len() && 0 <= i2 < before_slot.levels@[l2].slots.len() implies (#[trigger] slot_at(&before_slot, l2, i2)).streaming.bits
                            & !slot_at(self, l2, i2).streaming.bits == 0 by {
                        let x = slot_at(&before_slot, l2, i2).streaming.bits;
                        let y = slot_at(self, l2, i2).streaming.bits;
                        let b = layer_bit(li as nat);
                        assert(y == x || y == x | b);
                        assert((y == x || y == x | b) ==> x & !y == 0) by (bit_vector);
                    }
                }
                lemma_streaming_grows_trans(old(self), &before_slot, self);
                assert forall|i2: int| 0 <= i2 < i + 1 && #[trigger] old(self).stream_needed(l as int, i2, li as int) implies self.stream_served(l as int, i2, li as int) by {
                    if i2 < i {
                        lemma_served_stays(&before_slot, self, l as int, i2, li as int);
                    } else {
                        lemma_needed_or_served(old(self), &before_slot, l as int, i2, li as int);
                        if before_slot.stream_served(l as int, i2, li as int) {
                            lemma_served_stays(&before_slot, self, l as int, i2, li as int);
                        } else {
                            assert(priority == slot_at(&before_slot, l as int, i as int).priority);
                            assert(valid == slot_at(&before_slot, l as int, i as int).valid);
                            assert(streaming == slot_at(&before_slot, l as int, i as int).streaming);
                        }
                    }
                }
            }
            i = i + 1;
        }
    }

    /// One frame of scheduling. Phase A walks every layer over its level range and every
    /// slot there worth holding: a layer neither valid nor streaming is requested from
    /// storage at a streamed level (within the in-flight budget) or makes the node a
    /// generation candidate. Phase B serves the candidates first come, first served,
    /// running each generator whose outputs are missing and whose inputs are present,
    /// until the frame budget is spent.
    ///
    /// The plan is stated run by run: each run fits the state just before it
    /// (`task_fits`), the valid bits and provenance afterwards are exactly those the runs
    /// leave (`valid_trace`, `provenance_trace`), requests were due at the start, each
    /// readback belongs to a run that made a heightmap, and runs follow the candidate list.
    pub fn generate_tiles(&mut self) -> (plan: FramePlan)
        requires
            old(self).wf(),
        ensures
            final(self).wf(),
            valid_grows(old(self), final(self)),
            final(self).num_inflight == old(self).num_inflight + plan.stream_requests.len(),
            plan.tasks.len() <= FRAME_BUDGET,
            forall|k: int| 0 <= k < plan.tasks.len() ==> task_fits(old(self), final(self), plan.tasks@, k),
            valid_trace(old(self), final(self), plan.tasks@),
            provenance_trace(old(self), final(self), plan.tasks@),
            forall|k: int| 0 <= k < plan.stream_requests.len() ==> request_due(old(self), #[trigger] plan.stream_requests@[k])
                && streaming_of(final(self), plan.stream_requests@[k].0) & layer_bit(plan.stream_requests@[k].1.spec_index()) != 0,
            requests_ok(final(self), plan.stream_requests@, 0),
            forall|j: int| 0 <= j < plan.downloads.len() ==> heightmap_run(plan.tasks@, #[trigger] plan.downloads@[j])
                && plan.downloads@[j].level <= old(self).readback_max_level,
            distinct_vnodes(plan.downloads@),
            plan.tasks.len() < FRAME_BUDGET && !pool_exhausted(final(self)) ==> forall|l: int, i: int, gi: int|
                #![trigger old(self).candidate_slot(l, i), old(self).generator_ready(slot_at(old(self), l, i).node, gi)]
                old(self).candidate_slot(l, i) && old(self).generator_ready(slot_at(old(self), l, i).node, gi)
                    ==> final(self).missing_outputs(slot_at(old(self), l, i).node, gi) == 0,
            forall|l: int, i: int, li: int| #[trigger] old(self).stream_needed(l, i, li) ==> final(self).stream_served(l, i, li),
            forall|k: int| 0 <= k < plan.candidates.len() ==> old(self).resident(#[trigger] plan.candidates@[k])
                && entry_of(old(self).levels@[plan.candidates@[k].level as int], plan.candidates@[k]).priority.key > spec_cutoff().key,
            forall|l: int, i: int| #[trigger] old(self).candidate_slot(l, i) ==> in_list(plan.candidates@, slot_at(old(self), l, i).node),
            exists|pos: Seq<int>| served_in_order(plan.tasks@, plan.candidates@, pos),
    {
        let candidates = self.generation_candidates();
        let mut plan = FramePlan { stream_requests: Vec::new(), tasks: Vec::new(), downloads: Vec::new(), candidates };
        proof {
            lemma_shape_refl(self);
            lemma_streaming_grows_refl(self);
        }
        let mut li: usize = 0;
        while li < NUM_LAYER_TYPES
            invariant
                self.wf(),
                same_shape(old(self), self),
                same_valid(old(self), self),
                self.num_inflight == old(self).num_inflight + plan.stream_requests.len(),
                self.free_download_buffers == old(self).free_download_buffers,
                self.total_download_buffers == old(self).total_download_buffers,
                requests_ok(self, plan.stream_requests@, 0),
                plan.tasks.len() == 0,
                forall|k: int| 0 <= k < plan.candidates.len() ==> (#[trigger] plan.candidates@[k]).wf() && self.resident(plan.candidates@[k]),
                0 <= li <= NUM_LAYER_TYPES,
                old(self).wf(),
                streaming_grows(old(self), self),
                forall|l: int, i: int, lj: int| 0 <= lj < li && #[trigger] old(self).stream_needed(l, i, lj) ==> self.stream_served(l, i, lj),
                same_provenance(old(self), self),
                plan.downloads.len() == 0,
                forall|l: int, i: int| #[trigger] old(self).candidate_slot(l, i) ==> in_list(plan.candidates@, slot_at(old(self), l, i).node),
                forall|k: int| 0 <= k < plan.candidates.len() ==> entry_of(old(self).levels@[(#[trigger] plan.candidates@[k]).level as int], plan.candidates@[k]).priority.key > spec_cutoff().key,
                forall|k: int| 0 <= k < plan.stream_requests.len() ==> request_due(old(self), #[trigger] plan.stream_requests@[k])
                    && streaming_of(self, plan.stream_requests@[k].0) & layer_bit(plan.stream_requests@[k].1.spec_index()) != 0,
            decreases NUM_LAYER_TYPES - li,
        {
            let min_level = self.layers[li].min_level;
            let max_level = self.layers[li].max_level;
            let mut l: u8 = min_level;
            while l <= max_level
                invariant
                    self.wf(),
                    li < NUM_LAYER_TYPES,
                    min_level == self.layers@[li as int].min_level,
                    max_level == self.layers@[li as int].max_level,
                    min_level <= l,
                    max_level <= MAX_QUADTREE_LEVEL,
                    l <= max_level + 1,
                    same_shape(old(self), self),
                    same_valid(old(self), self),
                    self.num_inflight == old(self).num_inflight + plan.stream_requests.len(),
                    self.free_download_buffers == old(self).free_download_buffers,
                    self.total_download_buffers == old(self).total_download_buffers,
                    requests_ok(self, plan.stream_requests@, 0),
                    plan.tasks.len() == 0,
                    forall|k: int| 0 <= k < plan.candidates.len() ==> (#[trigger] plan.candidates@[k]).wf() && self.resident(plan.candidates@[k]),
                    old(self).wf(),
                    streaming_grows(old(self), self),
                    forall|l2: int, i: int, lj: int| (0 <= lj < li || (lj == li && l2 < l)) && #[trigger] old(self).stream_needed(l2, i, lj)
                        ==> self.stream_served(l2, i, lj),
                    same_provenance(old(self), self),
                    plan.downloads.len() == 0,
                    forall|l2: int, i: int| #[trigger] old(self).candidate_slot(l2, i) ==> in_list(plan.candidates@, slot_at(old(self), l2, i).node),
                    forall|k: int| 0 <= k < plan.candidates.len() ==> entry_of(old(self).levels@[(#[trigger] plan.candidates@[k]).level as int], plan.candidates@[k]).priority.key > spec_cutoff().key,
                    forall|k: int| 0 <= k < plan.stream_requests.len() ==> request_due(old(self), #[trigger] plan.stream_requests@[k])
                        && streaming_of(self, plan.stream_requests@[k].0) & layer_bit(plan.stream_requests@[k].1.spec_index()) != 0,
                decreases max_level + 1 - l,
            {
                let ghost before = *self;
                let ghost reqs_before = plan.stream_requests@;
                self.classify_level(li, l as usize, &mut plan.stream_requests);
                proof {
                    assert forall|k: int| 0 <= k < plan.stream_requests.len() implies request_due(old(self), #[trigger] plan.stream_requests@[k])
                        && streaming_of(self, plan.stream_requests@[k].0) & layer_bit(plan.stream_requests@[k].1.spec_index()) != 0 by {
                        let r = plan.stream_requests@[k];
                        if k < reqs_before.len() {
                            assert(r == reqs_before[k]);
                            lemma_streaming_bit_stays(&before, self, r.0, layer_bit(r.1.spec_index()));
                        } else {
                            lemma_due_back(old(self), &before, r);
                        }
                    }
                    assert forall|l2: int, i2: int|
                        0 <= l2 < old(self).levels.len() && 0 <= i2 < old(self).levels@[l2].slots.len() implies (#[trigger] slot_at(old(self), l2, i2)).generators
                            == slot_at(self, l2, i2).generators by {
                        assert(slot_at(old(self), l2, i2).generators == slot_at(&before, l2, i2).generators);
                    }
                    lemma_shape_trans(old(self), &before, self);
                    lemma_candidates_keep(&before, self, plan.candidates@);
                    lemma_streaming_grows_trans(old(self), &before, self);
                    assert forall|l2: int, i: int, lj: int| (0 <= lj < li || (lj == li && l2 < l + 1)) && #[trigger] old(self).stream_needed(l2, i, lj)
                        implies self.stream_served(l2, i, lj) by {
                        assert(slot_at(old(self), l2, i).node == slot_at(&before, l2, i).node);
                        if lj < li || l2 < l {
                            lemma_served_stays(&before, self, l2, i, lj);
                        } else {
                            lemma_needed_or_served(old(self), &before, l2, i, lj);
                            if before.stream_served(l2, i, lj) {
                                lemma_served_stays(&before, self, l2, i, lj);
                            }
                        }
                    }
                }
                l = l + 1;
            }
            li = li + 1;
        }
        let ghost after_a = *self;
        let ghost cands0 = plan.candidates@;
        proof {
            lemma_same_valid_grows(old(self), self);
            assert forall|k: int| 0 <= k < cands0.len() implies old(self).resident(#[trigger] cands0[k]) by {
                lemma_resident_same(old(self), self, cands0[k]);
            }
            lemma_grows_refl(self);
            let e: Seq<GenerateTask> = plan.tasks@;
            assert(e.len() == 0);
            assert forall|l: int, i: int|
                0 <= l < NUM_LEVELS && 0 <= i < old(self).levels@[l].slots.len() implies (#[trigger] slot_at(self, l, i)).valid.bits
                    == valid_before(old(self), e, e.len() as int, slot_at(old(self), l, i).node) by {
                let m = slot_at(old(self), l, i).node;
                assert(level_wf(old(self).levels@[l], l));
                lemma_entry_index(old(self).levels@[l], old(self).levels@[l], m, i);
            }
            assert forall|l: int, i: int|
                0 <= l < NUM_LEVELS && 0 <= i < old(self).levels@[l].slots.len() implies vec_map_contents((#[trigger] slot_at(self, l, i)).generators)
                    == provenance_before(old(self), e, e.len() as int, slot_at(old(self), l, i).node) by {
                let m = slot_at(old(self), l, i).node;
                assert(level_wf(old(self).levels@[l], l));
                lemma_entry_index(old(self).levels@[l], old(self).levels@[l], m, i);
            }
        }
        let mut c: usize = 0;
        let ghost mut pos: Seq<int> = Seq::empty();
        while c < plan.candidates.len() && plan.tasks.len() < FRAME_BUDGET
            invariant
                served_in_order(plan.tasks@, plan.candidates@, pos),
                forall|k: int| 0 <= k < pos.len() ==> #[trigger] pos[k] < c,
                plan.candidates@ == cands0,
                forall|k: int| 0 <= k < cands0.len() ==> old(self).resident(#[trigger] cands0[k]),
                forall|l: int, i: int| #[trigger] old(self).candidate_slot(l, i) ==> in_list(cands0, slot_at(old(self), l, i).node),
                self.wf(),
                old(self).wf(),
                valid_grows(old(self), self),
                valid_grows(&after_a, self),
                same_valid(old(self), &after_a),
                same_shape(old(self), &after_a),
                after_a.wf(),
                self.num_inflight == old(self).num_inflight + plan.stream_requests.len(),
                requests_ok(self, plan.stream_requests@, 0),
                plan.tasks.len() <= FRAME_BUDGET,
                forall|k: int| 0 <= k < plan.candidates.len() ==> (#[trigger] plan.candidates@[k]).wf() && after_a.resident(plan.candidates@[k]),
                forall|k: int| 0 <= k < plan.candidates.len() ==> entry_of(old(self).levels@[(#[trigger] plan.candidates@[k]).level as int], plan.candidates@[k]).priority.key > spec_cutoff().key,
                c <= plan.candidates.len(),
                same_streaming(&after_a, self),
                self.num_inflight == after_a.num_inflight,
                valid_trace(old(self), self, plan.tasks@),
                provenance_trace(old(self), self, plan.tasks@),
                forall|k: int| 0 <= k < plan.tasks.len() ==> task_fits(old(self), &after_a, plan.tasks@, k),
                forall|j: int| 0 <= j < plan.downloads.len() ==> heightmap_run(plan.tasks@, #[trigger] plan.downloads@[j])
                    && plan.downloads@[j].level <= old(self).readback_max_level,
                distinct_vnodes(plan.downloads@),
                forall|k: int| 0 <= k < plan.stream_requests.len() ==> request_due(old(self), #[trigger] plan.stream_requests@[k])
                    && streaming_of(self, plan.stream_requests@[k].0) & layer_bit(plan.stream_requests@[k].1.spec_index()) != 0,
                plan.tasks.len() < FRAME_BUDGET ==> forall|c2: int, gi: int|
                    0 <= c2 < c && #[trigger] after_a.generator_ready(plan.candidates@[c2], gi) ==> self.missing_outputs(plan.candidates@[c2], gi) == 0
                        || pool_exhausted(self),
            decreases plan.candidates.len() - c,
        {
            let n = plan.candidates[c];
            let ghost before = *self;
            let ghost tasks_before = plan.tasks@;
            proof {
                lemma_same_shape_trans(old(self), &after_a, self);
                lemma_same_shape_trans(&after_a, &after_a, self);
                lemma_resident_same(old(self), &after_a, n);
            }
            self.generate_node(n, &mut plan, Ghost(*old(self)), Ghost(after_a));
            proof {
                let added = (plan.tasks.len() - tasks_before.len()) as nat;
                let pos2 = pos + Seq::new(added, |_k: int| c as int);
                assert forall|k: int| 0 <= k < plan.tasks.len() implies 0 <= #[trigger] pos2[k] < plan.candidates.len()
                    && plan.candidates@[pos2[k]] == plan.tasks@[k].node by {
                    if k < tasks_before.len() {
                        assert(plan.tasks@[k] == tasks_before[k]);
                    }
                }
                assert forall|a: int, b: int| 0 <= a < b < plan.tasks.len() implies #[trigger] pos2[a] <= #[trigger] pos2[b] by {
                    if b < tasks_before.len() {
                        assert(pos[a] <= pos[b]);
                    }
                }
                assert(served_in_order(plan.tasks@, plan.candidates@, pos2));
                pos = pos2;
            }
            proof {
                assert forall|l: int, i: int|
                    0 <= l < after_a.levels.len() && 0 <= i < after_a.levels@[l].slots.len() implies (#[trigger] slot_at(&after_a, l, i)).streaming
                        == slot_at(self, l, i).streaming by {
                    assert(slot_at(&after_a, l, i).streaming == slot_at(&before, l, i).streaming);
                    assert(slot_at(&before, l, i).streaming == slot_at(self, l, i).streaming);
                }
                if plan.tasks.len() < FRAME_BUDGET {
                    assert forall|c2: int, gi: int|
                        0 <= c2 < c + 1 && #[trigger] after_a.generator_ready(plan.candidates@[c2], gi) implies self.missing_outputs(plan.candidates@[c2], gi) == 0
                            || pool_exhausted(self) by {
                        assert(after_a.resident(plan.candidates@[c2]));
                        lemma_resident_same(&after_a, &before, plan.candidates@[c2]);
                        if c2 < c {
                            assert(tasks_before.len() < FRAME_BUDGET);
                            if before.missing_outputs(plan.candidates@[c2], gi) == 0 {
                                lemma_missing_stays(&before, self, plan.candidates@[c2], gi);
                            }
                        } else {
                            lemma_ready_grows(&after_a, &before, n, gi);
                        }
                    }
                }
                lemma_grows_trans(old(self), &before, self);
                lemma_grows_trans(&after_a, &before, self);
                lemma_requests_keep(&before, self, plan.stream_requests@, 0);
                assert forall|k: int| 0 <= k < plan.stream_requests.len() implies request_due(old(self), #[trigger] plan.stream_requests@[k])
                    && streaming_of(self, plan.stream_requests@[k].0) & layer_bit(plan.stream_requests@[k].1.spec_index()) != 0 by {
                    lemma_streaming_of_same(&before, self, plan.stream_requests@[k].0);
                }
            }
            c = c + 1;
        }
        proof {
            assert(served_in_order(plan.tasks@, plan.candidates@, pos));
            assert forall|k: int| 0 <= k < plan.candidates.len() implies old(self).resident(#[trigger] plan.candidates@[k])
                && entry_of(old(self).levels@[plan.candidates@[k].level as int], plan.candidates@[k]).priority.key > spec_cutoff().key by {
            }
            assert(streaming_grows(&after_a, self)) by {
                assert forall|l: int, i: int|
                    0 <= l < after_a.levels.len() && 0 <= i < after_a.levels@[l].slots.len() implies (#[trigger] slot_at(&after_a, l, i)).streaming.bits
                        & !slot_at(self, l, i).streaming.bits == 0 by {
                    let x = slot_at(&after_a, l, i).streaming.bits;
                    assert(x & !x == 0) by (bit_vector);
                }
            }
            assert forall|l: int, i: int, li: int| #[trigger] old(self).stream_needed(l, i, li) implies self.stream_served(l, i, li) by {
                lemma_served_stays(&after_a, self, l, i, li);
            }
            assert forall|k: int| 0 <= k < plan.tasks.len() implies task_fits(old(self), self, plan.tasks@, k) by {
                lemma_task_fits_streaming(old(self), &after_a, self, plan.tasks@, k);
            }
            if plan.tasks.len() < FRAME_BUDGET && !pool_exhausted(self) {
                assert(c == plan.candidates.len());
                assert forall|l: int, i: int, gi: int|
                    #![trigger old(self).candidate_slot(l, i), old(self).generator_ready(slot_at(old(self), l, i).node, gi)]
                    old(self).candidate_slot(l, i) && old(self).generator_ready(slot_at(old(self), l, i).node, gi)
                        implies self.missing_outputs(slot_at(old(self), l, i).node, gi) == 0 by {
                    let nd = slot_at(old(self), l, i).node;
                    assert(in_list(plan.candidates@, nd));
                    let k = choose|k: int| 0 <= k < plan.candidates.len() && plan.candidates@[k] == nd;
                    lemma_ready_grows(old(self), &after_a, nd, gi);
                    assert(after_a.generator_ready(plan.candidates@[k], gi));
                }
            }
        }
        plan
    }

    /// Generation candidates of phase A, layer by layer and then mesh by mesh, level by
    /// level, slot by slot: every candidate slot's node is listed.
    fn generation_candidates(&self) -> (r: Vec<VNode>)
        requires
            self.wf(),
        ensures
            forall|k: int| 0 <= k < r.len() ==> (#[trigger] r@[k]).wf() && self.resident(r@[k]),
            forall|k: int| 0 <= k < r.len() ==> entry_of(self.levels@[(#[trigger] r@[k]).level as int], r@[k]).priority.key > spec_cutoff().key,
            forall|k: int| 0 <= k < r.len() ==> entry_of(self.levels@[(#[trigger] r@[k]).level as int], r@[k]).priority.key > spec_cutoff().key,
            forall|l: int, i: int| #[trigger] self.candidate_slot(l, i) ==> in_list(r@, slot_at(self, l, i).node),
    {
        let cutoff = Priority::cutoff();
        let mut r: Vec<VNode> = Vec::new();
        let mut li: usize = 0;
        while li < NUM_LAYER_TYPES
            invariant
                self.wf(),
                cutoff == spec_cutoff(),
                0 <= li <= NUM_LAYER_TYPES,
                forall|k: int| 0 <= k < r.len() ==> (#[trigger] r@[k]).wf() && self.resident(r@[k]),
                forall|k: int| 0 <= k < r.len() ==> entry_of(self.levels@[(#[trigger] r@[k]).level as int], r@[k]).priority.key > spec_cutoff().key,
                forall|l: int, i: int, lj: int|
                    0 <= l < NUM_LEVELS && 0 <= i < self.levels@[l].slots.len() && 0 <= lj < li
                        && slot_at(self, l, i).priority.key > spec_cutoff().key && #[trigger] self.layer_candidate(l, i, lj)
                        ==> in_list(r@, slot_at(self, l, i).node),
            decreases NUM_LAYER_TYPES - li,
        {
            let min_level = self.layers[li].min_level;
            let max_level = self.layers[li].max_level;
            let streamed_levels = self.layers[li].streamed_levels;
            let mut l: u8 = min_level;
            while l <= max_level
                invariant
                    self.wf(),
                    cutoff == spec_cutoff(),
                    li < NUM_LAYER_TYPES,
                    min_level == self.layers@[li as int].min_level,
                    max_level == self.layers@[li as int].max_level,
                    streamed_levels == self.layers@[li as int].streamed_levels,
                    max_level <= MAX_QUADTREE_LEVEL,
                    min_level <= l <= max_level + 1,
                    forall|k: int| 0 <= k < r.len() ==> (#[trigger] r@[k]).wf() && self.resident(r@[k]),
                    forall|k: int| 0 <= k < r.len() ==> entry_of(self.levels@[(#[trigger] r@[k]).level as int], r@[k]).priority.key > spec_cutoff().key,
                    forall|l2: int, i: int, lj: int|
                        0 <= l2 < NUM_LEVELS && 0 <= i < self.levels@[l2].slots.len() && (0 <= lj < li || (lj == li && l2 < l))
                            && slot_at(self, l2, i).priority.key > spec_cutoff().key && #[trigger] self.layer_candidate(l2, i, lj)
                            ==> in_list(r@, slot_at(self, l2, i).node),
                decreases max_level + 1 - l,
            {
                let n = self.levels[l as usize].slots.len();
                let mut i: usize = 0;
                while i < n
                    invariant
                        self.wf(),
                        cutoff == spec_cutoff(),
                        li < NUM_LAYER_TYPES,
                        min_level == self.layers@[li as int].min_level,
                        max_level == self.layers@[li as int].max_level,
                        streamed_levels == self.layers@[li as int].streamed_levels,
                        max_level <= MAX_QUADTREE_LEVEL,
                        min_level <= l <= max_level,
                        n == self.levels@[l as int].slots.len(),
                        0 <= i <= n,
                        forall|k: int| 0 <= k < r.len() ==> (#[trigger] r@[k]).wf() && self.resident(r@[k]),
                        forall|k: int| 0 <= k < r.len() ==> entry_of(self.levels@[(#[trigger] r@[k]).level as int], r@[k]).priority.key > spec_cutoff().key,
                        forall|l2: int, i2: int, lj: int|
                            0 <= l2 < NUM_LEVELS && 0 <= i2 < self.levels@[l2].slots.len()
                                && (0 <= lj < li || (lj == li && l2 < l) || (lj == li && l2 == l && i2 < i))
                                && slot_at(self, l2, i2).priority.key > spec_cutoff().key && #[trigger] self.layer_candidate(l2, i2, lj)
                                ==> in_list(r@, slot_at(self, l2, i2).node),
                    decreases n - i,
                {
                    let e = &self.levels[l as usize].slots[i];
                    let missing = (e.valid.bits | e.streaming.bits) & (1u32 << (li as u32)) == 0;
                    if e.priority.key > cutoff.key && missing && l >= streamed_levels {
                        proof {
                            assert(level_wf(self.levels@[l as int], l as int));
                            assert(self.levels@[l as int].slots@[i as int].node == e.node);
                            lemma_in_list_push(r@, e.node);
                            lemma_entry_index(self.levels@[l as int], self.levels@[l as int], e.node, i as int);
                        }
                        r.push(e.node);
                    }
                    i = i + 1;
                }
                l = l + 1;
            }
            li = li + 1;
        }
        let mut mi: usize = 0;
        while mi < NUM_MESH_TYPES
            invariant
                self.wf(),
                cutoff == spec_cutoff(),
                0 <= mi <= NUM_MESH_TYPES,
                forall|k: int| 0 <= k < r.len() ==> (#[trigger] r@[k]).wf() && self.resident(r@[k]),
                forall|k: int| 0 <= k < r.len() ==> entry_of(self.levels@[(#[trigger] r@[k]).level as int], r@[k]).priority.key > spec_cutoff().key,
                forall|l: int, i: int, lj: int|
                    0 <= l < NUM_LEVELS && 0 <= i < self.levels@[l].slots.len() && 0 <= lj < NUM_LAYER_TYPES
                        && slot_at(self, l, i).priority.key > spec_cutoff().key && #[trigger] self.layer_candidate(l, i, lj)
                        ==> in_list(r@, slot_at(self, l, i).node),
                forall|l: int, i: int, mj: int|
                    0 <= l < NUM_LEVELS && 0 <= i < self.levels@[l].slots.len() && 0 <= mj < mi
                        && slot_at(self, l, i).priority.key > spec_cutoff().key && #[trigger] self.mesh_candidate(l, i, mj)
                        ==> in_list(r@, slot_at(self, l, i).node),
            decreases NUM_MESH_TYPES - mi,
        {
            let ty = self.meshes[mi].ty;
            let min_level = self.meshes[mi].min_level;
            let max_level = self.meshes[mi].max_level;
            let mut l: u8 = min_level;
            while l <= max_level
                invariant
                    self.wf(),
                    cutoff == spec_cutoff(),
                    mi < NUM_MESH_TYPES,
                    ty == self.meshes@[mi as int].ty,
                    min_level == self.meshes@[mi as int].min_level,
                    max_level == self.meshes@[mi as int].max_level,
                    max_level <= MAX_QUADTREE_LEVEL,
                    min_level <= l <= max_level + 1,
                    forall|k: int| 0 <= k < r.len() ==> (#[trigger] r@[k]).wf() && self.resident(r@[k]),
                    forall|k: int| 0 <= k < r.len() ==> entry_of(self.levels@[(#[trigger] r@[k]).level as int], r@[k]).priority.key > spec_cutoff().key,
                    forall|l2: int, i: int, lj: int|
                        0 <= l2 < NUM_LEVELS && 0 <= i < self.levels@[l2].slots.len() && 0 <= lj < NUM_LAYER_TYPES
                            && slot_at(self, l2, i).priority.key > spec_cutoff().key && #[trigger] self.layer_candidate(l2, i, lj)
                            ==> in_list(r@, slot_at(self, l2, i).node),
                    forall|l2: int, i: int, mj: int|
                        0 <= l2 < NUM_LEVELS && 0 <= i < self.levels@[l2].slots.len() && (0 <= mj < mi || (mj == mi && l2 < l))
                            && slot_at(self, l2, i).priority.key > spec_cutoff().key && #[trigger] self.mesh_candidate(l2, i, mj)
                            ==> in_list(r@, slot_at(self, l2, i).node),
                decreases max_level + 1 - l,
            {
                let n = self.levels[l as usize].slots.len();
                let mut i: usize = 0;
                while i < n
                    invariant
                        self.wf(),
                        cutoff == spec_cutoff(),
                        mi < NUM_MESH_TYPES,
                        ty == self.meshes@[mi as int].ty,
                        min_level == self.meshes@[mi as int].min_level,
                        max_level == self.meshes@[mi as int].max_level,
                        max_level <= MAX_QUADTREE_LEVEL,
                        min_level <= l <= max_level,
                        n == self.levels@[l as int].slots.len(),
                        0 <= i <= n,
                        forall|k: int| 0 <= k < r.len() ==> (#[trigger] r@[k]).wf() && self.resident(r@[k]),
                        forall|k: int| 0 <= k < r.len() ==> entry_of(self.levels@[(#[trigger] r@[k]).level as int], r@[k]).priority.key > spec_cutoff().key,
                        forall|l2: int, i2: int, lj: int|
                            0 <= l2 < NUM_LEVELS && 0 <= i2 < self.levels@[l2].slots.len() && 0 <= lj < NUM_LAYER_TYPES
                                && slot_at(self, l2, i2).priority.key > spec_cutoff().key && #[trigger] self.layer_candidate(l2, i2, lj)
                                ==> in_list(r@, slot_at(self, l2, i2).node),
                        forall|l2: int, i2: int, mj: int|
                            0 <= l2 < NUM_LEVELS && 0 <= i2 < self.levels@[l2].slots.len()
                                && (0 <= mj < mi || (mj == mi && l2 < l) || (mj == mi && l2 == l && i2 < i))
                                && slot_at(self, l2, i2).priority.key > spec_cutoff().key && #[trigger] self.mesh_candidate(l2, i2, mj)
                                ==> in_list(r@, slot_at(self, l2, i2).node),
                    decreases n - i,
                {
                    let e = &self.levels[l as usize].slots[i];
                    if e.priority.key > cutoff.key && !e.valid.contains_mesh(ty) {
                        proof {
                            assert(level_wf(self.levels@[l as int], l as int));
                            assert(self.levels@[l as int].slots@[i as int].node == e.node);
                            lemma_in_list_push(r@, e.node);
                            lemma_entry_index(self.levels@[l as int], self.levels@[l as int], e.node, i as int);
                        }
                        r.push(e.node);
                    }
                    i = i + 1;
                }
                l = l + 1;
            }
            mi = mi + 1;
        }
        r
    }
}

} // verus!
