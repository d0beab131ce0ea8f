use terra::generators::generators;
use terra::layer::{GeneratorMask, LayerMask, LayerType, MeshType};
use terra::node::VNode;
use terra::priority::Priority;
use terra::tile::{GeneratorDesc, LayerParams, MeshParams, TileCache, FRAME_BUDGET, MAX_INFLIGHT, NUM_LEVELS};
use terra::tile_cache;
use terra::texture::TextureFormat;

fn p(v: f32) -> Priority {
    Priority::from_bits(v.to_bits())
}

fn node(level: u8, x: u32, y: u32) -> VNode {
    VNode::new(0, level, x, y).unwrap()
}

fn layers(ranges: &[(u8, u8, u8)]) -> Vec<LayerParams> {
    (0..11)
        .map(|i| {
            let (min_level, max_level, streamed_levels) = ranges[i];
            LayerParams {
                layer_type: LayerType::from_index(i),
                texture_resolution: 8,
                texture_border_size: 0,
                texture_format: vec![TextureFormat::R8],
                grid_registration: false,
                min_level,
                max_level,
                streamed_levels,
            }
        })
        .collect()
}

fn meshes() -> Vec<MeshParams> {
    vec![
        MeshParams { ty: MeshType::Grass, min_level: 0, max_level: 22 },
        MeshParams { ty: MeshType::Terrain, min_level: 0, max_level: 22 },
        MeshParams { ty: MeshType::TreeBillboards, min_level: 0, max_level: 22 },
    ]
}

fn all_generated() -> Vec<LayerParams> {
    layers(&[(0, 22, 0); 11])
}

fn gen(name: &str, outputs: LayerMask, peer: LayerMask, parent: LayerMask, ancestor: LayerMask) -> GeneratorDesc {
    GeneratorDesc {
        name: name.to_string(),
        outputs,
        peer_inputs: peer,
        parent_inputs: parent,
        ancestor_inputs: ancestor,
    }
}

fn make_resident(cache: &mut TileCache, nodes: &[(VNode, f32)]) {
    for &(n, v) in nodes {
        cache.add_missing(p(v), n);
    }
    cache.load_missing();
}

#[test]
fn capacity_four_keeps_highest_priorities() {
    let mut level = tile_cache::TileCache::new(4, 0);
    let nodes: Vec<VNode> = (0..6).map(|x| node(3, x, 0)).collect();
    for (n, v) in nodes.iter().zip([5.0f32, 4.0, 3.0, 2.0, 1.0, 0.0]) {
        level.add_missing((p(v), *n));
    }
    assert_eq!(level.missing.len(), 5);
    level.load_missing();
    assert_eq!(level.slots.len(), 4);
    for i in 0..4 {
        assert!(level.contains(nodes[i]));
    }
    assert!(!level.contains(nodes[4]));
    assert!(!level.contains(nodes[5]));
}

#[test]
fn replacement_evicts_lowest_and_keeps_slots() {
    let mut level = tile_cache::TileCache::new(2, 0);
    let a = node(1, 0, 0);
    let b = node(1, 1, 0);
    let c = node(1, 0, 1);
    level.add_missing((p(3.0), a));
    level.add_missing((p(2.0), b));
    level.load_missing();
    assert_eq!(level.slot_of(a), Some(0));
    assert_eq!(level.slot_of(b), Some(1));
    level.update_priorities(&vec![p(3.0), p(2.0)]);
    assert_eq!(level.min_priority, p(2.0));
    level.add_missing((p(1.5), c));
    assert_eq!(level.missing.len(), 0);
    level.add_missing((p(2.5), c));
    assert_eq!(level.missing.len(), 1);
    level.add_missing((p(2.5), c));
    assert_eq!(level.missing.len(), 1);
    level.load_missing();
    assert_eq!(level.slot_of(a), Some(0));
    assert_eq!(level.slot_of(c), Some(1));
    assert!(!level.contains(b));
    assert_eq!(level.slots.len(), 2);
}

#[test]
fn zero_capacity_admits_nothing() {
    let mut level = tile_cache::TileCache::new(0, 0);
    level.add_missing((p(9.0), node(0, 0, 0)));
    level.load_missing();
    assert_eq!(level.slots.len(), 0);
}

#[test]
fn config_is_checked() {
    assert!(TileCache::new(all_generated(), meshes(), vec![4; NUM_LEVELS], generators(), 13).is_some());
    assert!(TileCache::new(all_generated(), meshes(), vec![4; NUM_LEVELS - 1], generators(), 13).is_none());
    let mut bad = all_generated();
    bad[3].min_level = 5;
    bad[3].max_level = 4;
    assert!(TileCache::new(bad, meshes(), vec![4; NUM_LEVELS], generators(), 13).is_none());
    let mut caps = vec![0; NUM_LEVELS];
    caps[0] = usize::MAX;
    caps[1] = 1;
    assert!(TileCache::new(all_generated(), meshes(), caps, generators(), 13).is_none());
}

#[test]
fn ancestor_input_missing_skips_generation() {
    let tc = LayerType::TreeCover.bit_mask();
    let ta = LayerType::TreeAttributes.bit_mask();
    let mut ranges = [(0u8, 22u8, 0u8); 11];
    ranges[LayerType::TreeCover.index()] = (0, 3, 4);
    let gens = vec![gen("tree-attributes", ta, LayerMask::empty(), LayerMask::empty(), tc)];
    let mut cache = TileCache::new(layers(&ranges), meshes(), vec![4; NUM_LEVELS], gens, 13).unwrap();
    let n = node(5, 3, 1);
    // The parent is resident, so only the ancestor input can hold generation back.
    make_resident(&mut cache, &[(n.parent().unwrap().0, 5.0), (n, 5.0)]);
    assert!(cache.contains_all(n, LayerMask::empty()));
    let slot = cache.levels[5].slot_of(n).unwrap();
    let valid_before = cache.levels[5].slots[slot].valid;
    let plan = cache.generate_tiles();
    assert!(plan.tasks.is_empty());
    assert_eq!(cache.levels[5].slots[slot].valid, valid_before);
    assert!(!cache.contains(n, LayerType::TreeAttributes));
    assert!(!cache.ancestor_layer_available(n, LayerType::TreeCover));
}

#[test]
fn ancestor_input_branches() {
    let tc = LayerType::TreeCover.bit_mask();
    let ta = LayerType::TreeAttributes.bit_mask();
    let mut ranges = [(0u8, 22u8, 0u8); 11];
    ranges[LayerType::TreeCover.index()] = (2, 3, 4);
    let gens = vec![gen("tree-attributes", ta, LayerMask::empty(), LayerMask::empty(), tc)];
    let mut cache = TileCache::new(layers(&ranges), meshes(), vec![4; NUM_LEVELS], gens, 13).unwrap();
    let shallow = node(1, 0, 0);
    let anc = node(3, 0, 0);
    let deep = node(5, 3, 1);
    make_resident(&mut cache, &[(shallow, 5.0), (anc, 5.0), (deep.parent().unwrap().0, 5.0), (deep, 5.0)]);
    // Above the layer's shallowest level: never available.
    assert!(!cache.ancestor_layer_available(shallow, LayerType::TreeCover));
    // Within the range: the node itself must hold it.
    assert!(!cache.ancestor_layer_available(anc, LayerType::TreeCover));
    let plan = cache.generate_tiles();
    assert_eq!(plan.stream_requests.len(), 1);
    assert_eq!(plan.stream_requests[0], (anc, LayerType::TreeCover));
    assert_eq!(cache.num_inflight, 1);
    cache.complete_streaming(anc, LayerType::TreeCover, Vec::new());
    assert_eq!(cache.num_inflight, 0);
    assert!(cache.contains(anc, LayerType::TreeCover));
    assert!(cache.ancestor_layer_available(anc, LayerType::TreeCover));
    // Below the range: the ancestor at the deepest level must hold it.
    assert!(cache.ancestor_layer_available(deep, LayerType::TreeCover));
    assert!(!cache.ancestor_layer_available(shallow, LayerType::TreeCover));
    let plan = cache.generate_tiles();
    assert!(plan.tasks.iter().any(|t| t.node == deep && t.generator == 0 && t.outputs == ta));
    assert!(cache.contains(deep, LayerType::TreeAttributes));
    assert!(!cache.contains(shallow, LayerType::TreeAttributes));
}

#[test]
fn generation_follows_dependency_order() {
    let mut cache = TileCache::new(all_generated(), meshes(), vec![8; NUM_LEVELS], generators(), 13).unwrap();
    let root = VNode::root(0);
    make_resident(&mut cache, &[(root, 5.0)]);
    let plan = cache.generate_tiles();
    let order: Vec<usize> = plan.tasks.iter().map(|t| t.generator).collect();
    // Heightmaps need the parent's heightmaps, so they never run at a root; everything
    // that needs them waits too.
    assert_eq!(order, vec![0]);
    assert!(cache.contains(root, LayerType::Ellipsoid));
    assert!(!cache.contains(root, LayerType::Heightmaps));
    assert_eq!(plan.tasks[0].slot, 0);
    assert_eq!(plan.tasks[0].parent_slot, None);
}

#[test]
fn peer_and_parent_inputs_gate_generation() {
    let h = LayerType::Heightmaps.bit_mask();
    let n_ = LayerType::Normals.bit_mask();
    let gens = vec![
        gen("root-heights", h, LayerMask::empty(), LayerMask::empty(), LayerMask::empty()),
        gen("normals", n_, h, LayerMask::empty(), LayerMask::empty()),
        gen("child-heights", h, LayerMask::empty(), h, LayerMask::empty()),
    ];
    let mut cache = TileCache::new(all_generated(), meshes(), vec![8; NUM_LEVELS], gens, 13).unwrap();
    let root = VNode::root(0);
    let child = node(1, 1, 1);
    make_resident(&mut cache, &[(root, 5.0), (child, 5.0)]);
    let plan = cache.generate_tiles();
    let runs: Vec<(VNode, usize)> = plan.tasks.iter().map(|t| (t.node, t.generator)).collect();
    assert!(runs.contains(&(root, 0)));
    assert!(runs.contains(&(root, 1)));
    assert!(cache.contains(child, LayerType::Heightmaps));
    assert!(cache.contains(child, LayerType::Normals));
    assert_eq!(plan.downloads.len(), 2);
    let child_task = plan.tasks.iter().find(|t| t.node == child && t.outputs == h).unwrap();
    assert_eq!(child_task.parent_slot, Some(0));
    assert_eq!(child_task.slot, 8);
}

#[test]
fn generation_is_idempotent() {
    let mut cache = TileCache::new(all_generated(), meshes(), vec![8; NUM_LEVELS], generators(), 13).unwrap();
    let root = VNode::root(0);
    make_resident(&mut cache, &[(root, 5.0)]);
    let first = cache.generate_tiles();
    assert_eq!(first.tasks.len(), 1);
    let second = cache.generate_tiles();
    assert!(second.tasks.is_empty());
    assert!(cache.contains(root, LayerType::Ellipsoid));
}

#[test]
fn entry_generation_record_is_idempotent() {
    let mut e = tile_cache::Entry::new(node(2, 1, 1), p(3.0));
    let out = LayerType::Normals.bit_mask().union(LayerType::AlbedoRoughness.bit_mask());
    let g = GeneratorMask::from_index(4);
    e.mark_generated(out, g);
    let valid = e.valid;
    let deps = e.generator_dependencies(out);
    e.mark_generated(out, g);
    assert_eq!(e.valid, valid);
    assert_eq!(e.generator_dependencies(out), deps);
    assert_eq!(deps, g);
    assert!(e.generators.contains_key(LayerType::Normals.index()));
}

#[test]
fn frame_budget_is_respected() {
    let e = LayerType::Ellipsoid.bit_mask();
    let gens = vec![gen("ellipsoid", e, LayerMask::empty(), LayerMask::empty(), LayerMask::empty())];
    let mut cache = TileCache::new(all_generated(), meshes(), vec![64; NUM_LEVELS], gens, 13).unwrap();
    // A root with all its descendants down to level 2 and 19 cells of level 3: forty
    // nodes, each with its parent resident.
    let mut nodes = vec![(VNode::root(0), 5.0)];
    for level in 1..3u8 {
        let side = 1u32 << level;
        for x in 0..side {
            for y in 0..side {
                nodes.push((node(level, x, y), 5.0));
            }
        }
    }
    for i in 0..19u32 {
        nodes.push((node(3, i % 8, i / 8), 5.0));
    }
    assert_eq!(nodes.len(), 40);
    make_resident(&mut cache, &nodes);
    let mut total = 0;
    for frame in 1..=3 {
        let plan = cache.generate_tiles();
        assert!(plan.tasks.len() <= FRAME_BUDGET);
        total += plan.tasks.len();
        assert!(total <= FRAME_BUDGET * frame);
    }
    assert_eq!(total, 40);
}

#[test]
fn in_flight_budget_is_respected() {
    let mut ranges = [(0u8, 22u8, 0u8); 11];
    ranges[LayerType::BaseAlbedo.index()] = (0, 22, 23);
    let mut cache = TileCache::new(layers(&ranges), meshes(), vec![200; NUM_LEVELS], Vec::new(), 13).unwrap();
    let mut nodes = Vec::new();
    for x in 0..16 {
        for y in 0..10 {
            nodes.push((node(4, x, y), 5.0));
        }
    }
    make_resident(&mut cache, &nodes);
    let plan = cache.generate_tiles();
    assert_eq!(plan.stream_requests.len(), MAX_INFLIGHT);
    assert_eq!(cache.num_inflight, MAX_INFLIGHT);
    let again = cache.generate_tiles();
    assert!(again.stream_requests.is_empty());
    for &(n, l) in plan.stream_requests.iter().take(10) {
        cache.complete_streaming(n, l, Vec::new());
    }
    let third = cache.generate_tiles();
    assert_eq!(third.stream_requests.len(), 10);
    assert_eq!(cache.num_inflight, MAX_INFLIGHT);
}

#[test]
fn streaming_and_valid_never_overlap() {
    let mut ranges = [(0u8, 22u8, 0u8); 11];
    ranges[LayerType::Heightmaps.index()] = (0, 22, 3);
    let h = LayerType::Heightmaps.bit_mask();
    let gens = vec![gen("heights", h, LayerMask::empty(), LayerMask::empty(), LayerMask::empty())];
    let mut cache = TileCache::new(layers(&ranges), meshes(), vec![8; NUM_LEVELS], gens, 13).unwrap();
    let n = node(1, 0, 1);
    make_resident(&mut cache, &[(n, 5.0)]);
    let plan = cache.generate_tiles();
    assert_eq!(plan.stream_requests, vec![(n, LayerType::Heightmaps)]);
    assert!(plan.tasks.is_empty());
    let (level, slot) = (1usize, cache.levels[1].slot_of(n).unwrap());
    let e = &cache.levels[level].slots[slot];
    assert_eq!(e.valid.bits & e.streaming.bits, 0);
    cache.complete_streaming(n, LayerType::Heightmaps, vec![-5, 100, 30]);
    let e = &cache.levels[level].slots[slot];
    assert_eq!(e.valid.bits & e.streaming.bits, 0);
    assert_eq!(e.streaming.bits, 0);
    assert!(cache.contains(n, LayerType::Heightmaps));
    assert_eq!(cache.get_height_range(n), (-5, 6100));
    assert_eq!(cache.get_height_range(node(2, 0, 2)), (-5, 6100));
    assert_eq!(cache.get_height_range(node(2, 3, 3)), (0, 9000));
}

#[test]
fn download_returns_buffer_and_keeps_heights() {
    let h = LayerType::Heightmaps.bit_mask();
    let gens = vec![gen("heights", h, LayerMask::empty(), LayerMask::empty(), LayerMask::empty())];
    let mut cache = TileCache::new(all_generated(), meshes(), vec![8; NUM_LEVELS], gens, 13).unwrap();
    let n = node(2, 1, 2);
    make_resident(&mut cache, &[(VNode::root(0), 5.0), (node(1, 0, 1), 5.0), (n, 5.0)]);
    let plan = cache.generate_tiles();
    assert_eq!(plan.downloads.len(), 3);
    assert!(plan.downloads.contains(&n));
    assert_eq!(cache.total_download_buffers, 3);
    assert_eq!(cache.free_download_buffers, 0);
    cache.complete_download(n, vec![10, 20]);
    assert_eq!(cache.free_download_buffers, 1);
    // A later run reuses the free buffer instead of making a new one.
    let m = node(2, 0, 2);
    make_resident(&mut cache, &[(m, 5.0)]);
    let plan = cache.generate_tiles();
    assert_eq!(plan.downloads, vec![m]);
    assert_eq!(cache.free_download_buffers, 0);
    assert_eq!(cache.total_download_buffers, 3);
    assert_eq!(cache.get_height_range(n), (0, 6020));
}

#[test]
fn visibility_collapses_to_coarsest() {
    let e = LayerType::Ellipsoid.bit_mask();
    let gens = vec![gen("ellipsoid", e, LayerMask::empty(), LayerMask::empty(), LayerMask::empty())];
    let mut cache = TileCache::new(all_generated(), meshes(), vec![8; NUM_LEVELS], gens, 13).unwrap();
    let root = VNode::root(0);
    let kids = root.children();
    make_resident(&mut cache, &[(root, 5.0), (kids[0], 5.0), (kids[1], 5.0), (kids[2], 0.5)]);
    // Nothing valid yet: nothing to show.
    assert!(cache.compute_visible(e).is_empty());
    cache.generate_tiles();
    let vis = cache.compute_visible(e);
    // Children 0 and 1 are visible; 2 is below the cutoff and 3 is absent.
    assert!(vis.contains(&(root, 0b1100)));
    assert!(vis.contains(&(kids[0], 15)));
    assert!(vis.contains(&(kids[1], 15)));
    assert_eq!(vis.len(), 3);
    // With every child visible the root itself is not drawn.
    make_resident(&mut cache, &[(kids[2], 5.0), (kids[3], 5.0)]);
    cache.update_priorities(1, &vec![p(5.0), p(5.0), p(5.0), p(5.0)]);
    cache.generate_tiles();
    let vis = cache.compute_visible(e);
    assert!(!vis.iter().any(|v| v.0 == root));
    assert_eq!(vis.len(), 4);
}

#[test]
fn dynamic_generator_slot_selection() {
    let e = LayerType::Ellipsoid.bit_mask();
    let gens = vec![gen("ellipsoid", e, LayerMask::empty(), LayerMask::empty(), LayerMask::empty())];
    let mut cache = TileCache::new(all_generated(), meshes(), vec![2; NUM_LEVELS], gens, 13).unwrap();
    let root = VNode::root(0);
    let kid = root.children()[2];
    make_resident(&mut cache, &[(root, 5.0), (kid, 0.5)]);
    assert_eq!(cache.dynamic_generator_slots(LayerMask::empty(), 0, 1), vec![0]);
    assert!(cache.dynamic_generator_slots(e, 0, 1).is_empty());
    cache.generate_tiles();
    assert_eq!(cache.dynamic_generator_slots(e, 0, 0), vec![0]);
    assert!(cache.dynamic_generator_slots(e, 1, 1).is_empty());
}

#[test]
fn layer_masks() {
    let a = LayerType::Heightmaps.bit_mask().union(LayerType::Normals.bit_mask());
    assert!(a.contains_layer(LayerType::Normals));
    assert!(!a.contains_layer(LayerType::AlbedoRoughness));
    assert_eq!(a.intersection(LayerType::Normals.bit_mask()), LayerType::Normals.bit_mask());
    assert!(a.contains_all(LayerType::Heightmaps.bit_mask()));
    assert!(!LayerMask::empty().contains_all(a));
    assert_eq!(a.difference(LayerType::Normals.bit_mask()), LayerType::Heightmaps.bit_mask());
    assert!(MeshType::Grass.bit_mask().contains_mesh(MeshType::Grass));
    assert!(!a.contains_mesh(MeshType::Terrain));
    assert!(a.complement().contains_layer(LayerType::Ellipsoid));
}

#[test]
fn mesh_generation_after_streamed_root() {
    let mut ranges = [(0u8, 22u8, 0u8); 11];
    ranges[LayerType::Heightmaps.index()] = (0, 22, 1);
    let mut cache = TileCache::new(layers(&ranges), meshes(), vec![8; NUM_LEVELS], generators(), 13).unwrap();
    let root = VNode::root(0);
    let child = root.children()[3];
    make_resident(&mut cache, &[(root, 5.0), (child, 5.0)]);
    let plan = cache.generate_tiles();
    assert_eq!(plan.stream_requests, vec![(root, LayerType::Heightmaps)]);
    cache.complete_streaming(root, LayerType::Heightmaps, vec![1, 2, 3]);
    let plan = cache.generate_tiles();
    let terrain = MeshType::Terrain.bit_mask();
    assert!(cache.contains_all(root, terrain));
    assert!(cache.contains_all(child, terrain));
    assert!(cache.contains(child, LayerType::Heightmaps));
    assert!(cache.contains(child, LayerType::Displacements));
    assert!(!cache.contains(child, LayerType::Normals));
    assert!(!cache.contains_all(child, MeshType::Grass.bit_mask()));
    let child_runs: Vec<usize> = plan.tasks.iter().filter(|t| t.node == child).map(|t| t.generator).collect();
    // The ellipsoid ran in the first frame already.
    assert_eq!(child_runs, vec![1, 2, 6, 8]);
}

#[test]
fn mesh_table_is_checked() {
    let mut m = meshes();
    m.swap(0, 1);
    assert!(TileCache::new(all_generated(), m, vec![4; NUM_LEVELS], generators(), 13).is_none());
}

#[test]
fn upload_sizes_and_readback_pitch() {
    let mut l = all_generated();
    l[LayerType::Heightmaps.index()].texture_resolution = 521;
    l[LayerType::Heightmaps.index()].texture_format = vec![TextureFormat::R32F];
    l[LayerType::BaseAlbedo.index()].texture_resolution = 516;
    l[LayerType::BaseAlbedo.index()].texture_format = vec![TextureFormat::BC5];
    let cache = TileCache::new(l, meshes(), vec![4; NUM_LEVELS], Vec::new(), 13).unwrap();
    assert_eq!(cache.resolution(LayerType::BaseAlbedo), 516);
    assert_eq!(cache.resolution_blocks(LayerType::BaseAlbedo), 129);
    assert_eq!(cache.resolution_blocks(LayerType::Heightmaps), 521);
    // 521 texels of 4 bytes: 2084 bytes, padded to 2304.
    assert_eq!(cache.readback_row_pitch(), 2304);
    let zeros = cache.tile_upload_data(LayerType::BaseAlbedo, Vec::new());
    assert_eq!(zeros.len(), 129 * 16 * 129);
    assert!(zeros.iter().all(|&b| b == 0));
    assert_eq!(cache.tile_upload_data(LayerType::BaseAlbedo, vec![1, 2, 3]), vec![1, 2, 3]);
}

#[test]
fn invalidation_follows_provenance() {
    let h = LayerType::Heightmaps.bit_mask();
    let n_ = LayerType::Normals.bit_mask();
    let e = LayerType::Ellipsoid.bit_mask();
    let gens = vec![
        gen("heights", h, LayerMask::empty(), LayerMask::empty(), LayerMask::empty()),
        gen("normals", n_, h, LayerMask::empty(), LayerMask::empty()),
        gen("ellipsoid", e, LayerMask::empty(), LayerMask::empty(), LayerMask::empty()),
    ];
    let mut cache = TileCache::new(all_generated(), meshes(), vec![4; NUM_LEVELS], gens, 13).unwrap();
    let root = VNode::root(2);
    make_resident(&mut cache, &[(root, 5.0)]);
    cache.generate_tiles();
    assert!(cache.contains_all(root, h.union(n_).union(e)));
    // Only the normals came from generator 1.
    cache.invalidate_generator(1);
    assert!(cache.contains_all(root, h.union(e)));
    assert!(!cache.contains(root, LayerType::Normals));
    cache.generate_tiles();
    assert!(cache.contains(root, LayerType::Normals));
    // The normals were made from the heightmaps, so both go with generator 0.
    cache.invalidate_generator(0);
    assert!(!cache.contains(root, LayerType::Heightmaps));
    assert!(!cache.contains(root, LayerType::Normals));
    assert!(cache.contains(root, LayerType::Ellipsoid));
}

#[test]
fn generator_builder() {
    let h = LayerType::Heightmaps.bit_mask();
    let d = LayerType::Displacements.bit_mask();
    let g = GeneratorDesc::new("displacements".to_string()).outputs(d).ancestor_inputs(h);
    assert_eq!(g.name, "displacements");
    assert_eq!(g.outputs, d);
    assert_eq!(g.ancestor_inputs, h);
    assert!(g.peer_inputs.is_empty() && g.parent_inputs.is_empty());
    let table = generators();
    assert_eq!(table.len(), 10);
    assert_eq!(table[2].outputs, g.outputs);
    assert_eq!(table[2].ancestor_inputs, g.ancestor_inputs);
    assert_eq!(table[1].parent_inputs, h);
}

#[test]
fn cutoff_must_be_exceeded() {
    let mut ranges = [(0u8, 22u8, 0u8); 11];
    ranges[LayerType::BaseAlbedo.index()] = (0, 22, 23);
    let e = LayerType::Ellipsoid.bit_mask();
    let gens = vec![gen("ellipsoid", e, LayerMask::empty(), LayerMask::empty(), LayerMask::empty())];
    let mut cache = TileCache::new(layers(&ranges), meshes(), vec![8; NUM_LEVELS], gens, 13).unwrap();
    let root = VNode::root(0);
    let kids = root.children();
    // A node exactly at the cutoff is admitted but is neither streamed, generated nor drawn.
    make_resident(&mut cache, &[(root, 5.0), (kids[0], 1.0), (kids[1], 5.0)]);
    assert!(cache.levels[1].contains(kids[0]));
    let plan = cache.generate_tiles();
    assert!(!plan.stream_requests.iter().any(|r| r.0 == kids[0]));
    assert!(plan.stream_requests.iter().any(|r| r.0 == kids[1]));
    assert!(!plan.candidates.contains(&kids[0]));
    assert!(!cache.contains(kids[0], LayerType::Ellipsoid));
    let vis = cache.compute_visible(LayerMask::empty());
    assert!(vis.contains(&(root, 0b1101)));
    assert!(vis.contains(&(kids[1], 15)));
    assert_eq!(vis.len(), 2);
}

#[test]
fn runs_follow_candidate_order() {
    let e = LayerType::Ellipsoid.bit_mask();
    let gens = vec![gen("ellipsoid", e, LayerMask::empty(), LayerMask::empty(), LayerMask::empty())];
    let mut cache = TileCache::new(all_generated(), meshes(), vec![8; NUM_LEVELS], gens, 13).unwrap();
    let root = VNode::root(1);
    let kids = root.children();
    make_resident(&mut cache, &[(root, 5.0), (kids[0], 5.0), (kids[1], 5.0), (kids[2], 5.0), (kids[3], 5.0)]);
    let plan = cache.generate_tiles();
    assert_eq!(plan.tasks.len(), 5);
    let mut last = 0;
    for t in &plan.tasks {
        let p = plan.candidates.iter().position(|c| *c == t.node).unwrap();
        assert!(p >= last);
        last = p;
    }
}
