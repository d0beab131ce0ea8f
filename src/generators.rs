//! The generator list: what each generator makes and needs. Its order is the
//! dependency order the scheduler relies on.

use vstd::prelude::*;
use vstd::string::StringExecFns;
use crate::layer::{LayerMask, LayerType, MeshType, layer_bit, MESH_BIT_OFFSET};
use crate::tile::GeneratorDesc;

verus! {

fn desc(name: &str, outputs: u32, peer_inputs: u32, parent_inputs: u32, ancestor_inputs: u32) -> (r: GeneratorDesc)
    ensures
        r.name@ == name@,
        r.outputs.bits == outputs,
        r.peer_inputs.bits == peer_inputs,
        r.parent_inputs.bits == parent_inputs,
        r.ancestor_inputs.bits == ancestor_inputs,
{
    GeneratorDesc {
        name: String::from_str(name),
        outputs: LayerMask { bits: outputs },
        peer_inputs: LayerMask { bits: peer_inputs },
        parent_inputs: LayerMask { bits: parent_inputs },
        ancestor_inputs: LayerMask { bits: ancestor_inputs },
    }
}

/// Declared masks `(outputs, peer, parent, ancestor)` of the `i`-th generator.
pub open spec fn generator_masks(i: int) -> (u32, u32, u32, u32) {
    let h = layer_bit(0);
    let d = layer_bit(1);
    let ar = layer_bit(2);
    let nm = layer_bit(3);
    let gc = layer_bit(4);
    let ta = layer_bit(5);
    let ba = layer_bit(6);
    let tc = layer_bit(7);
    let lf = layer_bit(8);
    let bn = layer_bit(9);
    let el = layer_bit(10);
    if i == 0 {
        (el, 0, 0, 0)
    } else if i == 1 {
        (h, 0, h, 0)
    } else if i == 2 {
        (d, 0, 0, h)
    } else if i == 3 {
        (ta, 0, 0, tc)
    } else if i == 4 {
        ((nm | ar) as u32, h, 0, (ba | tc | ta | lf) as u32)
    } else if i == 5 {
        (gc, nm, 0, 0)
    } else if i == 6 {
        (bn, h, 0, 0)
    } else if i == 7 {
        (layer_bit(MESH_BIT_OFFSET as nat), (d | ar | nm) as u32, 0, gc)
    } else if i == 8 {
        (layer_bit(MESH_BIT_OFFSET as nat + 1), d, 0, 0)
    } else {
        (layer_bit(MESH_BIT_OFFSET as nat + 2), d, 0, ta)
    }
}

/// The generators in dependency order: ellipsoid, heightmaps, displacements, tree
/// attributes, materials, grass canopy, bent normals, then the grass, terrain and
/// tree-billboard meshes.
pub fn generators() -> (r: Vec<GeneratorDesc>)
    ensures
        r.len() == 10,
        forall|i: int| 0 <= i < 10 ==> {
            let m = generator_masks(i);
            &&& (#[trigger] r@[i]).outputs.bits == m.0
            &&& r@[i].peer_inputs.bits == m.1
            &&& r@[i].parent_inputs.bits == m.2
            &&& r@[i].ancestor_inputs.bits == m.3
        },
{
    let h = LayerType::Heightmaps.bit_mask().bits;
    let d = LayerType::Displacements.bit_mask().bits;
    let ar = LayerType::AlbedoRoughness.bit_mask().bits;
    let nm = LayerType::Normals.bit_mask().bits;
    let gc = LayerType::GrassCanopy.bit_mask().bits;
    let ta = LayerType::TreeAttributes.bit_mask().bits;
    let ba = LayerType::BaseAlbedo.bit_mask().bits;
    let tc = LayerType::TreeCover.bit_mask().bits;
    let lf = LayerType::LandFraction.bit_mask().bits;
    let bn = LayerType::BentNormals.bit_mask().bits;
    let el = LayerType::Ellipsoid.bit_mask().bits;
    let grass = MeshType::Grass.bit_mask().bits;
    let terrain = MeshType::Terrain.bit_mask().bits;
    let billboards = MeshType::TreeBillboards.bit_mask().bits;
    let mut r: Vec<GeneratorDesc> = Vec::new();
    r.push(desc("ellipsoid", el, 0, 0, 0));
    r.push(desc("heightmaps", h, 0, h, 0));
    r.push(desc("displacements", d, 0, 0, h));
    r.push(desc("tree-attributes", ta, 0, 0, tc));
    r.push(desc("materials", nm | ar, h, 0, ba | tc | ta | lf));
    r.push(desc("grass-canopy", gc, nm, 0, 0));
    r.push(desc("bent-normals", bn, h, 0, 0));
    r.push(desc("grass-mesh", grass, d | ar | nm, 0, gc));
    r.push(desc("terrain-mesh", terrain, d, 0, 0));
    r.push(desc("tree-billboards-mesh", billboards, d, 0, ta));
    r
}

impl GeneratorDesc {
    /// A generator named `name` that produces and needs nothing yet.
    pub fn new(name: String) -> (r: GeneratorDesc)
        ensures
            r.name == name,
            r.outputs.bits == 0,
            r.peer_inputs.bits == 0,
            r.parent_inputs.bits == 0,
            r.ancestor_inputs.bits == 0,
    {
        GeneratorDesc {
            name,
            outputs: LayerMask::empty(),
            peer_inputs: LayerMask::empty(),
            parent_inputs: LayerMask::empty(),
            ancestor_inputs: LayerMask::empty(),
        }
    }

    pub fn outputs(self, outputs: LayerMask) -> (r: GeneratorDesc)
        ensures
            r == (GeneratorDesc { outputs, ..self }),
    {
        GeneratorDesc { outputs, ..self }
    }

    pub fn peer_inputs(self, peer_inputs: LayerMask) -> (r: GeneratorDesc)
        ensures
            r == (GeneratorDesc { peer_inputs, ..self }),
    {
        GeneratorDesc { peer_inputs, ..self }
    }

    pub fn parent_inputs(self, parent_inputs: LayerMask) -> (r: GeneratorDesc)
        ensures
            r == (GeneratorDesc { parent_inputs, ..self }),
    {
        GeneratorDesc { parent_inputs, ..self }
    }

    pub fn ancestor_inputs(self, ancestor_inputs: LayerMask) -> (r: GeneratorDesc)
        ensures
            r == (GeneratorDesc { ancestor_inputs, ..self }),
    {
        GeneratorDesc { ancestor_inputs, ..self }
    }
}

} // verus!
