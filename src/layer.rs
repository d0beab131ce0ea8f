//! Tile layers, and the bit sets over layers and generators that express
//! which data a tile holds and where it came from.

use vstd::prelude::*;

verus! {

/// Number of distinct layer kinds.
pub const NUM_LAYER_TYPES: usize = 11;

/// One category of per-node data.
#[derive(Clone, Copy, Debug, PartialEq, Eq, Structural)]
pub enum LayerType {
    Heightmaps,
    Displacements,
    AlbedoRoughness,
    Normals,
    GrassCanopy,
    TreeAttributes,
    BaseAlbedo,
    TreeCover,
    LandFraction,
    BentNormals,
    Ellipsoid,
}

/// Kinds of generated meshes; each occupies a bit of a `LayerMask` above the layers.
#[derive(Clone, Copy, Debug, PartialEq, Eq, Structural)]
pub enum MeshType {
    Grass,
    Terrain,
    TreeBillboards,
}

/// Bit position of the first mesh kind inside a `LayerMask`.
pub const MESH_BIT_OFFSET: u32 = 24;

impl LayerType {
    pub open spec fn spec_index(self) -> nat {
        match self {
            LayerType::Heightmaps => 0,
            LayerType::Displacements => 1,
            LayerType::AlbedoRoughness => 2,
            LayerType::Normals => 3,
            LayerType::GrassCanopy => 4,
            LayerType::TreeAttributes => 5,
            LayerType::BaseAlbedo => 6,
            LayerType::TreeCover => 7,
            LayerType::LandFraction => 8,
            LayerType::BentNormals => 9,
            LayerType::Ellipsoid => 10,
        }
    }

    pub open spec fn spec_from_index(i: nat) -> LayerType {
        if i == 0 {
            LayerType::Heightmaps
        } else if i == 1 {
            LayerType::Displacements
        } else if i == 2 {
            LayerType::AlbedoRoughness
        } else if i == 3 {
            LayerType::Normals
        } else if i == 4 {
            LayerType::GrassCanopy
        } else if i == 5 {
            LayerType::TreeAttributes
        } else if i == 6 {
            LayerType::BaseAlbedo
        } else if i == 7 {
            LayerType::TreeCover
        } else if i == 8 {
            LayerType::LandFraction
        } else if i == 9 {
            LayerType::BentNormals
        } else {
            LayerType::Ellipsoid
        }
    }

    /// Position of this layer in tables indexed by layer.
    pub fn index(&self) -> (r: usize)
        ensures
            r == self.spec_index(),
            r < NUM_LAYER_TYPES,
    {
        match *self {
            LayerType::Heightmaps => 0,
            LayerType::Displacements => 1,
            LayerType::AlbedoRoughness => 2,
            LayerType::Normals => 3,
            LayerType::GrassCanopy => 4,
            LayerType::TreeAttributes => 5,
            LayerType::BaseAlbedo => 6,
            LayerType::TreeCover => 7,
            LayerType::LandFraction => 8,
            LayerType::BentNormals => 9,
            LayerType::Ellipsoid => 10,
        }
    }

    /// The layer stored at position `i` of a table indexed by layer.
    pub fn from_index(i: usize) -> (r: LayerType)
        requires
            i < NUM_LAYER_TYPES,
        ensures
            r.spec_index() == i,
            r == LayerType::spec_from_index(i as nat),
    {
        if i == 0 {
            LayerType::Heightmaps
        } else if i == 1 {
            LayerType::Displacements
        } else if i == 2 {
            LayerType::AlbedoRoughness
        } else if i == 3 {
            LayerType::Normals
        } else if i == 4 {
            LayerType::GrassCanopy
        } else if i == 5 {
            LayerType::TreeAttributes
        } else if i == 6 {
            LayerType::BaseAlbedo
        } else if i == 7 {
            LayerType::TreeCover
        } else if i == 8 {
            LayerType::LandFraction
        } else if i == 9 {
            LayerType::BentNormals
        } else {
            LayerType::Ellipsoid
        }
    }

    /// The mask holding this layer alone.
    pub fn bit_mask(&self) -> (r: LayerMask)
        ensures
            r.bits == layer_bit(self.spec_index()),
    {
        LayerMask { bits: 1u32 << (self.index() as u32) }
    }
}

impl MeshType {
    pub open spec fn spec_index(self) -> nat {
        match self {
            MeshType::Grass => 0,
            MeshType::Terrain => 1,
            MeshType::TreeBillboards => 2,
        }
    }

    /// The mask holding this mesh kind alone.
    pub fn bit_mask(&self) -> (r: LayerMask)
        ensures
            r.bits == layer_bit(MESH_BIT_OFFSET as nat + self.spec_index()),
    {
        let i: u32 = match *self {
            MeshType::Grass => 0,
            MeshType::Terrain => 1,
            MeshType::TreeBillboards => 2,
        };
        LayerMask { bits: 1u32 << (MESH_BIT_OFFSET + i) }
    }
}

/// The single bit at position `i`.
pub open spec fn layer_bit(i: nat) -> u32 {
    (1u32 << (i as u32)) as u32
}

/// A set of layers (and mesh kinds), one bit each.
#[derive(Clone, Copy, Debug, PartialEq, Eq, Structural)]
pub struct LayerMask {
    pub bits: u32,
}

impl LayerMask {
    pub open spec fn has_bit(self, i: nat) -> bool {
        self.bits & layer_bit(i) != 0
    }

    pub open spec fn has_layer(self, l: LayerType) -> bool {
        self.has_bit(l.spec_index())
    }

    pub fn empty() -> (r: LayerMask)
        ensures
            r.bits == 0,
    {
        LayerMask { bits: 0 }
    }

    pub fn is_empty(&self) -> (r: bool)
        ensures
            r == (self.bits == 0),
    {
        self.bits == 0
    }

    pub fn union(&self, o: LayerMask) -> (r: LayerMask)
        ensures
            r.bits == self.bits | o.bits,
    {
        LayerMask { bits: self.bits | o.bits }
    }

    pub fn intersection(&self, o: LayerMask) -> (r: LayerMask)
        ensures
            r.bits == self.bits & o.bits,
    {
        LayerMask { bits: self.bits & o.bits }
    }

    pub fn complement(&self) -> (r: LayerMask)
        ensures
            r.bits == !self.bits,
    {
        LayerMask { bits: !self.bits }
    }

    /// The layers of `self` that are not in `o`.
    pub fn difference(&self, o: LayerMask) -> (r: LayerMask)
        ensures
            r.bits == self.bits & !o.bits,
    {
        LayerMask { bits: self.bits & !o.bits }
    }

    pub fn contains_layer(&self, l: LayerType) -> (r: bool)
        ensures
            r == self.has_layer(l),
    {
        self.bits & (1u32 << (l.index() as u32)) != 0
    }

    pub fn contains_mesh(&self, m: MeshType) -> (r: bool)
        ensures
            r == self.has_bit(MESH_BIT_OFFSET as nat + m.spec_index()),
    {
        let b = m.bit_mask();
        self.bits & b.bits != 0
    }

    /// Whether every layer of `o` is in `self`.
    pub fn contains_all(&self, o: LayerMask) -> (r: bool)
        ensures
            r == (o.bits & !self.bits == 0),
    {
        o.bits & !self.bits == 0
    }
}

/// A set of generators, by their position in the generator list.
#[derive(Clone, Copy, Debug, PartialEq, Eq, Structural)]
pub struct GeneratorMask {
    pub bits: u64,
}

pub open spec fn generator_bit(i: nat) -> u64 {
    (1u64 << (i as u64)) as u64
}

impl GeneratorMask {
    pub fn empty() -> (r: GeneratorMask)
        ensures
            r.bits == 0,
    {
        GeneratorMask { bits: 0 }
    }

    pub fn from_index(i: usize) -> (r: GeneratorMask)
        requires
            i < 64,
        ensures
            r.bits == generator_bit(i as nat),
    {
        GeneratorMask { bits: 1u64 << (i as u64) }
    }

    pub fn union(&self, o: GeneratorMask) -> (r: GeneratorMask)
        ensures
            r.bits == self.bits | o.bits,
    {
        GeneratorMask { bits: self.bits | o.bits }
    }

    pub fn contains(&self, i: usize) -> (r: bool)
        requires
            i < 64,
        ensures
            r == (self.bits & generator_bit(i as nat) != 0),
    {
        self.bits & (1u64 << (i as u64)) != 0
    }
}

} // verus!
