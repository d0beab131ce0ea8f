//! Results of streaming requests, as the streaming worker hands them back.

use vstd::prelude::*;
use crate::layer::LayerType;
use crate::node::VNode;
use crate::tile::{TileCache, streaming_completed};

verus! {

/// One decoded tile: the node it belongs to and the layer's data.
pub enum TileResult {
    Heightmaps(VNode, Vec<i16>),
    Albedo(VNode, Vec<u8>),
    TreeCover(VNode, Vec<u8>),
}

impl TileResult {
    pub open spec fn spec_layer(&self) -> LayerType {
        match self {
            TileResult::Heightmaps(..) => LayerType::Heightmaps,
            TileResult::Albedo(..) => LayerType::BaseAlbedo,
            TileResult::TreeCover(..) => LayerType::TreeCover,
        }
    }

    pub open spec fn spec_node(&self) -> VNode {
        match self {
            TileResult::Heightmaps(n, _) => *n,
            TileResult::Albedo(n, _) => *n,
            TileResult::TreeCover(n, _) => *n,
        }
    }

    pub fn layer(&self) -> (r: LayerType)
        ensures
            r == self.spec_layer(),
    {
        match self {
            TileResult::Heightmaps(..) => LayerType::Heightmaps,
            TileResult::Albedo(..) => LayerType::BaseAlbedo,
            TileResult::TreeCover(..) => LayerType::TreeCover,
        }
    }

    pub fn node(&self) -> (r: VNode)
        ensures
            r == self.spec_node(),
    {
        match self {
            TileResult::Heightmaps(n, _) => *n,
            TileResult::Albedo(n, _) => *n,
            TileResult::TreeCover(n, _) => *n,
        }
    }
}

impl TileCache {
    /// Takes in one streamed result: as `complete_streaming` for its node and layer, with
    /// the samples of a heightmap as the node's CPU copy.
    pub fn upload_tile(&mut self, tile: TileResult)
        requires
            old(self).wf(),
            old(self).num_inflight > 0,
        ensures
            streaming_completed(
                old(self),
                final(self),
                tile.spec_node(),
                tile.spec_layer(),
                match tile {
                    TileResult::Heightmaps(_, h) => h@,
                    _ => Seq::empty(),
                },
            ),
    {
        let node = tile.node();
        let layer = tile.layer();
        match tile {
            TileResult::Heightmaps(_, heights) => self.complete_streaming(node, layer, heights),
            _ => self.complete_streaming(node, layer, Vec::new()),
        }
    }
}

} // verus!
