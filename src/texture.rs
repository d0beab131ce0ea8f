//! Element formats of layer textures.

use vstd::prelude::*;

verus! {

#[derive(Clone, Copy, Debug, PartialEq, Eq, Structural)]
pub enum TextureFormat {
    R8,
    RG8,
    RGBA8,
    RG16F,
    RGBA16F,
    R32,
    R32F,
    RG32F,
    RGBA32F,
    SRGBA,
    BC4,
    BC5,
    UASTC,
}

impl TextureFormat {
    pub open spec fn spec_is_compressed(self) -> bool {
        self is BC4 || self is BC5 || self is UASTC
    }

    pub open spec fn spec_bytes_per_block(self) -> nat {
        match self {
            TextureFormat::R8 => 1,
            TextureFormat::RG8 => 2,
            TextureFormat::RGBA8 => 4,
            TextureFormat::RG16F => 4,
            TextureFormat::RGBA16F => 8,
            TextureFormat::R32 => 4,
            TextureFormat::R32F => 4,
            TextureFormat::RG32F => 8,
            TextureFormat::RGBA32F => 16,
            TextureFormat::SRGBA => 4,
            TextureFormat::BC4 => 8,
            TextureFormat::BC5 => 16,
            TextureFormat::UASTC => 16,
        }
    }

    /// Bytes in one texel, or in one block of a compressed format.
    pub fn bytes_per_block(&self) -> (r: usize)
        ensures
            r == self.spec_bytes_per_block(),
    {
        match *self {
            TextureFormat::R8 => 1,
            TextureFormat::RG8 => 2,
            TextureFormat::RGBA8 => 4,
            TextureFormat::RG16F => 4,
            TextureFormat::RGBA16F => 8,
            TextureFormat::R32 => 4,
            TextureFormat::R32F => 4,
            TextureFormat::RG32F => 8,
            TextureFormat::RGBA32F => 16,
            TextureFormat::SRGBA => 4,
            TextureFormat::BC4 => 8,
            TextureFormat::BC5 => 16,
            TextureFormat::UASTC => 16,
        }
    }

    /// Texels along one side of a block: 4 for the compressed formats, else 1.
    pub fn block_size(&self) -> (r: u32)
        ensures
            self.spec_is_compressed() ==> r == 4,
            !self.spec_is_compressed() ==> r == 1,
    {
        match *self {
            TextureFormat::BC4 | TextureFormat::BC5 | TextureFormat::UASTC => 4,
            _ => 1,
        }
    }

    pub fn is_compressed(&self) -> (r: bool)
        ensures
            r == self.spec_is_compressed(),
    {
        match *self {
            TextureFormat::BC4 | TextureFormat::BC5 | TextureFormat::UASTC => true,
            _ => false,
        }
    }
}

} // verus!
