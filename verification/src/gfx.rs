//! Graphics types shared by the rendering code: pixel formats, sampling and the
//! device-independent descriptions in [`backend`].
pub mod backend;
pub mod utils;

use vstd::prelude::*;

verus! {

/// The layout of a texel.
#[derive(Copy, Clone, Debug, PartialEq, Eq)]
#[non_exhaustive]
pub enum PixelFormat {
    Unknown,
    // BGRA formats
    B8G8R8A8UnormSrgb,
    B8G8R8A8Unorm,
    // R formats
    R8Unorm,
    // RGBA formats
    R8G8B8A8Unorm,
    // Depth/stencil formats
    D24UnormS8Uint,
}

/// The size in bytes of one texel of `format`.
pub open spec fn texel_size(format: PixelFormat) -> nat {
    match format {
        PixelFormat::Unknown => 0,
        PixelFormat::B8G8R8A8UnormSrgb | PixelFormat::B8G8R8A8Unorm | PixelFormat::R8G8B8A8Unorm => 4,
        PixelFormat::R8Unorm => 1,
        PixelFormat::D24UnormS8Uint => 4,
    }
}

impl PixelFormat {
    /// The size in bytes of one texel.
    pub fn bytes_size(&self) -> (res: usize)
        ensures
            res == texel_size(*self),
    {
        match self {
            PixelFormat::Unknown => 0,
            PixelFormat::B8G8R8A8UnormSrgb | PixelFormat::B8G8R8A8Unorm | PixelFormat::R8G8B8A8Unorm => 4,
            PixelFormat::R8Unorm => 1,
            PixelFormat::D24UnormS8Uint => 4,
        }
    }

    /// The size in bytes of a `width` by `height` texture of this format.
    pub fn texture_size_in_bytes(&self, width: u32, height: u32) -> (res: usize)
        requires
            width * height <= usize::MAX,
            width * height * texel_size(*self) <= usize::MAX,
        ensures
            res == width * height * texel_size(*self),
    {
        let bytes = self.bytes_size();
        let area: usize = (width as usize) * (height as usize);
        area * bytes
    }
}

impl Default for PixelFormat {
    fn default() -> (res: Self)
        ensures
            res == PixelFormat::Unknown,
    {
        PixelFormat::Unknown
    }
}

/// Multisampling: the number of samples per pixel and their quality level.
#[derive(Copy, Clone, Debug)]
pub struct SampleDesc {
    pub count: u32,
    pub quality: u32,
}

impl Default for SampleDesc {
    fn default() -> (res: Self)
        ensures
            res.count == 1,
            res.quality == 0,
    {
        SampleDesc { count: 1, quality: 0 }
    }
}

/// A shader stage, each one bit of a stage mask.
#[derive(PartialEq, Eq, Copy, Clone, Debug)]
pub enum ShaderStageFlagBits {
    Vertex,
    Fragment,
    Compute,
    Mesh,
}

impl ShaderStageFlagBits {
    /// The stage's bit: vertex 1, fragment 2, compute 4, mesh 8.
    pub fn bits(&self) -> (res: u32)
        ensures
            res == match *self {
                ShaderStageFlagBits::Vertex => 1u32,
                ShaderStageFlagBits::Fragment => 2u32,
                ShaderStageFlagBits::Compute => 4u32,
                ShaderStageFlagBits::Mesh => 8u32,
            },
    {
        match self {
            ShaderStageFlagBits::Vertex => 1,
            ShaderStageFlagBits::Fragment => 2,
            ShaderStageFlagBits::Compute => 4,
            ShaderStageFlagBits::Mesh => 8,
        }
    }
}

} // verus!
