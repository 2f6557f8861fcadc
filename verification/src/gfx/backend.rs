//! Device-independent descriptions of graphics resources, pipeline states and
//! render-pass operations.
use vstd::prelude::*;

verus! {

/// Why a backend could not create a device.
#[derive(Ord, PartialOrd, Eq, PartialEq, Debug)]
pub enum BackendError {
    Unsupported,
}

/// Why a device operation failed.
#[derive(Ord, PartialOrd, Eq, PartialEq, Debug)]
pub enum DeviceError {
    Unknown,
    OutOfMemory,
    NoCompatibleMemoryTypeFound,
    InvalidParameters,
}

/// What a render pass does with a render target's contents when it begins.
#[derive(Copy, Clone, Eq, PartialEq, Structural, Debug)]
pub enum RenderPassTextureLoadMode {
    Discard,
    Preserve,
    Clear,
}

/// What a render pass does with a render target's contents when it ends.
#[derive(Copy, Clone, Eq, PartialEq, Structural, Debug)]
pub enum RenderPassTextureStoreMode {
    Discard,
    Preserve,
    Resolve,
}

/// A queue of the device.
#[derive(Copy, Clone, Eq, PartialEq, Hash, Debug)]
pub enum QueueType {
    Graphics,
    Compute,
    Transfer,
}

/// The state a resource is in, which decides what the device may do with it.
#[derive(Eq, PartialEq, Structural, Copy, Clone, Debug)]
pub enum ResourceState {
    Common,
    IndexBufferRead,
    UnorderedAccessReadWrite,
    RenderTargetWrite,
    DepthRead,
    DepthWrite,
    ShaderRead,
    CopyRead,
    CopyWrite,
    Present,
}

/// How vertices are assembled into primitives.
#[derive(Clone, Copy, PartialEq, Eq, Hash)]
pub enum PrimitiveTopology {
    Point,
    Line,
    Triangle,
}

/// The input assembly stage of a pipeline.
#[derive(Clone, Copy, PartialEq, Eq, Hash)]
pub struct PipelineInputAssemblyState {
    pub primitive_topology: PrimitiveTopology,
}

/// A factor of the blend equation.
#[derive(Clone, Copy, PartialEq, Eq, Hash)]
pub enum BlendFactor {
    Zero,
    One,
    SrcColor,
    OneMinusSrcColor,
    DstColor,
    OneMinusDstColor,
    SrcAlpha,
    OneMinusSrcAlpha,
    DstAlpha,
    OneMinusDstAlpha,
}

/// The operation of the blend equation.
#[derive(Clone, Copy, PartialEq, Eq, Hash)]
pub enum BlendOp {
    Add,
    Subtract,
    ReverseSubtract,
    Min,
    Max,
}

/// How a render target is blended.
#[derive(Clone, Copy)]
pub struct PipelineRenderTargetBlendDesc {
    pub enable_blend: bool,
    pub src_color_blend_factor: BlendFactor,
    pub dst_color_blend_factor: BlendFactor,
    pub color_blend_op: BlendOp,
    pub src_alpha_blend_factor: BlendFactor,
    pub dst_alpha_blend_factor: BlendFactor,
    pub alpha_blend_op: BlendOp,
}

impl Default for PipelineRenderTargetBlendDesc {
    fn default() -> (res: Self)
        ensures
            !res.enable_blend,
            res.src_color_blend_factor == BlendFactor::Zero,
            res.dst_color_blend_factor == BlendFactor::Zero,
            res.color_blend_op == BlendOp::Add,
            res.src_alpha_blend_factor == BlendFactor::Zero,
            res.dst_alpha_blend_factor == BlendFactor::Zero,
            res.alpha_blend_op == BlendOp::Add,
    {
        PipelineRenderTargetBlendDesc {
            enable_blend: false,
            src_color_blend_factor: BlendFactor::Zero,
            dst_color_blend_factor: BlendFactor::Zero,
            color_blend_op: BlendOp::Add,
            src_alpha_blend_factor: BlendFactor::Zero,
            dst_alpha_blend_factor: BlendFactor::Zero,
            alpha_blend_op: BlendOp::Add,
        }
    }
}

/// The most render targets a render pass can write.
pub const MAX_RENDER_PASS_RENDER_TARGET_COUNT: usize = 8;

/// How each render target of a pipeline is blended.
pub struct PipelineBlendState {
    pub render_targets: [PipelineRenderTargetBlendDesc; 8],
}

impl Default for PipelineBlendState {
    fn default() -> (res: Self)
        ensures
            forall|i: int| 0 <= i < 8 ==> !(#[trigger] res.render_targets@[i]).enable_blend,
    {
        let desc = PipelineRenderTargetBlendDesc::default();
        PipelineBlendState { render_targets: [desc, desc, desc, desc, desc, desc, desc, desc] }
    }
}

/// What the stencil test does to the stencil buffer.
#[derive(Copy, Clone)]
pub enum StencilOp {
    Keep,
    Zero,
    Replace,
    IncrementAndClamp,
    DecrementAndClamp,
    Invert,
    IncrementAndWrap,
    DecrementAndWrap,
}

/// A comparison of a new value with a stored one.
#[derive(Copy, Clone)]
pub enum CompareOp {
    Never,
    Less,
    Equal,
    LessEqual,
    Greater,
    NotEqual,
    GreaterEqual,
    Always,
}

/// The stencil operations for one face.
#[derive(Clone)]
pub struct PipelineStencilOpState {
    pub fail_op: StencilOp,
    pub depth_fail_op: StencilOp,
    pub pass_op: StencilOp,
    pub compare_op: CompareOp,
}

impl Default for PipelineStencilOpState {
    fn default() -> (res: Self)
        ensures
            res.fail_op is Keep,
            res.depth_fail_op is Keep,
            res.pass_op is Keep,
            res.compare_op is Never,
    {
        PipelineStencilOpState {
            fail_op: StencilOp::Keep,
            depth_fail_op: StencilOp::Keep,
            pass_op: StencilOp::Keep,
            compare_op: CompareOp::Never,
        }
    }
}

/// The depth and stencil tests of a pipeline.
#[derive(Clone)]
pub struct PipelineDepthStencilState {
    pub depth_test_enable: bool,
    pub depth_write_mask: i32,
    pub depth_write_enable: bool,
    pub depth_compare_op: CompareOp,
    pub stencil_test_enable: bool,
    pub stencil_read_mask: u8,
    pub stencil_write_mask: u8,
    pub front: PipelineStencilOpState,
    pub back: PipelineStencilOpState,
}

/// A region copied from one buffer to another.
pub struct BufferCopyRegion {
    pub src_offset_in_bytes: u64,
    pub dst_offset_in_bytes: u64,
    pub size_in_bytes: u64,
}

/// The type of the indices of an index buffer.
pub enum IndexBufferFormat {
    Uint16,
    Uint32,
}

/// A view of a buffer as raw bytes.
#[derive(Clone)]
pub struct BufferSRVRaw {
    pub offset_in_bytes: u32,
}

impl Default for BufferSRVRaw {
    fn default() -> (res: Self)
        ensures
            res.offset_in_bytes == 0,
    {
        BufferSRVRaw { offset_in_bytes: 0 }
    }
}

/// A view of a buffer as structures of a stride.
#[derive(Clone)]
pub struct BufferSRVStructured {
    pub offset_in_bytes: u64,
    pub stride_in_bytes: u32,
}

/// How a buffer is viewed by shaders.
#[derive(Clone)]
pub enum BufferSRVType {
    Raw(BufferSRVRaw),
    Structured(BufferSRVStructured),
}

/// A render target view of one mip level of a 2D texture.
#[derive(Clone)]
pub struct Texture2DRTV {
    pub mip_level: u32,
}

/// The kind of a render target view.
#[derive(Clone)]
pub enum RenderTargetViewType {
    Texture2D(Texture2DRTV),
}

/// A depth-stencil view of one mip level of a 2D texture.
#[derive(Clone)]
pub struct Texture2DDSV {
    pub mip_level: u32,
}

/// The kind of a depth-stencil view.
#[derive(Clone)]
pub enum DepthStencilViewType {
    Texture2D(Texture2DDSV),
}

/// How texels are filtered when sampled.
#[derive(Copy, Clone)]
pub enum Filter {
    Nearest,
    Linear,
}

/// How texture coordinates outside the texture are mapped.
#[derive(Copy, Clone)]
pub enum TextureAddressMode {
    Repeat,
    Mirror,
    Clamp,
}

/// Where a texture subresource lies in memory.
pub struct TextureSubresourceLayout {
    pub offset_in_bytes: u64,
    pub row_pitch_in_bytes: u64,
    pub size_in_bytes: u64,
}

/// Where memory lives.
#[derive(Copy, Clone, PartialEq, Eq, Debug)]
pub enum MemoryLocation {
    CpuToGpu,
    GpuOnly,
}

/// A property of memory, one bit of a memory flag mask.
#[derive(Copy, Clone, Ord, PartialOrd, Eq, PartialEq, Debug)]
pub enum MemoryFlagBits {
    /// Allow memory to be aliased with another resource.
    Aliased,
}

impl MemoryFlagBits {
    /// The flag's bit.
    pub fn bits(&self) -> (res: u32)
        ensures
            res == 1,
    {
        1
    }
}

/// A use of a buffer, one bit of a buffer usage mask.
#[derive(Copy, Clone, Ord, PartialOrd, Eq, PartialEq)]
pub enum BufferUsageFlagBits {
    UnorderedAccess,
    IndexBuffer,
}

impl BufferUsageFlagBits {
    /// The flag's bit: unordered access 1, index buffer 2.
    pub fn bits(&self) -> (res: u32)
        ensures
            res == match *self {
                BufferUsageFlagBits::UnorderedAccess => 1u32,
                BufferUsageFlagBits::IndexBuffer => 2u32,
            },
    {
        match self {
            BufferUsageFlagBits::UnorderedAccess => 1,
            BufferUsageFlagBits::IndexBuffer => 2,
        }
    }
}

/// A use of a texture, one bit of a texture usage mask.
#[derive(Copy, Clone, Ord, PartialOrd, Eq, PartialEq, Debug)]
pub enum TextureUsageFlagBits {
    UnorderedAccess,
    RenderTarget,
    DepthStencil,
    Sampled,
}

/// The bit of a texture usage flag.
pub open spec fn texture_usage_bit(flag: TextureUsageFlagBits) -> u32 {
    match flag {
        TextureUsageFlagBits::UnorderedAccess => 1u32,
        TextureUsageFlagBits::RenderTarget => 2u32,
        TextureUsageFlagBits::DepthStencil => 4u32,
        TextureUsageFlagBits::Sampled => 8u32,
    }
}

impl TextureUsageFlagBits {
    /// The flag's bit: unordered access 1, render target 2, depth-stencil 4, sampled 8.
    pub fn bits(&self) -> (res: u32)
        ensures
            res == texture_usage_bit(*self),
    {
        match self {
            TextureUsageFlagBits::UnorderedAccess => 1,
            TextureUsageFlagBits::RenderTarget => 2,
            TextureUsageFlagBits::DepthStencil => 4,
            TextureUsageFlagBits::Sampled => 8,
        }
    }
}

/// A set of texture usages, as a mask of their bits.
#[derive(Copy, Clone, PartialEq, Eq, Debug)]
pub struct TextureUsageFlags {
    pub bits: u32,
}

impl TextureUsageFlags {
    /// No usage.
    pub fn empty() -> (res: Self)
        ensures
            res.bits == 0,
    {
        TextureUsageFlags { bits: 0 }
    }

    /// Whether `flag` is among the usages.
    pub fn contains(&self, flag: TextureUsageFlagBits) -> (res: bool)
        ensures
            res == (self.bits & texture_usage_bit(flag) != 0),
    {
        self.bits & flag.bits() != 0
    }

    /// Adds `flag` to the usages.
    pub fn insert(&mut self, flag: TextureUsageFlagBits)
        ensures
            final(self).bits == old(self).bits | texture_usage_bit(flag),
    {
        self.bits = self.bits | flag.bits();
    }
}

/// A range of mip levels of a texture.
#[derive(Copy, Clone, Eq, PartialEq)]
pub struct TextureSubresourceRange {
    pub base_mip_level: u32,
    pub level_count: u32,
}

/// A synchronization point between the device and the host.
pub struct Fence;

} // verus!
