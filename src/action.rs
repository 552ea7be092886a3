use vstd::prelude::*;

verus! {

/// What an access needs of the memory it touches.
#[derive(Clone, Copy, PartialEq, Eq, Structural, Debug)]
pub enum MemoryInitKind {
    /// The access overwrites the whole range: it becomes initialized.
    ImplicitlyInitialized,
    /// The access reads the range: it must be initialized first.
    NeedsInitializedMemory,
}

/// An access to bytes `[start, end)` of a buffer.
#[derive(Clone, Copy, PartialEq, Eq, Structural, Debug)]
pub struct BufferInitTrackerAction {
    pub id: usize,
    pub start: u64,
    pub end: u64,
    pub kind: MemoryInitKind,
}

/// Mip levels `[mip_start, mip_end)` crossed with array layers
/// `[layer_start, layer_end)`.
#[derive(Clone, Copy, PartialEq, Eq, Structural, Debug)]
pub struct TextureInitRange {
    pub mip_start: u32,
    pub mip_end: u32,
    pub layer_start: u32,
    pub layer_end: u32,
}

/// An access to a range of subresources of a texture.
#[derive(Clone, Copy, PartialEq, Eq, Structural, Debug)]
pub struct TextureInitTrackerAction {
    pub id: usize,
    pub range: TextureInitRange,
    pub kind: MemoryInitKind,
}

/// One subresource (mip level and layer) whose content was discarded and
/// not written again since.
#[derive(Clone, Copy, PartialEq, Eq, Structural, Debug)]
pub struct TextureSurfaceDiscard {
    pub texture: usize,
    pub mip_level: u32,
    pub layer: u32,
}

/// A command for the hardware queue.
#[derive(Clone, Copy, PartialEq, Eq, Structural, Debug)]
pub enum Command {
    /// Make the buffer usable as a copy destination.
    TransitionBuffer { id: usize },
    /// Fill bytes `[start, end)` of the buffer with zeros.
    ClearBuffer { id: usize, start: u64, end: u64 },
    /// Make layers `[layer_start, layer_end)` of one mip level usable as a
    /// copy destination.
    TransitionTexture { id: usize, mip: u32, layer_start: u32, layer_end: u32 },
    /// Copy zeros into layers `[layer_start, layer_end)` of one mip level.
    ZeroFillTexture { id: usize, mip: u32, layer_start: u32, layer_end: u32 },
}

/// A buffer referenced by recorded commands was destroyed.
#[derive(Clone, Copy, PartialEq, Eq, Structural, Debug)]
pub struct DestroyedBufferError(pub usize);

/// A texture referenced by recorded commands was destroyed.
#[derive(Clone, Copy, PartialEq, Eq, Structural, Debug)]
pub struct DestroyedTextureError(pub usize);

} // verus!
