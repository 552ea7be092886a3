use vstd::prelude::*;
use crate::init_tracker::InitTracker;

verus! {

/// Granularity of buffer clears, in bytes.
pub const COPY_BUFFER_ALIGNMENT: u64 = 4;

/// A buffer as far as initialization goes: the bytes not yet known to be
/// initialized.
pub struct Buffer {
    pub initialization_status: InitTracker,
}

impl Buffer {
    pub open spec fn wf(&self) -> bool {
        self.initialization_status.wf() && self.initialization_status.is_aligned()
    }

    /// A fresh buffer of `size` bytes, rounded up to the clear granularity;
    /// none of it is initialized.
    pub fn new(size: u64) -> (r: Self)
        requires
            size <= u64::MAX - 3,
        ensures
            r.wf(),
            r.initialization_status.uninit() == crate::init_tracker::span(
                (0, crate::resolve::align_up(size)),
            ),
    {
        let padded = crate::resolve::align_end(size);
        Buffer { initialization_status: InitTracker::new(padded) }
    }
}

/// A texture as far as initialization goes: for each mip level, the array
/// layers not yet known to be initialized.
pub struct Texture {
    pub mips: Vec<InitTracker>,
}

impl Texture {
    pub open spec fn wf(&self) -> bool {
        forall|m: int| 0 <= m < self.mips@.len() ==> (#[trigger] self.mips@[m]).wf()
    }

    /// Uninitialized layers of mip level `m`.
    pub open spec fn uninit(&self, m: int) -> Set<int> {
        self.mips@[m].uninit()
    }

    /// A fresh texture with `mip_level_count` mip levels of `layer_count`
    /// layers each; nothing of it is initialized.
    pub fn new(mip_level_count: u32, layer_count: u32) -> (r: Self)
        ensures
            r.wf(),
            r.mips@.len() == mip_level_count,
            forall|m: int|
                0 <= m < mip_level_count ==> #[trigger] r.uninit(m) == crate::init_tracker::span(
                    (0, layer_count as u64),
                ),
    {
        let mut mips: Vec<InitTracker> = Vec::new();
        let mut i: u32 = 0;
        while i < mip_level_count
            invariant
                i <= mip_level_count,
                mips@.len() == i,
                forall|m: int| 0 <= m < i ==> (#[trigger] mips@[m]).wf(),
                forall|m: int|
                    0 <= m < i ==> (#[trigger] mips@[m]).uninit() == crate::init_tracker::span(
                        (0, layer_count as u64),
                    ),
            decreases mip_level_count - i,
        {
            mips.push(InitTracker::new(layer_count as u64));
            i = i + 1;
        }
        Texture { mips }
    }
}

/// The buffers of a device, by id; a destroyed buffer leaves an empty slot.
pub struct BufferStorage {
    pub slots: Vec<Option<Buffer>>,
}

impl BufferStorage {
    pub open spec fn wf(&self) -> bool {
        forall|i: int|
            0 <= i < self.slots@.len() && (#[trigger] self.slots@[i]).is_some() ==> self.slots@[
                i
            ].unwrap().wf()
    }

    pub open spec fn is_live(&self, id: int) -> bool {
        0 <= id < self.slots@.len() && self.slots@[id].is_some()
    }

    /// Uninitialized bytes of the live buffer `id`.
    pub open spec fn uninit(&self, id: int) -> Set<int> {
        self.slots@[id].unwrap().initialization_status.uninit()
    }

    pub fn new() -> (r: Self)
        ensures
            r.wf(),
            r.slots@.len() == 0,
    {
        BufferStorage { slots: Vec::new() }
    }

    /// Adds a buffer and returns its id.
    pub fn insert(&mut self, buffer: Buffer) -> (id: usize)
        requires
            old(self).wf(),
            buffer.wf(),
        ensures
            final(self).wf(),
            id == old(self).slots@.len(),
            final(self).slots@ == old(self).slots@.push(Some(buffer)),
    {
        let id = self.slots.len();
        self.slots.push(Some(buffer));
        id
    }

    /// Destroys the buffer `id`, if it exists.
    pub fn remove(&mut self, id: usize)
        requires
            old(self).wf(),
        ensures
            final(self).wf(),
            final(self).slots@.len() == old(self).slots@.len(),
            forall|i: int|
                0 <= i < old(self).slots@.len() && i != id ==> final(self).slots@[i] == old(self).slots@[i],
            !final(self).is_live(id as int),
    {
        if id < self.slots.len() {
            let mut gone: Option<Buffer> = None;
            self.slots.set_and_swap(id, &mut gone);
        }
    }

    pub fn contains(&self, id: usize) -> (r: bool)
        ensures
            r == self.is_live(id as int),
    {
        id < self.slots.len() && self.slots[id].is_some()
    }
}

/// The textures of a device, by id; a destroyed texture leaves an empty slot.
pub struct TextureStorage {
    pub slots: Vec<Option<Texture>>,
}

impl TextureStorage {
    pub open spec fn wf(&self) -> bool {
        forall|i: int|
            0 <= i < self.slots@.len() && (#[trigger] self.slots@[i]).is_some() ==> self.slots@[
                i
            ].unwrap().wf()
    }

    pub open spec fn is_live(&self, id: int) -> bool {
        0 <= id < self.slots@.len() && self.slots@[id].is_some()
    }

    pub open spec fn tex(&self, id: int) -> Texture {
        self.slots@[id].unwrap()
    }

    pub fn new() -> (r: Self)
        ensures
            r.wf(),
            r.slots@.len() == 0,
    {
        TextureStorage { slots: Vec::new() }
    }

    /// Adds a texture and returns its id.
    pub fn insert(&mut self, texture: Texture) -> (id: usize)
        requires
            old(self).wf(),
            texture.wf(),
        ensures
            final(self).wf(),
            id == old(self).slots@.len(),
            final(self).slots@ == old(self).slots@.push(Some(texture)),
    {
        let id = self.slots.len();
        self.slots.push(Some(texture));
        id
    }

    /// Destroys the texture `id`, if it exists.
    pub fn remove(&mut self, id: usize)
        requires
            old(self).wf(),
        ensures
            final(self).wf(),
            final(self).slots@.len() == old(self).slots@.len(),
            forall|i: int|
                0 <= i < old(self).slots@.len() && i != id ==> final(self).slots@[i] == old(self).slots@[i],
            !final(self).is_live(id as int),
    {
        if id < self.slots.len() {
            let mut gone: Option<Texture> = None;
            self.slots.set_and_swap(id, &mut gone);
        }
    }

    pub fn contains(&self, id: usize) -> (r: bool)
        ensures
            r == self.is_live(id as int),
    {
        id < self.slots.len() && self.slots[id].is_some()
    }
}

} // verus!
