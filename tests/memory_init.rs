use memory_init::action::{
    BufferInitTrackerAction, Command, DestroyedBufferError, DestroyedTextureError, MemoryInitKind,
    TextureInitRange, TextureInitTrackerAction, TextureSurfaceDiscard,
};
use memory_init::fixup::fixup_discarded_surfaces;
use memory_init::init_tracker::InitTracker;
use memory_init::memory_actions::CommandBufferTextureMemoryActions;
use memory_init::resolve::{align_end, align_start, BakedCommands};
use memory_init::resource::{Buffer, BufferStorage, Texture, TextureStorage};

fn baked(buffer_actions: Vec<BufferInitTrackerAction>) -> BakedCommands {
    BakedCommands {
        encoder: Vec::new(),
        buffer_memory_init_actions: buffer_actions,
        texture_memory_actions: CommandBufferTextureMemoryActions::new(),
    }
}

fn buffer_action(id: usize, start: u64, end: u64, kind: MemoryInitKind) -> BufferInitTrackerAction {
    BufferInitTrackerAction { id, start, end, kind }
}

fn tex_action(
    id: usize,
    mips: (u32, u32),
    layers: (u32, u32),
    kind: MemoryInitKind,
) -> TextureInitTrackerAction {
    TextureInitTrackerAction {
        id,
        range: TextureInitRange {
            mip_start: mips.0,
            mip_end: mips.1,
            layer_start: layers.0,
            layer_end: layers.1,
        },
        kind,
    }
}

fn one_buffer(size: u64) -> BufferStorage {
    let mut buffers = BufferStorage::new();
    buffers.insert(Buffer::new(size));
    buffers
}

fn one_texture(mips: u32, layers: u32) -> TextureStorage {
    let mut textures = TextureStorage::new();
    textures.insert(Texture::new(mips, layers));
    textures
}

fn clears(cmds: &[Command]) -> Vec<(usize, u64, u64)> {
    cmds.iter()
        .filter_map(|c| match c {
            Command::ClearBuffer { id, start, end } => Some((*id, *start, *end)),
            _ => None,
        })
        .collect()
}

fn fills(cmds: &[Command]) -> Vec<(usize, u32, u32, u32)> {
    cmds.iter()
        .filter_map(|c| match c {
            Command::ZeroFillTexture { id, mip, layer_start, layer_end } => {
                Some((*id, *mip, *layer_start, *layer_end))
            }
            _ => None,
        })
        .collect()
}

#[test]
fn touching_reads_collapse_into_one_clear() {
    let mut buffers = one_buffer(128);
    let mut b = baked(vec![
        buffer_action(0, 0, 64, MemoryInitKind::NeedsInitializedMemory),
        buffer_action(0, 64, 128, MemoryInitKind::NeedsInitializedMemory),
    ]);
    assert_eq!(b.initialize_buffer_memory(&mut buffers), Ok(()));
    assert_eq!(
        b.encoder,
        vec![Command::TransitionBuffer { id: 0 }, Command::ClearBuffer { id: 0, start: 0, end: 128 }]
    );
    assert!(b.buffer_memory_init_actions.is_empty());
}

#[test]
fn unaligned_read_clears_aligned_range() {
    let mut buffers = one_buffer(128);
    let mut b = baked(vec![buffer_action(0, 10, 70, MemoryInitKind::NeedsInitializedMemory)]);
    assert_eq!(b.initialize_buffer_memory(&mut buffers), Ok(()));
    let c = clears(&b.encoder);
    assert_eq!(c, vec![(0, 8, 72)]);
    assert_eq!(c[0].1 % 4, 0);
    assert_eq!(c[0].2 % 4, 0);
    assert!(c[0].2 >= 70);
}

#[test]
fn align_helpers() {
    assert_eq!(align_end(70), 72);
    assert_eq!(align_end(72), 72);
    assert_eq!(align_end(0), 0);
    assert_eq!(align_start(10), 8);
    assert_eq!(align_start(12), 12);
}

#[test]
fn read_after_overwrite_clears_nothing() {
    let mut buffers = one_buffer(128);
    let mut b = baked(vec![
        buffer_action(0, 0, 64, MemoryInitKind::ImplicitlyInitialized),
        buffer_action(0, 16, 48, MemoryInitKind::NeedsInitializedMemory),
    ]);
    assert_eq!(b.initialize_buffer_memory(&mut buffers), Ok(()));
    assert!(clears(&b.encoder).is_empty());
    assert_eq!(
        buffers.slots[0].as_ref().unwrap().initialization_status.uninitialized_ranges,
        vec![(64, 128)]
    );
}

#[test]
fn overwrite_settles_only_from_its_start() {
    let mut buffers = one_buffer(128);
    let mut b = baked(vec![
        buffer_action(0, 12, 70, MemoryInitKind::ImplicitlyInitialized),
        buffer_action(0, 8, 12, MemoryInitKind::NeedsInitializedMemory),
    ]);
    assert_eq!(b.initialize_buffer_memory(&mut buffers), Ok(()));
    assert_eq!(clears(&b.encoder), vec![(0, 8, 12)]);
    assert_eq!(
        buffers.slots[0].as_ref().unwrap().initialization_status.uninitialized_ranges,
        vec![(0, 8), (72, 128)]
    );
}

#[test]
fn read_is_cleared_once_across_batches() {
    let mut buffers = one_buffer(64);
    let mut first = baked(vec![buffer_action(0, 0, 16, MemoryInitKind::NeedsInitializedMemory)]);
    assert_eq!(first.initialize_buffer_memory(&mut buffers), Ok(()));
    assert_eq!(clears(&first.encoder), vec![(0, 0, 16)]);
    let mut second = baked(vec![buffer_action(0, 0, 32, MemoryInitKind::NeedsInitializedMemory)]);
    assert_eq!(second.initialize_buffer_memory(&mut buffers), Ok(()));
    assert_eq!(clears(&second.encoder), vec![(0, 16, 32)]);
}

#[test]
fn reads_of_two_buffers_clear_each() {
    let mut buffers = BufferStorage::new();
    buffers.insert(Buffer::new(32));
    buffers.insert(Buffer::new(30));
    let mut b = baked(vec![
        buffer_action(1, 0, 30, MemoryInitKind::NeedsInitializedMemory),
        buffer_action(0, 4, 8, MemoryInitKind::NeedsInitializedMemory),
    ]);
    assert_eq!(b.initialize_buffer_memory(&mut buffers), Ok(()));
    assert_eq!(clears(&b.encoder), vec![(0, 4, 8), (1, 0, 32)]);
}

#[test]
fn destroyed_buffer_is_reported() {
    let mut buffers = one_buffer(64);
    buffers.insert(Buffer::new(64));
    buffers.remove(1);
    let mut b = baked(vec![
        buffer_action(0, 0, 16, MemoryInitKind::NeedsInitializedMemory),
        buffer_action(1, 0, 16, MemoryInitKind::NeedsInitializedMemory),
    ]);
    assert_eq!(b.initialize_buffer_memory(&mut buffers), Err(DestroyedBufferError(1)));
    assert!(b.encoder.is_empty());
}

#[test]
fn discard_then_read_needs_immediate_clear() {
    let textures = one_texture(2, 4);
    let mut log = CommandBufferTextureMemoryActions::new();
    let surface = TextureSurfaceDiscard { texture: 0, mip_level: 0, layer: 2 };
    log.discard(surface);
    let read = tex_action(0, (0, 1), (0, 4), MemoryInitKind::NeedsInitializedMemory);
    let now = log.register_init_action(&read, &textures);
    assert_eq!(now, vec![surface]);
    assert!(log.discards.is_empty());
    assert_eq!(
        log.init_actions,
        vec![
            tex_action(0, (0, 1), (0, 4), MemoryInitKind::NeedsInitializedMemory),
            tex_action(0, (0, 1), (2, 3), MemoryInitKind::ImplicitlyInitialized),
        ]
    );
    let other = tex_action(0, (1, 2), (0, 1), MemoryInitKind::NeedsInitializedMemory);
    assert!(log.register_init_action(&other, &textures).is_empty());
}

#[test]
fn discard_then_write_drops_discard() {
    let textures = one_texture(2, 4);
    let mut log = CommandBufferTextureMemoryActions::new();
    log.discard(TextureSurfaceDiscard { texture: 0, mip_level: 1, layer: 0 });
    let write = tex_action(0, (1, 2), (0, 2), MemoryInitKind::ImplicitlyInitialized);
    assert!(log.register_init_action(&write, &textures).is_empty());
    assert!(log.discards.is_empty());
    assert_eq!(log.init_actions, vec![write]);
}

#[test]
fn implicit_init_keeps_unrelated_discards() {
    let textures = one_texture(2, 4);
    let mut log = CommandBufferTextureMemoryActions::new();
    let kept = TextureSurfaceDiscard { texture: 0, mip_level: 0, layer: 3 };
    log.discard(kept);
    log.register_implicit_init(
        0,
        TextureInitRange { mip_start: 0, mip_end: 1, layer_start: 0, layer_end: 2 },
        &textures,
    );
    assert_eq!(log.discards, vec![kept]);
    assert_eq!(log.init_actions.len(), 1);
}

#[test]
fn access_to_destroyed_texture_is_not_logged() {
    let mut textures = one_texture(1, 1);
    textures.remove(0);
    let mut log = CommandBufferTextureMemoryActions::new();
    log.discard(TextureSurfaceDiscard { texture: 0, mip_level: 0, layer: 0 });
    let read = tex_action(0, (0, 1), (0, 1), MemoryInitKind::NeedsInitializedMemory);
    assert!(log.register_init_action(&read, &textures).is_empty());
    assert!(log.init_actions.is_empty());
    assert_eq!(log.discards.len(), 1);
}

#[test]
fn read_of_initialized_texture_logs_nothing() {
    let mut textures = one_texture(1, 4);
    let mut b = baked(Vec::new());
    b.texture_memory_actions
        .init_actions
        .push(tex_action(0, (0, 1), (0, 4), MemoryInitKind::ImplicitlyInitialized));
    assert_eq!(b.initialize_texture_memory(&mut textures), Ok(()));
    let mut log = CommandBufferTextureMemoryActions::new();
    let read = tex_action(0, (0, 1), (0, 4), MemoryInitKind::NeedsInitializedMemory);
    assert!(log.register_init_action(&read, &textures).is_empty());
    assert!(log.init_actions.is_empty());
}

#[test]
fn discarded_surface_needs_clear_in_next_batch() {
    let mut textures = one_texture(1, 4);
    let mut a = baked(Vec::new());
    a.texture_memory_actions
        .init_actions
        .push(tex_action(0, (0, 1), (0, 4), MemoryInitKind::ImplicitlyInitialized));
    a.texture_memory_actions
        .discard(TextureSurfaceDiscard { texture: 0, mip_level: 0, layer: 1 });
    assert_eq!(a.initialize_texture_memory(&mut textures), Ok(()));
    assert!(fills(&a.encoder).is_empty());
    assert_eq!(
        textures.slots[0].as_ref().unwrap().mips[0].uninitialized_ranges,
        vec![(1, 2)]
    );
    let mut next = baked(Vec::new());
    next.texture_memory_actions
        .init_actions
        .push(tex_action(0, (0, 1), (0, 4), MemoryInitKind::NeedsInitializedMemory));
    assert_eq!(next.initialize_texture_memory(&mut textures), Ok(()));
    assert_eq!(
        next.encoder,
        vec![
            Command::TransitionTexture { id: 0, mip: 0, layer_start: 1, layer_end: 2 },
            Command::ZeroFillTexture { id: 0, mip: 0, layer_start: 1, layer_end: 2 },
        ]
    );
}

#[test]
fn texture_read_fills_each_mip() {
    let mut textures = one_texture(3, 2);
    let mut b = baked(Vec::new());
    b.texture_memory_actions
        .init_actions
        .push(tex_action(0, (0, 1), (0, 1), MemoryInitKind::ImplicitlyInitialized));
    b.texture_memory_actions
        .init_actions
        .push(tex_action(0, (0, 5), (0, 2), MemoryInitKind::NeedsInitializedMemory));
    assert_eq!(b.initialize_texture_memory(&mut textures), Ok(()));
    assert_eq!(fills(&b.encoder), vec![(0, 0, 1, 2), (0, 1, 0, 2), (0, 2, 0, 2)]);
    assert!(b.texture_memory_actions.init_actions.is_empty());
}

#[test]
fn destroyed_texture_is_reported() {
    let mut textures = one_texture(1, 1);
    textures.insert(Texture::new(1, 1));
    textures.remove(1);
    let mut b = baked(Vec::new());
    b.texture_memory_actions
        .init_actions
        .push(tex_action(1, (0, 1), (0, 1), MemoryInitKind::NeedsInitializedMemory));
    assert_eq!(b.initialize_texture_memory(&mut textures), Err(DestroyedTextureError(1)));
    let mut c = baked(Vec::new());
    c.texture_memory_actions
        .discard(TextureSurfaceDiscard { texture: 1, mip_level: 0, layer: 0 });
    assert_eq!(c.initialize_texture_memory(&mut textures), Err(DestroyedTextureError(1)));
    assert!(c.encoder.is_empty());
}

#[test]
fn fixup_fills_each_surface() {
    let inits = vec![
        TextureSurfaceDiscard { texture: 0, mip_level: 0, layer: 2 },
        TextureSurfaceDiscard { texture: 1, mip_level: 1, layer: 0 },
    ];
    let mut textures = one_texture(1, 4);
    textures.insert(Texture::new(2, 1));
    let mut encoder = vec![Command::TransitionBuffer { id: 9 }];
    fixup_discarded_surfaces(&inits, &mut encoder, &textures);
    assert_eq!(
        encoder,
        vec![
            Command::TransitionBuffer { id: 9 },
            Command::TransitionTexture { id: 0, mip: 0, layer_start: 2, layer_end: 3 },
            Command::ZeroFillTexture { id: 0, mip: 0, layer_start: 2, layer_end: 3 },
            Command::TransitionTexture { id: 1, mip: 1, layer_start: 0, layer_end: 1 },
            Command::ZeroFillTexture { id: 1, mip: 1, layer_start: 0, layer_end: 1 },
        ]
    );
}

#[test]
fn tracker_drain_returns_intersection() {
    let mut t = InitTracker::new(100);
    assert_eq!(t.drain(20, 40), vec![(20, 40)]);
    assert_eq!(t.uninitialized_ranges, vec![(0, 20), (40, 100)]);
    assert_eq!(t.drain(10, 50), vec![(10, 20), (40, 50)]);
    assert_eq!(t.uninitialized_ranges, vec![(0, 10), (50, 100)]);
    assert!(t.drain(30, 30).is_empty());
    assert!(t.drain(20, 40).is_empty());
    assert_eq!(t.check(0, 200), vec![(0, 10), (50, 100)]);
}

#[test]
fn tracker_discard_merges_neighbours() {
    let mut t = InitTracker::new(4);
    t.drain(0, 4);
    assert!(t.uninitialized_ranges.is_empty());
    t.discard(1);
    assert_eq!(t.uninitialized_ranges, vec![(1, 2)]);
    t.discard(3);
    assert_eq!(t.uninitialized_ranges, vec![(1, 2), (3, 4)]);
    t.discard(2);
    assert_eq!(t.uninitialized_ranges, vec![(1, 4)]);
    t.discard(2);
    assert_eq!(t.uninitialized_ranges, vec![(1, 4)]);
    t.insert_range(0, 10);
    assert_eq!(t.uninitialized_ranges, vec![(0, 10)]);
}

#[test]
fn empty_tracker_has_no_ranges() {
    let mut t = InitTracker::new(0);
    assert!(t.uninitialized_ranges.is_empty());
    assert!(t.drain(0, 8).is_empty());
}

#[test]
fn destroyed_texture_keeps_earlier_fills() {
    let mut textures = one_texture(1, 2);
    textures.insert(Texture::new(1, 1));
    textures.remove(1);
    let mut b = baked(Vec::new());
    b.texture_memory_actions
        .init_actions
        .push(tex_action(0, (0, 1), (0, 2), MemoryInitKind::NeedsInitializedMemory));
    b.texture_memory_actions
        .init_actions
        .push(tex_action(1, (0, 1), (0, 1), MemoryInitKind::NeedsInitializedMemory));
    assert_eq!(b.initialize_texture_memory(&mut textures), Err(DestroyedTextureError(1)));
    assert_eq!(
        b.encoder,
        vec![
            Command::TransitionTexture { id: 0, mip: 0, layer_start: 0, layer_end: 2 },
            Command::ZeroFillTexture { id: 0, mip: 0, layer_start: 0, layer_end: 2 },
        ]
    );
    assert!(textures.slots[0].as_ref().unwrap().mips[0].uninitialized_ranges.is_empty());
}

#[test]
fn overwrite_emits_no_command() {
    let mut textures = one_texture(2, 3);
    let mut b = baked(vec![buffer_action(0, 0, 8, MemoryInitKind::ImplicitlyInitialized)]);
    let mut buffers = one_buffer(8);
    b.texture_memory_actions
        .init_actions
        .push(tex_action(0, (0, 2), (0, 3), MemoryInitKind::ImplicitlyInitialized));
    assert_eq!(b.initialize_buffer_memory(&mut buffers), Ok(()));
    assert_eq!(b.initialize_texture_memory(&mut textures), Ok(()));
    assert!(b.encoder.is_empty());
}

#[test]
fn read_logs_one_entry_per_run() {
    let mut textures = one_texture(2, 6);
    let mut b = baked(Vec::new());
    b.texture_memory_actions
        .init_actions
        .push(tex_action(0, (0, 1), (2, 4), MemoryInitKind::ImplicitlyInitialized));
    assert_eq!(b.initialize_texture_memory(&mut textures), Ok(()));
    let mut log = CommandBufferTextureMemoryActions::new();
    let read = tex_action(0, (0, 2), (1, 5), MemoryInitKind::NeedsInitializedMemory);
    assert!(log.register_init_action(&read, &textures).is_empty());
    assert_eq!(
        log.init_actions,
        vec![
            tex_action(0, (0, 1), (1, 2), MemoryInitKind::NeedsInitializedMemory),
            tex_action(0, (0, 1), (4, 5), MemoryInitKind::NeedsInitializedMemory),
            tex_action(0, (1, 2), (1, 5), MemoryInitKind::NeedsInitializedMemory),
        ]
    );
}
