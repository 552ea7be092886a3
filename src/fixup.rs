use vstd::prelude::*;
use crate::action::{Command, TextureSurfaceDiscard};
use crate::resource::TextureStorage;

verus! {

/// The transition that makes a discarded surface a copy destination.
pub open spec fn surface_transition(d: TextureSurfaceDiscard) -> Command {
    Command::TransitionTexture {
        id: d.texture,
        mip: d.mip_level,
        layer_start: d.layer,
        layer_end: (d.layer + 1) as u32,
    }
}

/// The zero fill of a discarded surface.
pub open spec fn surface_fill(d: TextureSurfaceDiscard) -> Command {
    Command::ZeroFillTexture {
        id: d.texture,
        mip: d.mip_level,
        layer_start: d.layer,
        layer_end: (d.layer + 1) as u32,
    }
}

/// Initializes discarded surfaces on the spot, in the middle of recording:
/// for each surface, a transition to copy destination followed by a zero
/// fill of exactly that mip level and layer. Every surface belongs to a
/// live texture.
pub fn fixup_discarded_surfaces(
    inits: &Vec<TextureSurfaceDiscard>,
    encoder: &mut Vec<Command>,
    textures: &TextureStorage,
)
    requires
        forall|k: int|
            0 <= k < inits@.len() ==> (#[trigger] inits@[k]).layer < u32::MAX && textures.is_live(
                inits@[k].texture as int,
            ),
    ensures
        final(encoder)@.len() == old(encoder)@.len() + 2 * inits@.len(),
        final(encoder)@.take(old(encoder)@.len() as int) == old(encoder)@,
        forall|k: int|
            0 <= k < inits@.len() ==> final(encoder)@[old(encoder)@.len() + 2 * k]
                == surface_transition(#[trigger] inits@[k]) && final(encoder)@[old(encoder)@.len()
                + 2 * k + 1] == surface_fill(inits@[k]),
{
    let ghost base = encoder@;
    let mut i: usize = 0;
    while i < inits.len()
        invariant
            0 <= i <= inits@.len(),
            forall|k: int| 0 <= k < inits@.len() ==> (#[trigger] inits@[k]).layer < u32::MAX,
            encoder@.len() == base.len() + 2 * i,
            encoder@.take(base.len() as int) == base,
            forall|k: int|
                0 <= k < i ==> encoder@[base.len() + 2 * k] == surface_transition(
                    #[trigger] inits@[k],
                ) && encoder@[base.len() + 2 * k + 1] == surface_fill(inits@[k]),
        decreases inits@.len() - i,
    {
        let d = inits[i];
        let ghost e0 = encoder@;
        encoder.push(
            Command::TransitionTexture {
                id: d.texture,
                mip: d.mip_level,
                layer_start: d.layer,
                layer_end: d.layer + 1,
            },
        );
        encoder.push(
            Command::ZeroFillTexture {
                id: d.texture,
                mip: d.mip_level,
                layer_start: d.layer,
                layer_end: d.layer + 1,
            },
        );
        proof {
            assert(encoder@.take(base.len() as int) =~= e0.take(base.len() as int));
            assert forall|k: int|
                0 <= k < i + 1 implies encoder@[base.len() + 2 * k] == surface_transition(
                #[trigger] inits@[k],
            ) && encoder@[base.len() + 2 * k + 1] == surface_fill(inits@[k]) by {
                if k < i {
                    assert(encoder@[base.len() + 2 * k] == e0[base.len() + 2 * k]);
                    assert(encoder@[base.len() + 2 * k + 1] == e0[base.len() + 2 * k + 1]);
                }
            }
        }
        i = i + 1;
    }
}

} // verus!
