use vstd::prelude::*;
use crate::action::{Command, DestroyedTextureError, MemoryInitKind, TextureInitTrackerAction, TextureSurfaceDiscard};
use crate::init_tracker::{lemma_points_empty, lemma_points_take, lemma_span_in_points, points, span, InitTracker};
use crate::resolve::{lemma_diff_diff, lemma_union_assoc, lemma_union_empty, BakedCommands};
use crate::resource::{Texture, TextureStorage};

verus! {

/// The layers an access covers.
pub open spec fn layer_span(a: TextureInitTrackerAction) -> Set<int> {
    span((a.range.layer_start as u64, a.range.layer_end as u64))
}

/// The access reaches mip level `m` of texture `id`.
pub open spec fn reaches(a: TextureInitTrackerAction, id: int, m: int) -> bool {
    a.id == id && a.range.mip_start <= m < a.range.mip_end
}

/// Layers of mip level `m` of texture `id` that the actions touch.
pub open spec fn tex_touched(acts: Seq<TextureInitTrackerAction>, id: int, m: int) -> Set<int>
    decreases acts.len(),
{
    if acts.len() == 0 {
        Set::empty()
    } else if reaches(acts.last(), id, m) {
        tex_touched(acts.drop_last(), id, m).union(layer_span(acts.last()))
    } else {
        tex_touched(acts.drop_last(), id, m)
    }
}

/// Layers of mip level `m` of texture `id` that resolving the actions in
/// order must zero-fill, when `init` holds its uninitialized layers
/// beforehand.
pub open spec fn tex_cleared(init: Set<int>, acts: Seq<TextureInitTrackerAction>, id: int, m: int) -> Set<int>
    decreases acts.len(),
{
    if acts.len() == 0 {
        Set::empty()
    } else if reaches(acts.last(), id, m) && acts.last().kind == MemoryInitKind::NeedsInitializedMemory {
        tex_cleared(init, acts.drop_last(), id, m).union(
            init.difference(tex_touched(acts.drop_last(), id, m)).intersect(layer_span(acts.last())),
        )
    } else {
        tex_cleared(init, acts.drop_last(), id, m)
    }
}

/// Layers of mip level `m` of texture `id` that the discards leave
/// uninitialized.
pub open spec fn discarded(ds: Seq<TextureSurfaceDiscard>, id: int, m: int) -> Set<int>
    decreases ds.len(),
{
    if ds.len() == 0 {
        Set::empty()
    } else if ds.last().texture == id && ds.last().mip_level == m {
        discarded(ds.drop_last(), id, m).insert(ds.last().layer as int)
    } else {
        discarded(ds.drop_last(), id, m)
    }
}

/// Layers of mip level `m` of texture `id` that the zero fills cover.
pub open spec fn fill_points(cmds: Seq<Command>, id: int, m: int) -> Set<int>
    decreases cmds.len(),
{
    if cmds.len() == 0 {
        Set::empty()
    } else {
        match cmds.last() {
            Command::ZeroFillTexture { id: t, mip, layer_start, layer_end } => if t == id && mip
                == m {
                fill_points(cmds.drop_last(), id, m).union(span((layer_start as u64, layer_end as u64)))
            } else {
                fill_points(cmds.drop_last(), id, m)
            },
            _ => fill_points(cmds.drop_last(), id, m),
        }
    }
}

/// Layers of mip level `m` that the regions `(mip, layer_start, layer_end)`
/// cover.
pub open spec fn region_points(rs: Seq<(u32, u32, u32)>, m: int) -> Set<int>
    decreases rs.len(),
{
    if rs.len() == 0 {
        Set::empty()
    } else if rs.last().0 == m {
        region_points(rs.drop_last(), m).union(span((rs.last().1 as u64, rs.last().2 as u64)))
    } else {
        region_points(rs.drop_last(), m)
    }
}

proof fn lemma_region_push(rs: Seq<(u32, u32, u32)>, x: (u32, u32, u32), m: int)
    ensures
        region_points(rs.push(x), m) == if x.0 == m {
            region_points(rs, m).union(span((x.1 as u64, x.2 as u64)))
        } else {
            region_points(rs, m)
        },
{
    assert(rs.push(x).drop_last() =~= rs);
}

proof fn lemma_region_take(rs: Seq<(u32, u32, u32)>, k: int, m: int)
    requires
        0 <= k < rs.len(),
    ensures
        region_points(rs.take(k + 1), m) == if rs[k].0 == m {
            region_points(rs.take(k), m).union(span((rs[k].1 as u64, rs[k].2 as u64)))
        } else {
            region_points(rs.take(k), m)
        },
{
    assert(rs.take(k + 1).drop_last() =~= rs.take(k));
}

/// Layers of mip level `m` of texture `id` that the transitions cover.
pub open spec fn trans_points(cmds: Seq<Command>, id: int, m: int) -> Set<int>
    decreases cmds.len(),
{
    if cmds.len() == 0 {
        Set::empty()
    } else {
        match cmds.last() {
            Command::TransitionTexture { id: t, mip, layer_start, layer_end } => if t == id && mip
                == m {
                trans_points(cmds.drop_last(), id, m).union(span((layer_start as u64, layer_end as u64)))
            } else {
                trans_points(cmds.drop_last(), id, m)
            },
            _ => trans_points(cmds.drop_last(), id, m),
        }
    }
}

pub open spec fn is_fill(c: Command) -> bool {
    match c {
        Command::ZeroFillTexture { .. } => true,
        _ => false,
    }
}

/// The transition that must come before a zero fill: same texture, mip
/// level and layers.
pub open spec fn transition_for(c: Command) -> Command {
    match c {
        Command::ZeroFillTexture { id, mip, layer_start, layer_end } => Command::TransitionTexture {
            id,
            mip,
            layer_start,
            layer_end,
        },
        _ => c,
    }
}

/// Each zero fill comes after the transition of exactly its layers.
pub open spec fn fills_preceded(cmds: Seq<Command>) -> bool {
    forall|j: int|
        0 <= j < cmds.len() && is_fill(#[trigger] cmds[j]) ==> exists|i: int|
            0 <= i < j && cmds[i] == transition_for(cmds[j])
}

proof fn lemma_trans_push(cmds: Seq<Command>, c: Command, id: int, m: int)
    ensures
        trans_points(cmds.push(c), id, m) == match c {
            Command::TransitionTexture { id: t, mip, layer_start, layer_end } => if t == id && mip
                == m {
                trans_points(cmds, id, m).union(span((layer_start as u64, layer_end as u64)))
            } else {
                trans_points(cmds, id, m)
            },
            _ => trans_points(cmds, id, m),
        },
{
    assert(cmds.push(c).drop_last() =~= cmds);
}

proof fn lemma_fills_preceded_push(cmds: Seq<Command>, c: Command, w: int)
    requires
        fills_preceded(cmds),
        is_fill(c) ==> 0 <= w < cmds.len() && cmds[w] == transition_for(c),
    ensures
        fills_preceded(cmds.push(c)),
{
    let t = cmds.push(c);
    assert forall|j: int| 0 <= j < t.len() && is_fill(#[trigger] t[j]) implies exists|i: int|
        0 <= i < j && t[i] == transition_for(t[j]) by {
        if j < cmds.len() {
            assert(t[j] == cmds[j]);
            let i = choose|i: int| 0 <= i < j && cmds[i] == transition_for(cmds[j]);
            assert(t[i] == cmds[i]);
        } else {
            assert(t[w] == cmds[w]);
        }
    }
}

/// Every command is a transition or a zero fill of a non-empty run of
/// layers of an existing mip level of a live texture.
pub open spec fn texture_commands_ok(cmds: Seq<Command>, st: TextureStorage) -> bool {
    forall|k: int|
        0 <= k < cmds.len() ==> match #[trigger] cmds[k] {
            Command::TransitionTexture { id, mip, layer_start, layer_end } => st.is_live(id as int)
                && mip < st.tex(id as int).mips@.len() && layer_start < layer_end,
            Command::ZeroFillTexture { id, mip, layer_start, layer_end } => st.is_live(id as int)
                && mip < st.tex(id as int).mips@.len() && layer_start < layer_end,
            _ => false,
        }
}

/// The storage `after` and the commands `cmds` are what resolving the
/// accesses `acts` and then the discards `ds` makes of `before`: each
/// touched layer is initialized, each discarded one uninitialized again, and
/// the zero fills cover exactly the layers that reads found uninitialized.
pub open spec fn texture_resolved(
    before: TextureStorage,
    after: TextureStorage,
    cmds: Seq<Command>,
    acts: Seq<TextureInitTrackerAction>,
    ds: Seq<TextureSurfaceDiscard>,
) -> bool {
    &&& texture_commands_ok(cmds, before)
    &&& forall|id: int, m: int|
        before.is_live(id) && 0 <= m < mip_count(before, id) ==> #[trigger] tex_uninit(after, id, m)
            == tex_uninit(before, id, m).difference(tex_touched(acts, id, m)).union(
            discarded(ds, id, m),
        )
    &&& forall|id: int, m: int|
        before.is_live(id) && 0 <= m < mip_count(before, id) ==> #[trigger] fill_points(cmds, id, m)
            == tex_cleared(tex_uninit(before, id, m), acts, id, m)
    &&& forall|id: int, m: int| #[trigger] trans_points(cmds, id, m) == fill_points(cmds, id, m)
    &&& fills_preceded(cmds)
}

pub open spec fn tex_uninit(st: TextureStorage, id: int, m: int) -> Set<int> {
    st.tex(id).uninit(m)
}

pub open spec fn mip_count(st: TextureStorage, id: int) -> int {
    st.tex(id).mips@.len() as int
}

proof fn lemma_fill_push(cmds: Seq<Command>, c: Command, id: int, m: int)
    ensures
        fill_points(cmds.push(c), id, m) == match c {
            Command::ZeroFillTexture { id: t, mip, layer_start, layer_end } => if t == id && mip
                == m {
                fill_points(cmds, id, m).union(span((layer_start as u64, layer_end as u64)))
            } else {
                fill_points(cmds, id, m)
            },
            _ => fill_points(cmds, id, m),
        },
{
    assert(cmds.push(c).drop_last() =~= cmds);
}

proof fn lemma_texture_commands_push(cmds: Seq<Command>, c: Command, st: TextureStorage)
    requires
        texture_commands_ok(cmds, st),
        match c {
            Command::TransitionTexture { id, mip, layer_start, layer_end } => st.is_live(id as int)
                && mip < st.tex(id as int).mips@.len() && layer_start < layer_end,
            Command::ZeroFillTexture { id, mip, layer_start, layer_end } => st.is_live(id as int)
                && mip < st.tex(id as int).mips@.len() && layer_start < layer_end,
            _ => false,
        },
    ensures
        texture_commands_ok(cmds.push(c), st),
{
    let t = cmds.push(c);
    assert forall|k: int| 0 <= k < t.len() implies match #[trigger] t[k] {
        Command::TransitionTexture { id, mip, layer_start, layer_end } => st.is_live(id as int)
            && mip < st.tex(id as int).mips@.len() && layer_start < layer_end,
        Command::ZeroFillTexture { id, mip, layer_start, layer_end } => st.is_live(id as int) && mip
            < st.tex(id as int).mips@.len() && layer_start < layer_end,
        _ => false,
    } by {
        if k < cmds.len() {
            assert(t[k] == cmds[k]);
        }
    }
}

proof fn lemma_union_insert(a: Set<int>, b: Set<int>, x: int)
    ensures
        a.union(b).insert(x) == a.union(b.insert(x)),
{
    assert(a.union(b).insert(x) =~= a.union(b.insert(x)));
}

impl BakedCommands {
    /// Resolves the texture accesses of the batch in recording order: marks
    /// the layers they touch as initialized and, for the layers a read finds
    /// uninitialized, emits the transitions of those runs of layers and then
    /// their zero fills.
    /// Afterwards the surfaces the batch left discarded become uninitialized
    /// again, for later submissions. The first destroyed texture, in that
    /// order, fails the resolution; everything resolved before it stays
    /// applied, its commands included.
    #[verifier::rlimit(100)]
    pub fn initialize_texture_memory(&mut self, textures: &mut TextureStorage) -> (r: Result<
        (),
        DestroyedTextureError,
    >)
        requires
            old(textures).wf(),
        ensures
            final(textures).wf(),
            final(textures).slots@.len() == old(textures).slots@.len(),
            forall|id: int| #[trigger] final(textures).is_live(id) == old(textures).is_live(id),
            forall|id: int|
                old(textures).is_live(id) ==> #[trigger] mip_count(*final(textures), id) == mip_count(
                    *old(textures),
                    id,
                ),
            final(self).texture_memory_actions.init_actions@.len() == 0,
            final(self).texture_memory_actions.discards@ == old(self).texture_memory_actions.discards@,
            final(self).buffer_memory_init_actions@ == old(self).buffer_memory_init_actions@,
            r.is_err() <==> (exists|k: int|
                0 <= k < old(self).texture_memory_actions.init_actions@.len() && !old(textures).is_live(
                    (#[trigger] old(self).texture_memory_actions.init_actions@[k]).id as int,
                )) || (exists|k: int|
                0 <= k < old(self).texture_memory_actions.discards@.len() && !old(textures).is_live(
                    (#[trigger] old(self).texture_memory_actions.discards@[k]).texture as int,
                )),
            final(self).encoder@.len() >= old(self).encoder@.len(),
            final(self).encoder@.take(old(self).encoder@.len() as int) == old(self).encoder@,
            r.is_ok() ==> texture_resolved(
                *old(textures),
                *final(textures),
                final(self).encoder@.skip(old(self).encoder@.len() as int),
                old(self).texture_memory_actions.init_actions@,
                old(self).texture_memory_actions.discards@,
            ),
            r matches Err(e) ==> {
                let acts = old(self).texture_memory_actions.init_actions@;
                let ds = old(self).texture_memory_actions.discards@;
                exists|k: int, d: int|
                    0 <= k <= acts.len() && 0 <= d <= ds.len() && #[trigger] texture_resolved(
                        *old(textures),
                        *final(textures),
                        final(self).encoder@.skip(old(self).encoder@.len() as int),
                        acts.take(k),
                        ds.take(d),
                    ) && (forall|j: int| 0 <= j < k ==> old(textures).is_live((#[trigger] acts[j]).id as int))
                        && (forall|j: int| 0 <= j < d ==> old(textures).is_live((#[trigger] ds[j]).texture as int))
                        && !old(textures).is_live(e.0 as int)
                        && ((k < acts.len() && d == 0 && e.0 == acts[k].id) || (k == acts.len() && d
                        < ds.len() && e.0 == ds[d].texture))
            },
    {
        let ghost st0 = *textures;
        let acts = self.texture_memory_actions.drain_init_actions();
        let ghost all = acts@;
        let mut out: Vec<Command> = Vec::new();
        proof {
            assert(all.take(0) =~= Seq::<TextureInitTrackerAction>::empty());
            assert forall|id: int, m: int|
                st0.is_live(id) && 0 <= m < mip_count(st0, id) implies #[trigger] tex_uninit(
                *textures,
                id,
                m,
            ) == tex_uninit(st0, id, m).difference(tex_touched(all.take(0), id, m)) by {
                assert(tex_uninit(st0, id, m).difference(Set::empty()) =~= tex_uninit(st0, id, m));
            }
        }
        let mut i: usize = 0;
        while i < acts.len()
            invariant
                all == acts@,
                all == old(self).texture_memory_actions.init_actions@,
                st0 == *old(textures),
                0 <= i <= all.len(),
                textures.wf(),
                textures.slots@.len() == st0.slots@.len(),
                forall|id: int| #[trigger] textures.is_live(id) == st0.is_live(id),
                forall|id: int|
                    st0.is_live(id) ==> #[trigger] mip_count(*textures, id) == mip_count(st0, id),
                forall|j: int| 0 <= j < i ==> st0.is_live((#[trigger] all[j]).id as int),
                forall|id: int, m: int|
                    st0.is_live(id) && 0 <= m < mip_count(st0, id) ==> #[trigger] tex_uninit(
                        *textures,
                        id,
                        m,
                    ) == tex_uninit(st0, id, m).difference(tex_touched(all.take(i as int), id, m)),
                forall|id: int, m: int|
                    st0.is_live(id) && 0 <= m < mip_count(st0, id) ==> #[trigger] fill_points(
                        out@,
                        id,
                        m,
                    ) == tex_cleared(tex_uninit(st0, id, m), all.take(i as int), id, m),
                texture_commands_ok(out@, st0),
                forall|id: int, m: int| #[trigger] trans_points(out@, id, m) == fill_points(out@, id, m),
                fills_preceded(out@),
                self.encoder@ == old(self).encoder@,
                self.texture_memory_actions.init_actions@.len() == 0,
                self.texture_memory_actions.discards@ == old(self).texture_memory_actions.discards@,
                self.buffer_memory_init_actions@ == old(self).buffer_memory_init_actions@,
            decreases all.len() - i,
        {
            let a = acts[i];
            proof {
                assert(all.take(i + 1).drop_last() =~= all.take(i as int));
                assert(all.take(i + 1).last() == a);
            }
            if !textures.contains(a.id) {
                let ghost before_append = self.encoder@;
                let ghost out_final = out@;
                self.encoder.append(&mut out);
                proof {
                    assert(!st0.is_live(all[i as int].id as int));
                    assert(self.encoder@.skip(before_append.len() as int) =~= out_final);
                    assert(self.encoder@.take(before_append.len() as int) =~= before_append);
                    let ds0 = old(self).texture_memory_actions.discards@;
                    assert(ds0.take(0) =~= Seq::<TextureSurfaceDiscard>::empty());
                    assert forall|id: int, m: int|
                        st0.is_live(id) && 0 <= m < mip_count(st0, id) implies #[trigger] tex_uninit(
                        *textures,
                        id,
                        m,
                    ) == tex_uninit(st0, id, m).difference(tex_touched(all.take(i as int), id, m)).union(
                        discarded(ds0.take(0), id, m),
                    ) by {
                        lemma_union_empty(tex_uninit(st0, id, m).difference(tex_touched(all.take(i as int), id, m)));
                    }
                    assert(texture_resolved(st0, *textures, out_final, all.take(i as int), ds0.take(0)));
                }
                return Err(DestroyedTextureError(a.id));
            }
            let ghost before = *textures;
            let ghost out0 = out@;
            let mut slot: Option<Texture> = None;
            textures.slots.set_and_swap(a.id, &mut slot);
            let mut tex = slot.unwrap();
            let ghost tex0 = tex;
            let ghost mid = *textures;
            proof {
                assert(before.slots@[a.id as int].unwrap().wf());
                assert(mip_count(before, a.id as int) == mip_count(st0, a.id as int));
            }
            let ls = a.range.layer_start;
            let le = a.range.layer_end;
            let needs = a.kind == MemoryInitKind::NeedsInitializedMemory;
            let stop: usize = if (a.range.mip_end as usize) < tex.mips.len() {
                a.range.mip_end as usize
            } else {
                tex.mips.len()
            };
            let mut regions: Vec<(u32, u32, u32)> = Vec::new();
            let mut m: usize = a.range.mip_start as usize;
            while m < stop
                invariant
                    *textures == mid,
                    st0.is_live(a.id as int),
                    tex0 == before.tex(a.id as int),
                    tex0.mips@.len() == mip_count(st0, a.id as int),
                    tex.mips@.len() == tex0.mips@.len(),
                    tex.wf(),
                    stop <= tex0.mips@.len(),
                    stop <= a.range.mip_end,
                    a.range.mip_start <= m,
                    m <= stop || m == a.range.mip_start,
                    ls == a.range.layer_start,
                    le == a.range.layer_end,
                    needs == (a.kind == MemoryInitKind::NeedsInitializedMemory),
                    forall|mm: int|
                        0 <= mm < tex.mips@.len() ==> #[trigger] tex.uninit(mm) == if a.range.mip_start
                            <= mm < m {
                            tex0.uninit(mm).difference(layer_span(a))
                        } else {
                            tex0.uninit(mm)
                        },
                    forall|mm: int|
                        0 <= mm < tex0.mips@.len() ==> #[trigger] region_points(regions@, mm) == if a.range.mip_start
                            <= mm < m && needs {
                            tex0.uninit(mm).intersect(layer_span(a))
                        } else {
                            Set::<int>::empty()
                        },
                    forall|k: int|
                        0 <= k < regions@.len() ==> (#[trigger] regions@[k]).0 < tex0.mips@.len()
                            && regions@[k].1 < regions@[k].2,
                decreases stop - m,
            {
                let ghost out1 = out@;
                let ghost texm = tex;
                let mut tr = InitTracker::new(0);
                tex.mips.set_and_swap(m, &mut tr);
                proof {
                    assert(texm.mips@[m as int].wf());
                }
                let drained = tr.drain(ls as u64, le as u64);
                let ghost trd = tr;
                tex.mips.set_and_swap(m, &mut tr);
                proof {
                    assert(texm.uninit(m as int) == tex0.uninit(m as int));
                    assert(tex.mips@[m as int] == trd);
                    assert forall|mm: int| 0 <= mm < tex.mips@.len() implies (#[trigger] tex.mips@[mm]).wf() by {
                        if mm != m {
                            assert(tex.mips@[mm] == texm.mips@[mm]);
                        }
                    }
                    assert forall|mm: int|
                        0 <= mm < tex.mips@.len() implies #[trigger] tex.uninit(mm) == if a.range.mip_start
                            <= mm < m + 1 {
                            tex0.uninit(mm).difference(layer_span(a))
                        } else {
                            tex0.uninit(mm)
                        } by {
                        if mm != m {
                            assert(tex.mips@[mm] == texm.mips@[mm]);
                            assert(texm.uninit(mm) == tex.uninit(mm));
                        } else {
                            assert(tex.uninit(mm) == trd.uninit());
                        }
                    }
                    assert(texm.uninit(m as int) == tex0.uninit(m as int));
                }
                if needs {
                    let ghost rg1 = regions@;
                    proof {
                        lemma_points_empty();
                        assert(drained@.take(0) =~= Seq::<(u64, u64)>::empty());
                        assert(Set::<int>::empty().union(Set::<int>::empty()) =~= Set::<int>::empty());
                    }
                    let mut j: usize = 0;
                    while j < drained.len()
                        invariant
                            m < stop,
                            stop <= a.range.mip_end,
                            stop <= tex0.mips@.len(),
                            ls == a.range.layer_start,
                            le == a.range.layer_end,
                            0 <= j <= drained@.len(),
                            crate::init_tracker::canonical(drained@),
                            points(drained@) == tex0.uninit(m as int).intersect(layer_span(a)),
                            forall|mm: int|
                                mm != m ==> #[trigger] region_points(regions@, mm) == region_points(rg1, mm),
                            region_points(rg1, m as int) == Set::<int>::empty(),
                            region_points(regions@, m as int) == Set::<int>::empty().union(
                                points(drained@.take(j as int)),
                            ),
                            forall|k: int|
                                0 <= k < regions@.len() ==> (#[trigger] regions@[k]).0 < tex0.mips@.len()
                                    && regions@[k].1 < regions@[k].2,
                        decreases drained@.len() - j,
                    {
                        let r = drained[j];
                        proof {
                            assert(r.0 < r.1);
                            assert(span(r).contains(r.0 as int));
                            assert(span(r).contains(r.1 - 1));
                            lemma_span_in_points(drained@, j as int, r.0 as int);
                            lemma_span_in_points(drained@, j as int, r.1 - 1);
                            lemma_points_take(drained@, j as int);
                            lemma_union_assoc(Set::<int>::empty(), points(drained@.take(j as int)), span(r));
                        }
                        let x = (m as u32, r.0 as u32, r.1 as u32);
                        let ghost rg2 = regions@;
                        proof {
                            assert(span((x.1 as u64, x.2 as u64)) == span(r));
                            assert forall|mm: int| #[trigger] region_points(rg2.push(x), mm) == if mm == m {
                                region_points(rg2, mm).union(span(r))
                            } else {
                                region_points(rg2, mm)
                            } by {
                                lemma_region_push(rg2, x, mm);
                            }
                        }
                        regions.push(x);
                        j = j + 1;
                    }
                    proof {
                        assert(drained@.take(drained@.len() as int) =~= drained@);
                        lemma_union_empty(points(drained@));
                    }
                }
                m = m + 1;
            }
            proof {
                assert forall|k: int| 0 <= k < regions@.len() implies (#[trigger] regions@[k]).0
                    < mip_count(st0, a.id as int) && regions@[k].1 < regions@[k].2 by {}
                assert(regions@.take(0) =~= Seq::<(u32, u32, u32)>::empty());
                assert forall|mm: int| #[trigger] trans_points(out@, a.id as int, mm) == trans_points(out0, a.id as int, mm).union(
                    region_points(regions@.take(0), mm),
                ) by {
                    lemma_union_empty(trans_points(out0, a.id as int, mm));
                }
            }
            let mut k: usize = 0;
            while k < regions.len()
                invariant
                    0 <= k <= regions@.len(),
                    st0.is_live(a.id as int),
                    forall|k: int|
                        0 <= k < regions@.len() ==> (#[trigger] regions@[k]).0 < mip_count(st0, a.id as int)
                            && regions@[k].1 < regions@[k].2,
                    forall|id: int, mm: int| #[trigger] fill_points(out@, id, mm) == fill_points(out0, id, mm),
                    texture_commands_ok(out@, st0),
                    forall|id: int, mm: int| id != a.id ==> #[trigger] trans_points(out@, id, mm) == trans_points(out0, id, mm),
                    forall|mm: int| #[trigger] trans_points(out@, a.id as int, mm) == trans_points(out0, a.id as int, mm).union(
                        region_points(regions@.take(k as int), mm),
                    ),
                    out@.len() == out0.len() + k,
                    forall|x: int| 0 <= x < out0.len() ==> #[trigger] out@[x] == out0[x],
                    forall|kk: int| 0 <= kk < k ==> #[trigger] out@[out0.len() + kk] == (Command::TransitionTexture { id: a.id, mip: regions@[kk].0, layer_start: regions@[kk].1, layer_end: regions@[kk].2 }),
                    fills_preceded(out@),
                    fills_preceded(out0),
                decreases regions@.len() - k,
            {
                let x = regions[k];
                let t = Command::TransitionTexture { id: a.id, mip: x.0, layer_start: x.1, layer_end: x.2 };
                let ghost o2 = out@;
                proof {
                    assert(regions@[k as int] == x);
                    lemma_texture_commands_push(o2, t, st0);
                    assert forall|id: int, mm: int| #[trigger] fill_points(o2.push(t), id, mm) == fill_points(o2, id, mm) by {
                        lemma_fill_push(o2, t, id, mm);
                    }
                    lemma_fills_preceded_push(o2, t, 0);
                    assert forall|id: int, mm: int| #[trigger] trans_points(o2.push(t), id, mm) == if id == a.id && mm == x.0 {
                        trans_points(o2, id, mm).union(span((x.1 as u64, x.2 as u64)))
                    } else {
                        trans_points(o2, id, mm)
                    } by {
                        lemma_trans_push(o2, t, id, mm);
                    }
                    assert forall|mm: int| #[trigger] trans_points(o2.push(t), a.id as int, mm) == trans_points(out0, a.id as int, mm).union(
                        region_points(regions@.take(k + 1), mm),
                    ) by {
                        lemma_region_take(regions@, k as int, mm);
                        lemma_union_assoc(
                            trans_points(out0, a.id as int, mm),
                            region_points(regions@.take(k as int), mm),
                            span((x.1 as u64, x.2 as u64)),
                        );
                    }
                }
                out.push(t);
                k = k + 1;
            }
            let ghost out_t = out@;
            proof {
                assert(regions@.take(0) =~= Seq::<(u32, u32, u32)>::empty());
                assert(regions@.take(regions@.len() as int) =~= regions@);
                assert forall|mm: int| #[trigger] fill_points(out_t, a.id as int, mm) == fill_points(out0, a.id as int, mm).union(
                    region_points(regions@.take(0), mm),
                ) by {
                    lemma_union_empty(fill_points(out0, a.id as int, mm));
                }
            }
            let mut k: usize = 0;
            while k < regions.len()
                invariant
                    0 <= k <= regions@.len(),
                    st0.is_live(a.id as int),
                    forall|k: int|
                        0 <= k < regions@.len() ==> (#[trigger] regions@[k]).0 < mip_count(st0, a.id as int)
                            && regions@[k].1 < regions@[k].2,
                    forall|id: int, mm: int| id != a.id ==> #[trigger] fill_points(out@, id, mm) == fill_points(out0, id, mm),
                    forall|mm: int| #[trigger] fill_points(out@, a.id as int, mm) == fill_points(out0, a.id as int, mm).union(
                        region_points(regions@.take(k as int), mm),
                    ),
                    texture_commands_ok(out@, st0),
                    forall|id: int, mm: int| #[trigger] trans_points(out@, id, mm) == trans_points(out_t, id, mm),
                    out_t.len() == out0.len() + regions@.len(),
                    out@.len() >= out_t.len(),
                    forall|x: int| 0 <= x < out_t.len() ==> #[trigger] out@[x] == out_t[x],
                    forall|kk: int| 0 <= kk < regions@.len() ==> #[trigger] out_t[out0.len() + kk] == (Command::TransitionTexture { id: a.id, mip: regions@[kk].0, layer_start: regions@[kk].1, layer_end: regions@[kk].2 }),
                    fills_preceded(out@),
                decreases regions@.len() - k,
            {
                let x = regions[k];
                let f = Command::ZeroFillTexture { id: a.id, mip: x.0, layer_start: x.1, layer_end: x.2 };
                let ghost o2 = out@;
                proof {
                    assert(regions@[k as int] == x);
                    lemma_texture_commands_push(o2, f, st0);
                    assert(o2[out0.len() + k] == out_t[out0.len() + k]);
                    lemma_fills_preceded_push(o2, f, out0.len() + k);
                    assert forall|id: int, mm: int| #[trigger] trans_points(o2.push(f), id, mm) == trans_points(o2, id, mm) by {
                        lemma_trans_push(o2, f, id, mm);
                    }
                    assert forall|x: int| 0 <= x < out_t.len() implies #[trigger] o2.push(f)[x] == out_t[x] by {
                        assert(o2.push(f)[x] == o2[x]);
                    }
                    assert forall|id: int, mm: int| #[trigger] fill_points(o2.push(f), id, mm) == if id == a.id && mm == x.0 {
                        fill_points(o2, id, mm).union(span((x.1 as u64, x.2 as u64)))
                    } else {
                        fill_points(o2, id, mm)
                    } by {
                        lemma_fill_push(o2, f, id, mm);
                    }
                    assert forall|mm: int| #[trigger] fill_points(o2.push(f), a.id as int, mm) == fill_points(out0, a.id as int, mm).union(
                        region_points(regions@.take(k + 1), mm),
                    ) by {
                        lemma_region_take(regions@, k as int, mm);
                        lemma_union_assoc(
                            fill_points(out0, a.id as int, mm),
                            region_points(regions@.take(k as int), mm),
                            span((x.1 as u64, x.2 as u64)),
                        );
                    }
                }
                out.push(f);
                k = k + 1;
            }
            proof {
                assert(regions@.take(regions@.len() as int) =~= regions@);
                assert forall|mm: int| 0 <= mm < tex0.mips@.len() implies #[trigger] fill_points(out@, a.id as int, mm) == if a.range.mip_start
                    <= mm < m && needs {
                    fill_points(out0, a.id as int, mm).union(tex0.uninit(mm).intersect(layer_span(a)))
                } else {
                    fill_points(out0, a.id as int, mm)
                } by {
                    assert(region_points(regions@, mm) == if a.range.mip_start <= mm < m && needs {
                        tex0.uninit(mm).intersect(layer_span(a))
                    } else {
                        Set::<int>::empty()
                    });
                    lemma_union_empty(fill_points(out0, a.id as int, mm));
                }
            }
            assert(forall|id: int, mm: int| id != a.id ==> #[trigger] fill_points(out@, id, mm) == fill_points(out0, id, mm));
            proof {
                assert forall|id: int, mm: int| #[trigger] trans_points(out@, id, mm) == fill_points(out@, id, mm) by {
                    assert(trans_points(out0, id, mm) == fill_points(out0, id, mm));
                    assert(trans_points(out@, id, mm) == trans_points(out_t, id, mm));
                }
            }
            let ghost tex_done = tex;
            let ghost out_done = out@;
            let mut back = Some(tex);
            textures.slots.set_and_swap(a.id, &mut back);
            proof {
                assert(m >= stop);
                assert(textures.tex(a.id as int) == tex_done);
                assert forall|id: int| #[trigger] textures.is_live(id) == st0.is_live(id) by {
                    assert(before.is_live(id) == st0.is_live(id));
                    if 0 <= id < textures.slots@.len() && id != a.id {
                        assert(textures.slots@[id] == before.slots@[id]);
                    }
                }
                assert forall|id: int|
                    0 <= id < textures.slots@.len() && (#[trigger] textures.slots@[id]).is_some()
                        implies textures.slots@[id].unwrap().wf() by {
                    if id != a.id {
                        assert(textures.slots@[id] == before.slots@[id]);
                    }
                }
                assert forall|id: int| st0.is_live(id) implies #[trigger] mip_count(*textures, id)
                    == mip_count(st0, id) by {
                    assert(mip_count(before, id) == mip_count(st0, id));
                    if id != a.id {
                        assert(textures.slots@[id] == before.slots@[id]);
                    }
                }
                assert forall|id: int, mm: int|
                    st0.is_live(id) && 0 <= mm < mip_count(st0, id) implies #[trigger] tex_uninit(
                    *textures,
                    id,
                    mm,
                ) == tex_uninit(st0, id, mm).difference(tex_touched(all.take(i + 1), id, mm)) by {
                    assert(tex_uninit(before, id, mm) == tex_uninit(st0, id, mm).difference(
                        tex_touched(all.take(i as int), id, mm),
                    ));
                    if id != a.id {
                        assert(textures.slots@[id] == before.slots@[id]);
                    } else {
                        assert(tex_done.uninit(mm) == if a.range.mip_start <= mm < m {
                            tex0.uninit(mm).difference(layer_span(a))
                        } else {
                            tex0.uninit(mm)
                        });
                        assert(tex_uninit(*textures, id, mm) == tex_done.uninit(mm));
                        lemma_diff_diff(
                            tex_uninit(st0, id, mm),
                            tex_touched(all.take(i as int), id, mm),
                            layer_span(a),
                        );
                    }
                }
                assert forall|id: int, mm: int|
                    st0.is_live(id) && 0 <= mm < mip_count(st0, id) implies #[trigger] fill_points(
                    out@,
                    id,
                    mm,
                ) == tex_cleared(tex_uninit(st0, id, mm), all.take(i + 1), id, mm) by {
                    assert(fill_points(out0, id, mm) == tex_cleared(
                        tex_uninit(st0, id, mm),
                        all.take(i as int),
                        id,
                        mm,
                    ));
                    assert(fill_points(out_done, id, mm) == if id == a.id && a.range.mip_start <= mm < m
                        && needs {
                        fill_points(out0, id, mm).union(tex0.uninit(mm).intersect(layer_span(a)))
                    } else {
                        fill_points(out0, id, mm)
                    });
                    if id == a.id {
                        assert(tex_uninit(before, id, mm) == tex_uninit(st0, id, mm).difference(
                            tex_touched(all.take(i as int), id, mm),
                        ));
                        assert(tex0.uninit(mm) == tex_uninit(before, id, mm));
                    }
                }
            }
            i = i + 1;
        }
        proof {
            assert(all.take(all.len() as int) =~= all);
        }
        let ghost ds = self.texture_memory_actions.discards@;
        proof {
            assert(ds.take(0) =~= Seq::<TextureSurfaceDiscard>::empty());
            assert forall|id: int, m: int|
                st0.is_live(id) && 0 <= m < mip_count(st0, id) implies #[trigger] tex_uninit(
                *textures,
                id,
                m,
            ) == tex_uninit(st0, id, m).difference(tex_touched(all, id, m)).union(
                discarded(ds.take(0), id, m),
            ) by {
                assert(tex_uninit(st0, id, m).difference(tex_touched(all, id, m)).union(Set::empty())
                    =~= tex_uninit(st0, id, m).difference(tex_touched(all, id, m)));
            }
        }
        let nd = self.texture_memory_actions.discards.len();
        let mut k: usize = 0;
        while k < nd
            invariant
                all == old(self).texture_memory_actions.init_actions@,
                ds == old(self).texture_memory_actions.discards@,
                ds == self.texture_memory_actions.discards@,
                nd == ds.len(),
                st0 == *old(textures),
                0 <= k <= nd,
                textures.wf(),
                textures.slots@.len() == st0.slots@.len(),
                forall|id: int| #[trigger] textures.is_live(id) == st0.is_live(id),
                forall|id: int|
                    st0.is_live(id) ==> #[trigger] mip_count(*textures, id) == mip_count(st0, id),
                forall|j: int| 0 <= j < all.len() ==> st0.is_live((#[trigger] all[j]).id as int),
                forall|j: int| 0 <= j < k ==> st0.is_live((#[trigger] ds[j]).texture as int),
                forall|id: int, m: int|
                    st0.is_live(id) && 0 <= m < mip_count(st0, id) ==> #[trigger] tex_uninit(
                        *textures,
                        id,
                        m,
                    ) == tex_uninit(st0, id, m).difference(tex_touched(all, id, m)).union(
                        discarded(ds.take(k as int), id, m),
                    ),
                forall|id: int, m: int|
                    st0.is_live(id) && 0 <= m < mip_count(st0, id) ==> #[trigger] fill_points(
                        out@,
                        id,
                        m,
                    ) == tex_cleared(tex_uninit(st0, id, m), all, id, m),
                texture_commands_ok(out@, st0),
                forall|id: int, m: int| #[trigger] trans_points(out@, id, m) == fill_points(out@, id, m),
                fills_preceded(out@),
                self.encoder@ == old(self).encoder@,
                self.texture_memory_actions.init_actions@.len() == 0,
                self.buffer_memory_init_actions@ == old(self).buffer_memory_init_actions@,
            decreases nd - k,
        {
            let d = self.texture_memory_actions.discards[k];
            proof {
                assert(ds.take(k + 1).drop_last() =~= ds.take(k as int));
                assert(ds.take(k + 1).last() == d);
            }
            if !textures.contains(d.texture) {
                let ghost before_append = self.encoder@;
                let ghost out_final = out@;
                self.encoder.append(&mut out);
                proof {
                    assert(!st0.is_live(ds[k as int].texture as int));
                    assert(self.encoder@.skip(before_append.len() as int) =~= out_final);
                    assert(self.encoder@.take(before_append.len() as int) =~= before_append);
                    assert(all.take(all.len() as int) =~= all);
                    assert(texture_resolved(st0, *textures, out_final, all.take(all.len() as int), ds.take(k as int)));
                }
                return Err(DestroyedTextureError(d.texture));
            }
            let ghost before = *textures;
            let mut slot: Option<Texture> = None;
            textures.slots.set_and_swap(d.texture, &mut slot);
            let mut tex = slot.unwrap();
            let ghost tex0 = tex;
            proof {
                assert(before.slots@[d.texture as int].unwrap().wf());
            }
            if (d.mip_level as usize) < tex.mips.len() {
                let mut tr = InitTracker::new(0);
                tex.mips.set_and_swap(d.mip_level as usize, &mut tr);
                proof {
                    assert(tex0.mips@[d.mip_level as int].wf());
                }
                tr.discard(d.layer as u64);
                tex.mips.set_and_swap(d.mip_level as usize, &mut tr);
                proof {
                    assert forall|mm: int| 0 <= mm < tex.mips@.len() implies (#[trigger] tex.mips@[mm]).wf() by {
                        if mm != d.mip_level {
                            assert(tex.mips@[mm] == tex0.mips@[mm]);
                        }
                    }
                    assert forall|mm: int| 0 <= mm < tex.mips@.len() && mm != d.mip_level implies #[trigger] tex.uninit(mm) == tex0.uninit(mm) by {
                        assert(tex.mips@[mm] == tex0.mips@[mm]);
                    }
                }
            }
            let mut back = Some(tex);
            textures.slots.set_and_swap(d.texture, &mut back);
            proof {
                assert forall|id: int| #[trigger] textures.is_live(id) == st0.is_live(id) by {
                    assert(before.is_live(id) == st0.is_live(id));
                    if 0 <= id < textures.slots@.len() && id != d.texture {
                        assert(textures.slots@[id] == before.slots@[id]);
                    }
                }
                assert forall|id: int|
                    0 <= id < textures.slots@.len() && (#[trigger] textures.slots@[id]).is_some()
                        implies textures.slots@[id].unwrap().wf() by {
                    if id != d.texture {
                        assert(textures.slots@[id] == before.slots@[id]);
                    }
                }
                assert forall|id: int| st0.is_live(id) implies #[trigger] mip_count(*textures, id)
                    == mip_count(st0, id) by {
                    assert(mip_count(before, id) == mip_count(st0, id));
                    if id != d.texture {
                        assert(textures.slots@[id] == before.slots@[id]);
                    }
                }
                assert forall|id: int, m: int|
                    st0.is_live(id) && 0 <= m < mip_count(st0, id) implies #[trigger] tex_uninit(
                    *textures,
                    id,
                    m,
                ) == tex_uninit(st0, id, m).difference(tex_touched(all, id, m)).union(
                    discarded(ds.take(k + 1), id, m),
                ) by {
                    assert(tex_uninit(before, id, m) == tex_uninit(st0, id, m).difference(
                        tex_touched(all, id, m),
                    ).union(discarded(ds.take(k as int), id, m)));
                    assert(mip_count(before, id) == mip_count(st0, id));
                    if id != d.texture {
                        assert(textures.slots@[id] == before.slots@[id]);
                    } else if m == d.mip_level {
                        lemma_union_insert(
                            tex_uninit(st0, id, m).difference(tex_touched(all, id, m)),
                            discarded(ds.take(k as int), id, m),
                            d.layer as int,
                        );
                    }
                }
            }
            k = k + 1;
        }
        proof {
            assert(ds.take(nd as int) =~= ds);
        }
        let ghost before_append = self.encoder@;
        let ghost out_final = out@;
        self.encoder.append(&mut out);
        proof {
            assert(self.encoder@.skip(before_append.len() as int) =~= out_final);
            assert(self.encoder@.take(before_append.len() as int) =~= before_append);
            assert(texture_resolved(st0, *textures, out_final, all, ds));
        }
        Ok(())
    }
}

} // verus!
