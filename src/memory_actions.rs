use vstd::prelude::*;
use crate::action::{MemoryInitKind, TextureInitRange, TextureInitTrackerAction, TextureSurfaceDiscard};
use crate::init_tracker::{lemma_points_empty, lemma_points_take, lemma_span_in_points, points, span};
use crate::resource::TextureStorage;

verus! {

/// The action covers the discarded surface.
pub open spec fn covers(a: TextureInitTrackerAction, d: TextureSurfaceDiscard) -> bool {
    &&& d.texture == a.id
    &&& a.range.layer_start <= d.layer < a.range.layer_end
    &&& a.range.mip_start <= d.mip_level < a.range.mip_end
}

/// The action covers layer `layer` of mip level `mip` of texture `id`.
pub open spec fn covers_subresource(a: TextureInitTrackerAction, id: int, mip: int, layer: int) -> bool {
    &&& a.id == id
    &&& a.range.mip_start <= mip < a.range.mip_end
    &&& a.range.layer_start <= layer < a.range.layer_end
}

/// The discards that the action does not cover, in order.
pub open spec fn kept(ds: Seq<TextureSurfaceDiscard>, a: TextureInitTrackerAction) -> Seq<TextureSurfaceDiscard>
    decreases ds.len(),
{
    if ds.len() == 0 {
        Seq::empty()
    } else if covers(a, ds.last()) {
        kept(ds.drop_last(), a)
    } else {
        kept(ds.drop_last(), a).push(ds.last())
    }
}

/// The discards that the action covers, in order.
pub open spec fn matched(ds: Seq<TextureSurfaceDiscard>, a: TextureInitTrackerAction) -> Seq<TextureSurfaceDiscard>
    decreases ds.len(),
{
    if ds.len() == 0 {
        Seq::empty()
    } else if covers(a, ds.last()) {
        matched(ds.drop_last(), a).push(ds.last())
    } else {
        matched(ds.drop_last(), a)
    }
}

/// The log entry that records a discarded surface as written.
pub open spec fn surface_init(d: TextureSurfaceDiscard) -> TextureInitTrackerAction {
    TextureInitTrackerAction {
        id: d.texture,
        range: TextureInitRange {
            mip_start: d.mip_level,
            mip_end: (d.mip_level + 1) as u32,
            layer_start: d.layer,
            layer_end: (d.layer + 1) as u32,
        },
        kind: MemoryInitKind::ImplicitlyInitialized,
    }
}

/// The log entries for the part of `a` that `textures` holds as
/// uninitialized: each is `a` narrowed to one mip level and to layers that
/// are all uninitialized there, and together they cover every uninitialized
/// subresource within `a`.
pub open spec fn checked_entries(
    es: Seq<TextureInitTrackerAction>,
    a: TextureInitTrackerAction,
    textures: TextureStorage,
) -> bool {
    let t = textures.tex(a.id as int);
    &&& checked_entries_sound(es, a, t)
    &&& entries_ordered(es)
    &&& forall|m: int, x: int|
        a.range.mip_start <= m < a.range.mip_end && m < t.mips@.len() && a.range.layer_start <= x
            < a.range.layer_end && #[trigger] t.uninit(m).contains(x) ==> exists|k: int|
            0 <= k < es.len() && covers_subresource(#[trigger] es[k], a.id as int, m, x)
}

/// Entries come by increasing mip level, and within one mip level by
/// increasing layers, neither overlapping nor touching: with soundness and
/// coverage, this makes them exactly the maximal uninitialized runs.
pub open spec fn entries_ordered(es: Seq<TextureInitTrackerAction>) -> bool {
    forall|i: int, j: int|
        0 <= i < j < es.len() ==> (#[trigger] es[i]).range.mip_start < (#[trigger] es[j]).range.mip_start
            || (es[i].range.mip_start == es[j].range.mip_start && es[i].range.layer_end
            < es[j].range.layer_start)
}

/// Each entry is the action narrowed to one existing mip level of its range
/// and to a non-empty run of its layers that are all uninitialized there.
pub open spec fn checked_entries_sound(
    es: Seq<TextureInitTrackerAction>,
    a: TextureInitTrackerAction,
    t: crate::resource::Texture,
) -> bool {
    forall|k: int|
        0 <= k < es.len() ==> {
            let e = #[trigger] es[k];
            &&& e.id == a.id
            &&& e.kind == a.kind
            &&& a.range.mip_start <= e.range.mip_start
            &&& e.range.mip_end == e.range.mip_start + 1
            &&& e.range.mip_start < a.range.mip_end
            &&& e.range.mip_start < t.mips@.len()
            &&& a.range.layer_start <= e.range.layer_start < e.range.layer_end <= a.range.layer_end
            &&& forall|x: int|
                e.range.layer_start <= x < e.range.layer_end ==> #[trigger] t.uninit(
                    e.range.mip_start as int,
                ).contains(x)
        }
}

/// What one command sequence recorded about its texture accesses.
pub struct CommandBufferTextureMemoryActions {
    /// Accesses to resolve before the sequence runs, in recording order.
    pub init_actions: Vec<TextureInitTrackerAction>,
    /// Surfaces discarded by the sequence and not written again since: they
    /// are uninitialized once the sequence has run.
    pub discards: Vec<TextureSurfaceDiscard>,
}

impl CommandBufferTextureMemoryActions {
    pub fn new() -> (r: Self)
        ensures
            r.init_actions@.len() == 0,
            r.discards@.len() == 0,
    {
        CommandBufferTextureMemoryActions { init_actions: Vec::new(), discards: Vec::new() }
    }

    /// Takes all logged accesses out, in order.
    pub fn drain_init_actions(&mut self) -> (r: Vec<TextureInitTrackerAction>)
        ensures
            r@ == old(self).init_actions@,
            final(self).init_actions@.len() == 0,
            final(self).discards@ == old(self).discards@,
    {
        let mut taken: Vec<TextureInitTrackerAction> = Vec::new();
        std::mem::swap(&mut taken, &mut self.init_actions);
        taken
    }

    /// Records that a surface was discarded.
    pub fn discard(&mut self, discard: TextureSurfaceDiscard)
        ensures
            final(self).discards@ == old(self).discards@.push(discard),
            final(self).init_actions@ == old(self).init_actions@,
    {
        self.discards.push(discard);
    }

    /// The log entries for the uninitialized part of `action`, on a live
    /// texture.
    fn check_action(action: &TextureInitTrackerAction, textures: &TextureStorage) -> (r: Vec<
        TextureInitTrackerAction,
    >)
        requires
            textures.wf(),
            textures.is_live(action.id as int),
        ensures
            checked_entries(r@, *action, *textures),
    {
        let ghost t = textures.tex(action.id as int);
        let tex = textures.slots[action.id].as_ref().unwrap();
        let mut checked: Vec<TextureInitTrackerAction> = Vec::new();
        let ls = action.range.layer_start;
        let le = action.range.layer_end;
        let stop: usize = if (action.range.mip_end as usize) < tex.mips.len() {
            action.range.mip_end as usize
        } else {
            tex.mips.len()
        };
        let mut m: usize = action.range.mip_start as usize;
        while m < stop
            invariant
                *tex == t,
                t.wf(),
                stop <= t.mips@.len(),
                stop <= action.range.mip_end,
                action.range.mip_start <= m,
                ls == action.range.layer_start,
                le == action.range.layer_end,
                t == textures.tex(action.id as int),
                checked_entries_sound(checked@, *action, t),
                entries_ordered(checked@),
                forall|k: int| 0 <= k < checked@.len() ==> (#[trigger] checked@[k]).range.mip_start < m,
                forall|mm: int, x: int|
                    action.range.mip_start <= mm < m && mm < t.mips@.len() && ls <= x < le
                        && #[trigger] t.uninit(mm).contains(x) ==> exists|k: int|
                        0 <= k < checked@.len() && covers_subresource(
                            #[trigger] checked@[k],
                            action.id as int,
                            mm,
                            x,
                        ),
            decreases stop - m,
        {
            proof {
                assert(t.mips@[m as int].wf());
            }
            let ranges = tex.mips[m].check(ls as u64, le as u64);
            let ghost c0 = checked@;
            proof {
                lemma_points_empty();
                assert(ranges@.take(0) =~= Seq::<(u64, u64)>::empty());
            }
            let mut j: usize = 0;
            while j < ranges.len()
                invariant
                    *tex == t,
                    t.wf(),
                    m < stop,
                    stop <= t.mips@.len(),
                    stop <= action.range.mip_end,
                    action.range.mip_start <= m,
                    ls == action.range.layer_start,
                    le == action.range.layer_end,
                    0 <= j <= ranges@.len(),
                    points(ranges@) == t.uninit(m as int).intersect(span((ls as u64, le as u64))),
                    crate::init_tracker::canonical(ranges@),
                    c0.len() <= checked@.len(),
                    forall|k: int| 0 <= k < c0.len() ==> checked@[k] == c0[k],
                    checked_entries_sound(checked@, *action, t),
                    entries_ordered(checked@),
                    forall|k: int|
                        0 <= k < checked@.len() ==> (#[trigger] checked@[k]).range.mip_start < m || (
                        checked@[k].range.mip_start == m && (j < ranges@.len()
                            ==> checked@[k].range.layer_end < ranges@[j as int].0)),
                    forall|x: int|
                        #[trigger] points(ranges@.take(j as int)).contains(x) ==> exists|k: int|
                            0 <= k < checked@.len() && covers_subresource(
                                #[trigger] checked@[k],
                                action.id as int,
                                m as int,
                                x,
                            ),
                decreases ranges@.len() - j,
            {
                let r = ranges[j];
                proof {
                    assert(r.0 < r.1);
                    assert(span(r).contains(r.0 as int));
                    assert(span(r).contains(r.1 - 1));
                    lemma_span_in_points(ranges@, j as int, r.0 as int);
                    lemma_span_in_points(ranges@, j as int, r.1 - 1);
                    assert forall|x: int| r.0 <= x < r.1 implies #[trigger] t.uninit(
                        m as int,
                    ).contains(x) by {
                        assert(span(r).contains(x));
                        lemma_span_in_points(ranges@, j as int, x);
                    }
                    lemma_points_take(ranges@, j as int);
                }
                let e = TextureInitTrackerAction {
                    id: action.id,
                    range: TextureInitRange {
                        mip_start: m as u32,
                        mip_end: (m + 1) as u32,
                        layer_start: r.0 as u32,
                        layer_end: r.1 as u32,
                    },
                    kind: action.kind,
                };
                let ghost c1 = checked@;
                checked.push(e);
                proof {
                    if j + 1 < ranges@.len() {
                        assert(ranges@[j as int].1 < ranges@[j + 1].0);
                    }
                    assert forall|i: int, k: int| 0 <= i < k < checked@.len() implies (#[trigger] checked@[i]).range.mip_start < (#[trigger] checked@[k]).range.mip_start
                        || (checked@[i].range.mip_start == checked@[k].range.mip_start && checked@[i].range.layer_end
                        < checked@[k].range.layer_start) by {
                        assert(checked@[i] == c1[i]);
                        if k < c1.len() {
                            assert(checked@[k] == c1[k]);
                        }
                    }
                    assert forall|k: int|
                        0 <= k < checked@.len() implies (#[trigger] checked@[k]).range.mip_start < m || (
                        checked@[k].range.mip_start == m && (j + 1 < ranges@.len()
                            ==> checked@[k].range.layer_end < ranges@[j + 1].0)) by {
                        if k < c1.len() {
                            assert(checked@[k] == c1[k]);
                        }
                    }
                    assert(checked@[c1.len() as int] == e);
                    assert forall|x: int|
                        #[trigger] points(ranges@.take(j + 1)).contains(x) implies exists|k: int|
                        0 <= k < checked@.len() && covers_subresource(
                            #[trigger] checked@[k],
                            action.id as int,
                            m as int,
                            x,
                        ) by {
                        if points(ranges@.take(j as int)).contains(x) {
                            let k = choose|k: int|
                                0 <= k < c1.len() && covers_subresource(
                                    #[trigger] c1[k],
                                    action.id as int,
                                    m as int,
                                    x,
                                );
                            assert(checked@[k] == c1[k]);
                        } else {
                            assert(covers_subresource(checked@[c1.len() as int], action.id as int, m as int, x));
                        }
                    }
                }
                j = j + 1;
            }
            proof {
                assert(ranges@.take(ranges@.len() as int) =~= ranges@);
                assert forall|mm: int, x: int|
                    action.range.mip_start <= mm < m + 1 && mm < t.mips@.len() && ls <= x < le
                        && #[trigger] t.uninit(mm).contains(x) implies exists|k: int|
                        0 <= k < checked@.len() && covers_subresource(
                            #[trigger] checked@[k],
                            action.id as int,
                            mm,
                            x,
                        ) by {
                    if mm < m {
                        let k = choose|k: int|
                            0 <= k < c0.len() && covers_subresource(
                                #[trigger] c0[k],
                                action.id as int,
                                mm,
                                x,
                            );
                        assert(checked@[k] == c0[k]);
                    } else {
                        assert(span((ls as u64, le as u64)).contains(x));
                        assert(points(ranges@).contains(x));
                    }
                }
            }
            m = m + 1;
        }
        checked
    }

    /// Logs an access to a texture and settles it against the pending
    /// discards. Returns the discarded surfaces that must be zero-filled
    /// right away, before the rest of the sequence runs: those the access
    /// reads. Every covered discard leaves the pending list; for one that is
    /// read, the log also records the surface as written, since it is
    /// cleared on the spot. A destroyed texture changes nothing.
    pub fn register_init_action(
        &mut self,
        action: &TextureInitTrackerAction,
        textures: &TextureStorage,
    ) -> (r: Vec<TextureSurfaceDiscard>)
        requires
            textures.wf(),
        ensures
            !textures.is_live(action.id as int) ==> r@.len() == 0 && final(self).init_actions@ == old(self).init_actions@ && final(self).discards@ == old(self).discards@,
            textures.is_live(action.id as int) ==> {
                &&& final(self).discards@ == kept(old(self).discards@, *action)
                &&& r@ == (if action.kind == MemoryInitKind::NeedsInitializedMemory {
                    matched(old(self).discards@, *action)
                } else {
                    Seq::empty()
                })
                &&& exists|checked: Seq<TextureInitTrackerAction>|
                    #[trigger] checked_entries(checked, *action, *textures) && final(self).init_actions@ == old(self).init_actions@ + checked + r@.map_values(
                        |d: TextureSurfaceDiscard| surface_init(d),
                    )
            },
            action.kind == MemoryInitKind::ImplicitlyInitialized ==> r@.len() == 0,
    {
        let mut immediately_necessary_clears: Vec<TextureSurfaceDiscard> = Vec::new();
        if !textures.contains(action.id) {
            return immediately_necessary_clears;
        }
        let mut checked = Self::check_action(action, textures);
        let ghost checked_v = checked@;
        let ghost ds = self.discards@;
        let mut synthetic: Vec<TextureInitTrackerAction> = Vec::new();
        let mut remaining: Vec<TextureSurfaceDiscard> = Vec::new();
        let needs = action.kind == MemoryInitKind::NeedsInitializedMemory;
        let n = self.discards.len();
        let mut i: usize = 0;
        while i < n
            invariant
                0 <= i <= n,
                n == ds.len(),
                ds == self.discards@,
                needs == (action.kind == MemoryInitKind::NeedsInitializedMemory),
                remaining@ == kept(ds.take(i as int), *action),
                immediately_necessary_clears@ == if needs {
                    matched(ds.take(i as int), *action)
                } else {
                    Seq::empty()
                },
                synthetic@ == immediately_necessary_clears@.map_values(
                    |d: TextureSurfaceDiscard| surface_init(d),
                ),
            decreases n - i,
        {
            let d = self.discards[i];
            proof {
                assert(ds.take(i + 1).drop_last() =~= ds.take(i as int));
                assert(ds.take(i + 1).last() == d);
            }
            if d.texture == action.id && action.range.layer_start <= d.layer && d.layer
                < action.range.layer_end && action.range.mip_start <= d.mip_level && d.mip_level
                < action.range.mip_end {
                if needs {
                    let ghost im0 = immediately_necessary_clears@;
                    immediately_necessary_clears.push(d);
                    synthetic.push(
                        TextureInitTrackerAction {
                            id: d.texture,
                            range: TextureInitRange {
                                mip_start: d.mip_level,
                                mip_end: d.mip_level + 1,
                                layer_start: d.layer,
                                layer_end: d.layer + 1,
                            },
                            kind: MemoryInitKind::ImplicitlyInitialized,
                        },
                    );
                    proof {
                        assert(im0.push(d).map_values(|d: TextureSurfaceDiscard| surface_init(d))
                            =~= im0.map_values(|d: TextureSurfaceDiscard| surface_init(d)).push(
                            surface_init(d),
                        ));
                    }
                }
            } else {
                remaining.push(d);
            }
            i = i + 1;
        }
        proof {
            assert(ds.take(n as int) =~= ds);
        }
        self.discards = remaining;
        let ghost before = self.init_actions@;
        self.init_actions.append(&mut checked);
        self.init_actions.append(&mut synthetic);
        proof {
            assert(self.init_actions@ =~= before + checked_v + immediately_necessary_clears@.map_values(
                |d: TextureSurfaceDiscard| surface_init(d),
            ));
            assert(checked_entries(checked_v, *action, *textures));
        }
        immediately_necessary_clears
    }

    /// Logs an access that overwrites its whole range. Such an access never
    /// needs a discarded surface zero-filled first.
    pub fn register_implicit_init(
        &mut self,
        id: usize,
        range: TextureInitRange,
        textures: &TextureStorage,
    )
        requires
            textures.wf(),
        ensures
            ({
                let action = TextureInitTrackerAction {
                    id,
                    range,
                    kind: MemoryInitKind::ImplicitlyInitialized,
                };
                &&& !textures.is_live(id as int) ==> final(self).init_actions@ == old(self).init_actions@ && final(self).discards@ == old(self).discards@
                &&& textures.is_live(id as int) ==> {
                    &&& final(self).discards@ == kept(old(self).discards@, action)
                    &&& exists|checked: Seq<TextureInitTrackerAction>|
                        #[trigger] checked_entries(checked, action, *textures) && final(self).init_actions@ == old(self).init_actions@ + checked
                }
            }),
    {
        let action = TextureInitTrackerAction {
            id,
            range,
            kind: MemoryInitKind::ImplicitlyInitialized,
        };
        let must_be_empty = self.register_init_action(&action, textures);
        proof {
            if textures.is_live(id as int) {
                let checked = choose|checked: Seq<TextureInitTrackerAction>|
                    #[trigger] checked_entries(checked, action, *textures) && self.init_actions@
                        == old(self).init_actions@ + checked + must_be_empty@.map_values(
                        |d: TextureSurfaceDiscard| surface_init(d),
                    );
                assert(must_be_empty@.map_values(|d: TextureSurfaceDiscard| surface_init(d))
                    =~= Seq::<TextureInitTrackerAction>::empty());
                assert(self.init_actions@ =~= old(self).init_actions@ + checked);
            }
        }
    }
}

} // verus!
