use vstd::prelude::*;
use vstd::set::{axiom_set_difference, axiom_set_union};
use crate::action::{BufferInitTrackerAction, Command, DestroyedBufferError, MemoryInitKind};
use crate::init_tracker::{aligned4, canonical, lemma_points_empty, lemma_points_take, points, span, InitTracker};
use crate::memory_actions::CommandBufferTextureMemoryActions;
use crate::resource::BufferStorage;

verus! {

/// `e` rounded up to a multiple of four.
pub open spec fn align_up(e: u64) -> u64 {
    if e % 4 == 0 {
        e
    } else {
        (e + 4 - e % 4) as u64
    }
}

/// `s` rounded down to a multiple of four.
pub open spec fn align_down(s: u64) -> u64 {
    (s - s % 4) as u64
}

/// Rounds the end of a buffer range up to the clear granularity.
pub fn align_end(e: u64) -> (r: u64)
    requires
        e <= u64::MAX - 3,
    ensures
        r == align_up(e),
        r % 4 == 0,
        e <= r < e + 4,
{
    let rem = e % crate::resource::COPY_BUFFER_ALIGNMENT;
    if rem == 0 {
        e
    } else {
        e + crate::resource::COPY_BUFFER_ALIGNMENT - rem
    }
}

/// Rounds the start of a buffer range down to the clear granularity.
pub fn align_start(s: u64) -> (r: u64)
    ensures
        r == align_down(s),
        r % 4 == 0,
        r <= s < r + 4,
{
    s - s % crate::resource::COPY_BUFFER_ALIGNMENT
}

/// The start of the bytes an access settles: a read is widened down to the
/// clear granularity, since its clear fills whole units; an overwrite
/// settles only from where it starts writing.
pub open spec fn settled_start(a: BufferInitTrackerAction) -> u64 {
    if a.kind == MemoryInitKind::NeedsInitializedMemory {
        align_down(a.start)
    } else {
        a.start
    }
}

/// The bytes an access settles: from `settled_start` to its end rounded up
/// to the clear granularity.
pub open spec fn buffer_span(a: BufferInitTrackerAction) -> Set<int> {
    span((settled_start(a), align_up(a.end)))
}

/// What the batch may hold: ends leave room to round up, and overwrites
/// start on the clear granularity.
pub open spec fn buffer_action_ok(a: BufferInitTrackerAction) -> bool {
    &&& a.end <= u64::MAX - 3
    &&& a.kind == MemoryInitKind::ImplicitlyInitialized ==> a.start % 4 == 0
}

/// Bytes of buffer `id` that the actions touch.
pub open spec fn touched(acts: Seq<BufferInitTrackerAction>, id: int) -> Set<int>
    decreases acts.len(),
{
    if acts.len() == 0 {
        Set::empty()
    } else if acts.last().id == id {
        touched(acts.drop_last(), id).union(buffer_span(acts.last()))
    } else {
        touched(acts.drop_last(), id)
    }
}

/// Bytes of buffer `id` that resolving the actions in order must clear, when
/// `init` is the set of its uninitialized bytes beforehand: each read clears
/// what is still uninitialized after the accesses before it.
pub open spec fn cleared(init: Set<int>, acts: Seq<BufferInitTrackerAction>, id: int) -> Set<int>
    decreases acts.len(),
{
    if acts.len() == 0 {
        Set::empty()
    } else if acts.last().id == id && acts.last().kind == MemoryInitKind::NeedsInitializedMemory {
        cleared(init, acts.drop_last(), id).union(
            init.difference(touched(acts.drop_last(), id)).intersect(buffer_span(acts.last())),
        )
    } else {
        cleared(init, acts.drop_last(), id)
    }
}

/// The bytes that the clear commands for buffer `id` fill.
pub open spec fn clear_points(cmds: Seq<Command>, id: int) -> Set<int>
    decreases cmds.len(),
{
    if cmds.len() == 0 {
        Set::empty()
    } else {
        match cmds.last() {
            Command::ClearBuffer { id: b, start, end } => if b == id {
                clear_points(cmds.drop_last(), id).union(span((start, end)))
            } else {
                clear_points(cmds.drop_last(), id)
            },
            _ => clear_points(cmds.drop_last(), id),
        }
    }
}

/// Every command is a buffer transition or a clear of a live buffer; every
/// clear is non-empty with both ends aligned to four bytes; and the clears of
/// one buffer come in increasing order without overlapping or touching.
pub open spec fn buffer_commands_ok(cmds: Seq<Command>, st: BufferStorage) -> bool {
    &&& forall|k: int|
        0 <= k < cmds.len() ==> match #[trigger] cmds[k] {
            Command::TransitionBuffer { id } => st.is_live(id as int),
            Command::ClearBuffer { id, start, end } => st.is_live(id as int) && start < end && start
                % 4 == 0 && end % 4 == 0,
            _ => false,
        }
    &&& forall|i: int, j: int|
        0 <= i < j < cmds.len() && (#[trigger] clear_range(cmds[i])).is_some() && (
        #[trigger] clear_range(cmds[j])).is_some() && clear_range(cmds[i]).unwrap().0
            == clear_range(cmds[j]).unwrap().0 ==> clear_range(cmds[i]).unwrap().2 < clear_range(
            cmds[j],
        ).unwrap().1
}

/// The buffer of a transition command.
pub open spec fn transition_id(c: Command) -> Option<usize> {
    match c {
        Command::TransitionBuffer { id } => Some(id),
        _ => None,
    }
}

/// Each buffer gets at most one transition; a transition is directly
/// followed by a clear of its buffer; and every clear comes after the
/// transition of its buffer.
pub open spec fn buffer_transitions_ok(cmds: Seq<Command>) -> bool {
    &&& forall|i: int, j: int|
        0 <= i < j < cmds.len() && (#[trigger] transition_id(cmds[i])).is_some() && (
        #[trigger] transition_id(cmds[j])).is_some() ==> transition_id(cmds[i]) != transition_id(
            cmds[j],
        )
    &&& forall|i: int|
        0 <= i < cmds.len() && (#[trigger] transition_id(cmds[i])).is_some() ==> i + 1 < cmds.len()
            && clear_range(cmds[i + 1]).is_some() && clear_range(cmds[i + 1]).unwrap().0
            == transition_id(cmds[i]).unwrap()
    &&& forall|j: int|
        0 <= j < cmds.len() && (#[trigger] clear_range(cmds[j])).is_some() ==> exists|i: int|
            0 <= i < j && cmds[i] == Command::TransitionBuffer { id: clear_range(cmds[j]).unwrap().0 }
}

/// `buffer_transitions_ok`, except that the transition at `p` may still
/// wait for its first clear when `open` holds.
pub open spec fn buffer_transitions_ok_but_last(cmds: Seq<Command>, p: int, open: bool) -> bool {
    &&& forall|i: int, j: int|
        0 <= i < j < cmds.len() && (#[trigger] transition_id(cmds[i])).is_some() && (
        #[trigger] transition_id(cmds[j])).is_some() ==> transition_id(cmds[i]) != transition_id(
            cmds[j],
        )
    &&& forall|i: int|
        0 <= i < cmds.len() && (#[trigger] transition_id(cmds[i])).is_some() ==> (i == p && open) || (
        i + 1 < cmds.len() && clear_range(cmds[i + 1]).is_some() && clear_range(cmds[i + 1]).unwrap().0
            == transition_id(cmds[i]).unwrap())
    &&& forall|j: int|
        0 <= j < cmds.len() && (#[trigger] clear_range(cmds[j])).is_some() ==> exists|i: int|
            0 <= i < j && cmds[i] == Command::TransitionBuffer { id: clear_range(cmds[j]).unwrap().0 }
}

/// The buffer and byte range of a clear command.
pub open spec fn clear_range(c: Command) -> Option<(usize, u64, u64)> {
    match c {
        Command::ClearBuffer { id, start, end } => Some((id, start, end)),
        _ => None,
    }
}

proof fn lemma_commands_push(cmds: Seq<Command>, c: Command, st: BufferStorage)
    requires
        buffer_commands_ok(cmds, st),
        match c {
            Command::TransitionBuffer { id } => st.is_live(id as int),
            Command::ClearBuffer { id, start, end } => st.is_live(id as int) && start < end && start
                % 4 == 0 && end % 4 == 0,
            _ => false,
        },
        clear_range(c).is_some() ==> forall|k: int|
            0 <= k < cmds.len() && (#[trigger] clear_range(cmds[k])).is_some() && clear_range(
                cmds[k],
            ).unwrap().0 == clear_range(c).unwrap().0 ==> clear_range(cmds[k]).unwrap().2
                < clear_range(c).unwrap().1,
    ensures
        buffer_commands_ok(cmds.push(c), st),
{
    let t = cmds.push(c);
    assert forall|k: int| 0 <= k < t.len() implies match #[trigger] t[k] {
        Command::TransitionBuffer { id } => st.is_live(id as int),
        Command::ClearBuffer { id, start, end } => st.is_live(id as int) && start < end && start % 4
            == 0 && end % 4 == 0,
        _ => false,
    } by {
        if k < cmds.len() {
            assert(t[k] == cmds[k]);
        }
    }
    assert forall|i: int, j: int|
        0 <= i < j < t.len() && (#[trigger] clear_range(t[i])).is_some() && (#[trigger] clear_range(
            t[j],
        )).is_some() && clear_range(t[i]).unwrap().0 == clear_range(t[j]).unwrap().0 implies clear_range(
        t[i],
    ).unwrap().2 < clear_range(t[j]).unwrap().1 by {
        assert(t[i] == cmds[i]);
        if j < cmds.len() {
            assert(t[j] == cmds[j]);
        }
    }
}

proof fn lemma_clear_points_push(cmds: Seq<Command>, c: Command, id: int)
    ensures
        clear_points(cmds.push(c), id) == match c {
            Command::ClearBuffer { id: b, start, end } => if b == id {
                clear_points(cmds, id).union(span((start, end)))
            } else {
                clear_points(cmds, id)
            },
            _ => clear_points(cmds, id),
        },
{
    assert(cmds.push(c).drop_last() =~= cmds);
}

pub proof fn lemma_diff_diff(a: Set<int>, b: Set<int>, c: Set<int>)
    ensures
        a.difference(b).difference(c) == a.difference(b.union(c)),
{
    assert forall|x: int| #[trigger] a.difference(b).difference(c).contains(x) == a.difference(
        b.union(c),
    ).contains(x) by {
        axiom_set_difference(a, b, x);
        axiom_set_difference(a.difference(b), c, x);
        axiom_set_difference(a, b.union(c), x);
        axiom_set_union(b, c, x);
    }
    assert(a.difference(b).difference(c) =~= a.difference(b.union(c)));
}

pub proof fn lemma_union_assoc(a: Set<int>, b: Set<int>, c: Set<int>)
    ensures
        a.union(b).union(c) == a.union(b.union(c)),
{
    assert forall|x: int| #[trigger] a.union(b).union(c).contains(x) == a.union(b.union(c)).contains(
        x,
    ) by {
        axiom_set_union(a, b, x);
        axiom_set_union(a.union(b), c, x);
        axiom_set_union(b, c, x);
        axiom_set_union(a, b.union(c), x);
    }
    assert(a.union(b).union(c) =~= a.union(b.union(c)));
}

pub proof fn lemma_union_empty(a: Set<int>)
    ensures
        a.union(Set::empty()) == a,
        Set::<int>::empty().union(a) == a,
{
    assert(a.union(Set::empty()) =~= a);
    assert(Set::<int>::empty().union(a) =~= a);
}

/// Everything one submission resolves before its command sequences run.
pub struct BakedCommands {
    /// Commands emitted ahead of the recorded ones.
    pub encoder: Vec<Command>,
    pub buffer_memory_init_actions: Vec<BufferInitTrackerAction>,
    pub texture_memory_actions: CommandBufferTextureMemoryActions,
}

impl BakedCommands {
    /// Resolves the buffer accesses of the batch in recording order: marks
    /// the bytes they touch as initialized, and emits, per buffer that needs
    /// it, one transition and then one clear for each maximal run of bytes
    /// that a read found uninitialized. A read settles from its start rounded
    /// down to four bytes, an overwrite from its own start; both settle up to
    /// their end rounded up. A destroyed buffer fails the resolution; what
    /// was drained before it stays drained, and no command is emitted.
    #[verifier::rlimit(60)]
    pub fn initialize_buffer_memory(&mut self, buffers: &mut BufferStorage) -> (r: Result<
        (),
        DestroyedBufferError,
    >)
        requires
            old(buffers).wf(),
            forall|k: int|
                0 <= k < old(self).buffer_memory_init_actions@.len() ==> buffer_action_ok(
                    #[trigger] old(self).buffer_memory_init_actions@[k],
                ),
        ensures
            final(buffers).wf(),
            final(buffers).slots@.len() == old(buffers).slots@.len(),
            forall|id: int| #[trigger] final(buffers).is_live(id) == old(buffers).is_live(id),
            final(self).buffer_memory_init_actions@.len() == 0,
            final(self).texture_memory_actions == old(self).texture_memory_actions,
            r.is_err() <==> exists|k: int|
                0 <= k < old(self).buffer_memory_init_actions@.len() && !old(buffers).is_live(
                    (#[trigger] old(self).buffer_memory_init_actions@[k]).id as int,
                ),
            r matches Err(e) ==> exists|k: int|
                0 <= k < old(self).buffer_memory_init_actions@.len() && e.0 == (#[trigger] old(self).buffer_memory_init_actions@[k]).id && !old(buffers).is_live(e.0 as int) && forall|
                    j: int,
                | 0 <= j < k ==> old(buffers).is_live(
                    (#[trigger] old(self).buffer_memory_init_actions@[j]).id as int,
                ) && forall|id: int|
                    old(buffers).is_live(id) ==> #[trigger] final(buffers).uninit(id) == old(buffers).uninit(id).difference(
                        touched(old(self).buffer_memory_init_actions@.take(k), id),
                    ),
            r.is_err() ==> final(self).encoder@ == old(self).encoder@,
            r.is_ok() ==> {
                let acts = old(self).buffer_memory_init_actions@;
                let cmds = final(self).encoder@.skip(old(self).encoder@.len() as int);
                &&& final(self).encoder@.len() >= old(self).encoder@.len()
                &&& final(self).encoder@.take(old(self).encoder@.len() as int) == old(self).encoder@
                &&& buffer_commands_ok(cmds, *old(buffers))
                &&& buffer_transitions_ok(cmds)
                &&& forall|id: int|
                    old(buffers).is_live(id) ==> #[trigger] final(buffers).uninit(id) == old(buffers).uninit(id).difference(touched(acts, id))
                &&& forall|id: int|
                    old(buffers).is_live(id) ==> #[trigger] clear_points(cmds, id) == cleared(
                        old(buffers).uninit(id),
                        acts,
                        id,
                    )
            },
    {
        let ghost st0 = *buffers;
        let mut acts: Vec<BufferInitTrackerAction> = Vec::new();
        std::mem::swap(&mut acts, &mut self.buffer_memory_init_actions);
        let n = buffers.slots.len();
        let mut acc: Vec<InitTracker> = Vec::new();
        let mut b: usize = 0;
        while b < n
            invariant
                b <= n,
                acc@.len() == b,
                st0 == *old(buffers),
                st0 == *buffers,
                forall|id: int| 0 <= id < b ==> (#[trigger] acc@[id]).wf() && acc@[id].is_aligned()
                    && acc@[id].uninit() == Set::<int>::empty(),
            decreases n - b,
        {
            acc.push(InitTracker::new(0));
            proof {
                assert(span((0, 0)) =~= Set::<int>::empty());
            }
            b = b + 1;
        }
        let ghost all = acts@;
        let mut i: usize = 0;
        while i < acts.len()
            invariant
                all == acts@,
                all == old(self).buffer_memory_init_actions@,
                st0 == *old(buffers),
                0 <= i <= acts.len(),
                n == buffers.slots@.len(),
                n == st0.slots@.len(),
                acc@.len() == n,
                buffers.wf(),
                st0.wf(),
                forall|k: int| 0 <= k < all.len() ==> buffer_action_ok(#[trigger] all[k]),
                forall|j: int| 0 <= j < i ==> st0.is_live((#[trigger] all[j]).id as int),
                forall|id: int| #[trigger] buffers.is_live(id) == st0.is_live(id),
                forall|id: int|
                    st0.is_live(id) ==> #[trigger] buffers.uninit(id) == st0.uninit(id).difference(
                        touched(all.take(i as int), id),
                    ),
                forall|id: int|
                    0 <= id < n ==> (#[trigger] acc@[id]).wf() && acc@[id].is_aligned()
                        && acc@[id].uninit() == cleared(st0.uninit(id), all.take(i as int), id),
                self.encoder@ == old(self).encoder@,
                self.buffer_memory_init_actions@.len() == 0,
                self.texture_memory_actions == old(self).texture_memory_actions,
            decreases all.len() - i,
        {
            let a = acts[i];
            proof {
                assert(all.take(i + 1).drop_last() =~= all.take(i as int));
            }
            if !buffers.contains(a.id) {
                assert(!st0.is_live(all[i as int].id as int));
                return Err(DestroyedBufferError(a.id));
            }
            proof {
                assert(buffer_action_ok(all[i as int]));
            }
            let start = if a.kind == MemoryInitKind::NeedsInitializedMemory {
                align_start(a.start)
            } else {
                a.start
            };
            let end = align_end(a.end);
            let ghost before = *buffers;
            let mut slot: Option<crate::resource::Buffer> = None;
            buffers.slots.set_and_swap(a.id, &mut slot);
            let mut buf = slot.unwrap();
            proof {
                assert(before.slots@[a.id as int].unwrap().wf());
            }
            let drained = buf.initialization_status.drain(start, end);
            let mut back = Some(buf);
            buffers.slots.set_and_swap(a.id, &mut back);
            proof {
                let sp = span((start, end));
                lemma_diff_diff(st0.uninit(a.id as int), touched(all.take(i as int), a.id as int), sp);
                assert(all.take(i + 1).last() == a);
                assert(before.uninit(a.id as int) == st0.uninit(a.id as int).difference(
                    touched(all.take(i as int), a.id as int),
                ));
                assert forall|id: int| #[trigger] buffers.is_live(id) == st0.is_live(id) by {
                    assert(before.is_live(id) == st0.is_live(id));
                    if 0 <= id < n && id != a.id {
                        assert(buffers.slots@[id] == before.slots@[id]);
                    }
                }
                assert forall|id: int| st0.is_live(id) implies #[trigger] buffers.uninit(id)
                    == st0.uninit(id).difference(touched(all.take(i + 1), id)) by {
                    assert(before.is_live(id) == st0.is_live(id));
                    if id != a.id {
                        assert(before.uninit(id) == st0.uninit(id).difference(
                            touched(all.take(i as int), id),
                        ));
                        assert(buffers.slots@[id] == before.slots@[id]);
                    }
                }
                assert forall|id: int|
                    0 <= id < buffers.slots@.len() && (#[trigger] buffers.slots@[id]).is_some()
                        implies buffers.slots@[id].unwrap().wf() by {
                    if id != a.id {
                        assert(buffers.slots@[id] == before.slots@[id]);
                    }
                }
            }
            if a.kind == MemoryInitKind::NeedsInitializedMemory {
                let ghost acc0 = acc@;
                let mut tr = InitTracker::new(0);
                acc.set_and_swap(a.id, &mut tr);
                let ghost base = tr.uninit();
                proof {
                    lemma_points_empty();
                    assert(drained@.take(0) =~= Seq::<(u64, u64)>::empty());
                    lemma_union_empty(base);
                }
                let mut j: usize = 0;
                while j < drained.len()
                    invariant
                        0 <= j <= drained.len(),
                        canonical(drained@),
                        aligned4(drained@),
                        tr.wf(),
                        tr.is_aligned(),
                        tr.uninit() == base.union(points(drained@.take(j as int))),
                    decreases drained.len() - j,
                {
                    let r = drained[j];
                    proof {
                        assert(r.0 < r.1);
                        assert(r.0 % 4 == 0 && r.1 % 4 == 0);
                        lemma_points_take(drained@, j as int);
                        lemma_union_assoc(base, points(drained@.take(j as int)), span(r));
                    }
                    tr.insert_range(r.0, r.1);
                    j = j + 1;
                }
                proof {
                    assert(drained@.take(drained@.len() as int) =~= drained@);
                }
                acc.set_and_swap(a.id, &mut tr);
                proof {
                    assert forall|id: int| 0 <= id < n implies (#[trigger] acc@[id]).wf()
                        && acc@[id].is_aligned() && acc@[id].uninit() == cleared(
                        st0.uninit(id),
                        all.take(i + 1),
                        id,
                    ) by {
                        if id != a.id {
                            assert(acc@[id] == acc0[id]);
                        }
                    }
                }
            } else {
                proof {
                    assert forall|id: int| 0 <= id < n implies (#[trigger] acc@[id]).wf()
                        && acc@[id].is_aligned() && acc@[id].uninit() == cleared(
                        st0.uninit(id),
                        all.take(i + 1),
                        id,
                    ) by {}
                }
            }
            i = i + 1;
        }
        proof {
            assert(all.take(all.len() as int) =~= all);
            assert(all == old(self).buffer_memory_init_actions@);
        }
        let mut out: Vec<Command> = Vec::new();
        proof {
            assert forall|x: int| st0.is_live(x) implies #[trigger] clear_points(out@, x)
                == Set::<int>::empty() by {}
        }
        let mut id: usize = 0;
        while id < n
            invariant
                id <= n,
                st0 == *old(buffers),
                buffers.wf(),
                buffers.slots@.len() == n,
                forall|x: int| #[trigger] buffers.is_live(x) == st0.is_live(x),
                forall|x: int|
                    st0.is_live(x) ==> #[trigger] buffers.uninit(x) == st0.uninit(x).difference(
                        touched(all, x),
                    ),
                self.encoder@ == old(self).encoder@,
                self.buffer_memory_init_actions@.len() == 0,
                self.texture_memory_actions == old(self).texture_memory_actions,
                n == acc@.len(),
                n == st0.slots@.len(),
                forall|x: int|
                    0 <= x < n ==> (#[trigger] acc@[x]).wf() && acc@[x].is_aligned()
                        && acc@[x].uninit() == cleared(st0.uninit(x), all, x),
                forall|x: int|
                    st0.is_live(x) ==> #[trigger] clear_points(out@, x) == if x < id {
                        cleared(st0.uninit(x), all, x)
                    } else {
                        Set::<int>::empty()
                    },
                forall|k: int|
                    0 <= k < out@.len() && (#[trigger] clear_range(out@[k])).is_some()
                        ==> clear_range(out@[k]).unwrap().0 < id,
                buffer_commands_ok(out@, st0),
                buffer_transitions_ok(out@),
                forall|k: int| 0 <= k < out@.len() && (#[trigger] transition_id(out@[k])).is_some() ==> transition_id(out@[k]).unwrap() < id,
            decreases n - id,
        {
            let live = buffers.contains(id);
            proof {
                assert(buffers.is_live(id as int) == st0.is_live(id as int));
            }
            let count = acc[id].uninitialized_ranges.len();
            let ghost ranges = acc@[id as int].uninitialized_ranges@;
            if live && count > 0 {
                let ghost o0 = out@;
                let t = Command::TransitionBuffer { id };
                proof {
                    lemma_commands_push(o0, t, st0);
                    assert forall|x: int| #[trigger] clear_points(o0.push(t), x) == clear_points(
                        o0,
                        x,
                    ) by {
                        lemma_clear_points_push(o0, t, x);
                    }
                }
                out.push(t);
                let ghost o1 = out@;
                proof {
                    assert forall|i: int, j: int|
                        0 <= i < j < o1.len() && (#[trigger] transition_id(o1[i])).is_some() && (
                        #[trigger] transition_id(o1[j])).is_some() implies transition_id(o1[i]) != transition_id(
                            o1[j],
                        ) by {
                        if j == o1.len() - 1 {
                            assert(transition_id(o0[i]).unwrap() < id);
                        } else {
                            assert(o1[i] == o0[i] && o1[j] == o0[j]);
                        }
                    }
                    assert forall|i: int|
                        0 <= i < o1.len() && (#[trigger] transition_id(o1[i])).is_some() implies (i == o1.len() - 1 && true) || (
                        i + 1 < o1.len() && clear_range(o1[i + 1]).is_some() && clear_range(o1[i + 1]).unwrap().0
                            == transition_id(o1[i]).unwrap()) by {
                        if i < o1.len() - 1 {
                            assert(o1[i] == o0[i]);
                            assert(o1[i + 1] == o0[i + 1]);
                        }
                    }
                    assert forall|j: int|
                        0 <= j < o1.len() && (#[trigger] clear_range(o1[j])).is_some() implies exists|i: int|
                            0 <= i < j && o1[i] == Command::TransitionBuffer { id: clear_range(o1[j]).unwrap().0 } by {
                        assert(o1[j] == o0[j]);
                        let i = choose|i: int| 0 <= i < j && o0[i] == Command::TransitionBuffer { id: clear_range(o0[j]).unwrap().0 };
                        assert(o1[i] == o0[i]);
                    }
                    assert(buffer_transitions_ok_but_last(o1, o1.len() - 1, true));
                }
                proof {
                    lemma_points_empty();
                    assert(ranges.take(0) =~= Seq::<(u64, u64)>::empty());
                }
                let mut j: usize = 0;
                while j < count
                    invariant
                        id < n,
                st0 == *old(buffers),
                buffers.wf(),
                buffers.slots@.len() == n,
                forall|x: int| #[trigger] buffers.is_live(x) == st0.is_live(x),
                forall|x: int|
                    st0.is_live(x) ==> #[trigger] buffers.uninit(x) == st0.uninit(x).difference(
                        touched(all, x),
                    ),
                self.encoder@ == old(self).encoder@,
                self.buffer_memory_init_actions@.len() == 0,
                self.texture_memory_actions == old(self).texture_memory_actions,
                        n == acc@.len(),
                        n == st0.slots@.len(),
                        st0.is_live(id as int),
                        0 <= j <= count,
                        count == ranges.len(),
                        ranges == acc@[id as int].uninitialized_ranges@,
                        canonical(ranges),
                        aligned4(ranges),
                        out@.len() >= o1.len(),
                        forall|x: int|
                            x != id ==> #[trigger] clear_points(out@, x) == clear_points(o1, x),
                        clear_points(out@, id as int) == points(ranges.take(j as int)),
                        clear_points(o1, id as int) == Set::<int>::empty(),
                        forall|k: int|
                            0 <= k < out@.len() && (#[trigger] clear_range(out@[k])).is_some()
                                ==> clear_range(out@[k]).unwrap().0 < id || (clear_range(
                                out@[k],
                            ).unwrap().0 == id && (j < count ==> clear_range(out@[k]).unwrap().2
                                < ranges[j as int].0)),
                        buffer_commands_ok(out@, st0),
                        buffer_transitions_ok_but_last(out@, o1.len() - 1, j == 0),
                        out@.len() == o1.len() + j,
                        o1.len() >= 1,
                        out@[o1.len() - 1] == (Command::TransitionBuffer { id }),
                        forall|k: int| 0 <= k < out@.len() && (#[trigger] transition_id(out@[k])).is_some() ==> transition_id(out@[k]).unwrap() < id || k == o1.len() - 1,
                        forall|k: int| 0 <= k < o1.len() ==> #[trigger] out@[k] == o1[k],
                    decreases count - j,
                {
                    let r = acc[id].uninitialized_ranges[j];
                    let ghost o2 = out@;
                    let c = Command::ClearBuffer { id, start: r.0, end: r.1 };
                    proof {
                        assert(r.0 < r.1);
                        assert(r.0 % 4 == 0 && r.1 % 4 == 0);
                        if j + 1 < count {
                            assert(ranges[j as int].1 < ranges[j + 1].0);
                        }
                        lemma_commands_push(o2, c, st0);
                        lemma_points_take(ranges, j as int);
                        assert forall|x: int| #[trigger] clear_points(o2.push(c), x) == if x == id {
                            clear_points(o2, x).union(span(r))
                        } else {
                            clear_points(o2, x)
                        } by {
                            lemma_clear_points_push(o2, c, x);
                        }
                    }
                    out.push(c);
                    proof {
                        let p = o1.len() - 1;
                        assert(out@[o2.len() as int] == c);
                        assert forall|i: int, jj: int|
                            0 <= i < jj < out@.len() && (#[trigger] transition_id(out@[i])).is_some() && (
                            #[trigger] transition_id(out@[jj])).is_some() implies transition_id(out@[i]) != transition_id(
                                out@[jj],
                            ) by {
                            assert(out@[i] == o2[i]);
                            assert(jj < o2.len());
                            assert(out@[jj] == o2[jj]);
                        }
                        assert forall|i: int|
                            0 <= i < out@.len() && (#[trigger] transition_id(out@[i])).is_some() implies (i == p && j + 1 == 0) || (
                            i + 1 < out@.len() && clear_range(out@[i + 1]).is_some() && clear_range(out@[i + 1]).unwrap().0
                                == transition_id(out@[i]).unwrap()) by {
                            assert(i < o2.len());
                            assert(out@[i] == o2[i]);
                            if i + 1 < o2.len() {
                                assert(out@[i + 1] == o2[i + 1]);
                            }
                            if i != p {
                                assert(transition_id(o2[i]).unwrap() < id);
                            } else {
                                assert(out@[p] == o1[p]);
                                if j == 0 {
                                    assert(out@[i + 1] == c);
                                }
                            }
                        }
                        assert forall|jj: int|
                            0 <= jj < out@.len() && (#[trigger] clear_range(out@[jj])).is_some() implies exists|i: int|
                                0 <= i < jj && out@[i] == Command::TransitionBuffer { id: clear_range(out@[jj]).unwrap().0 } by {
                            if jj < o2.len() {
                                assert(out@[jj] == o2[jj]);
                                let i = choose|i: int| 0 <= i < jj && o2[i] == Command::TransitionBuffer { id: clear_range(o2[jj]).unwrap().0 };
                                assert(out@[i] == o2[i]);
                            } else {
                                assert(out@[p] == o2[p]);
                                assert(o2[p] == o1[p]);
                            }
                        }
                        assert forall|k: int| 0 <= k < o1.len() implies #[trigger] out@[k] == o1[k] by {
                            assert(out@[k] == o2[k]);
                        }
                        assert forall|k: int| 0 <= k < out@.len() && (#[trigger] transition_id(out@[k])).is_some() implies transition_id(out@[k]).unwrap() < id || k == p by {
                            assert(k < o2.len());
                            assert(out@[k] == o2[k]);
                        }
                    }
                    proof {
                        assert forall|k: int|
                            0 <= k < out@.len() && (#[trigger] clear_range(out@[k])).is_some()
                                implies clear_range(out@[k]).unwrap().0 < id || (clear_range(
                            out@[k],
                        ).unwrap().0 == id && (j + 1 < count ==> clear_range(out@[k]).unwrap().2
                            < ranges[j + 1].0)) by {
                            if k < o2.len() {
                                assert(out@[k] == o2[k]);
                            }
                        }
                    }
                    j = j + 1;
                }
                proof {
                    assert(ranges.take(count as int) =~= ranges);
                }
            } else {
                proof {
                    if live {
                        lemma_points_empty();
                        assert(ranges =~= Seq::<(u64, u64)>::empty());
                    }
                }
            }
            id = id + 1;
        }
        let ghost before_append = self.encoder@;
        let ghost out_final = out@;
        self.encoder.append(&mut out);
        proof {
            assert(self.encoder@.skip(before_append.len() as int) =~= out_final);
            assert(self.encoder@.take(before_append.len() as int) =~= before_append);
        }
        Ok(())
    }
}

} // verus!
