use vstd::prelude::*;
use crate::action::{BufferInitTrackerAction, MemoryInitKind, TextureInitTrackerAction, TextureSurfaceDiscard};
use crate::resolve::{buffer_span, cleared, touched};
use crate::resolve_texture::{discarded, layer_span, reaches, tex_cleared, tex_touched};

verus! {

proof fn lemma_cleared_prefix(init: Set<int>, acts: Seq<BufferInitTrackerAction>, id: int, n: int)
    requires
        0 <= n <= acts.len(),
    ensures
        cleared(init, acts.take(n), id).subset_of(cleared(init, acts, id)),
    decreases acts.len(),
{
    if n < acts.len() {
        assert(acts.drop_last().take(n) =~= acts.take(n));
        lemma_cleared_prefix(init, acts.drop_last(), id, n);
    } else {
        assert(acts.take(n) =~= acts);
    }
}

proof fn lemma_touched_witness(acts: Seq<BufferInitTrackerAction>, id: int, x: int)
    requires
        touched(acts, id).contains(x),
    ensures
        exists|j: int|
            0 <= j < acts.len() && (#[trigger] acts[j]).id == id && buffer_span(acts[j]).contains(x),
    decreases acts.len(),
{
    if acts.len() > 0 {
        if acts.last().id == id && buffer_span(acts.last()).contains(x) {
            assert(acts[acts.len() - 1] == acts.last());
        } else {
            lemma_touched_witness(acts.drop_last(), id, x);
            let j = choose|j: int|
                0 <= j < acts.drop_last().len() && (#[trigger] acts.drop_last()[j]).id == id
                    && buffer_span(acts.drop_last()[j]).contains(x);
            assert(acts[j] == acts.drop_last()[j]);
        }
    }
}

proof fn lemma_touched_contains(acts: Seq<BufferInitTrackerAction>, id: int, j: int)
    requires
        0 <= j < acts.len(),
        acts[j].id == id,
    ensures
        buffer_span(acts[j]).subset_of(touched(acts, id)),
    decreases acts.len(),
{
    if j < acts.len() - 1 {
        assert(acts.drop_last()[j] == acts[j]);
        lemma_touched_contains(acts.drop_last(), id, j);
    }
}

/// Every byte that a read covers, and that was uninitialized before the
/// batch, is either zero-filled by the batch's clears or was written first
/// by an earlier overwriting access of the same batch.
pub proof fn lemma_read_bytes_are_covered(
    init: Set<int>,
    acts: Seq<BufferInitTrackerAction>,
    id: int,
    k: int,
    x: int,
)
    requires
        0 <= k < acts.len(),
        acts[k].id == id,
        acts[k].kind == MemoryInitKind::NeedsInitializedMemory,
        buffer_span(acts[k]).contains(x),
        init.contains(x),
    ensures
        cleared(init, acts, id).contains(x) || exists|j: int|
            0 <= j < k && (#[trigger] acts[j]).id == id && acts[j].kind
                == MemoryInitKind::ImplicitlyInitialized && buffer_span(acts[j]).contains(x),
    decreases k,
{
    let p = acts.take(k);
    assert(acts.take(k + 1).drop_last() =~= p);
    assert(acts.take(k + 1).last() == acts[k]);
    lemma_cleared_prefix(init, acts, id, k + 1);
    if touched(p, id).contains(x) {
        lemma_touched_witness(p, id, x);
        let j = choose|j: int|
            0 <= j < p.len() && (#[trigger] p[j]).id == id && buffer_span(p[j]).contains(x);
        assert(p[j] == acts[j]);
        if acts[j].kind == MemoryInitKind::NeedsInitializedMemory {
            lemma_read_bytes_are_covered(init, acts, id, j, x);
        }
    }
}

/// A read whose bytes an earlier overwriting access of the same batch
/// already covers adds nothing to clear.
pub proof fn lemma_no_double_clear(
    init: Set<int>,
    acts: Seq<BufferInitTrackerAction>,
    id: int,
    j: int,
    k: int,
)
    requires
        0 <= j < k < acts.len(),
        acts[j].id == id,
        acts[j].kind == MemoryInitKind::ImplicitlyInitialized,
        acts[k].id == id,
        buffer_span(acts[k]).subset_of(buffer_span(acts[j])),
    ensures
        cleared(init, acts.take(k + 1), id) == cleared(init, acts.take(k), id),
{
    let p = acts.take(k);
    assert(acts.take(k + 1).drop_last() =~= p);
    assert(acts.take(k + 1).last() == acts[k]);
    assert(p[j] == acts[j]);
    lemma_touched_contains(p, id, j);
    assert(init.difference(touched(p, id)).intersect(buffer_span(acts[k])) =~= Set::<int>::empty());
    assert(cleared(init, p, id).union(Set::<int>::empty()) =~= cleared(init, p, id));
}

proof fn lemma_tex_cleared_prefix(
    init: Set<int>,
    acts: Seq<TextureInitTrackerAction>,
    id: int,
    m: int,
    n: int,
)
    requires
        0 <= n <= acts.len(),
    ensures
        tex_cleared(init, acts.take(n), id, m).subset_of(tex_cleared(init, acts, id, m)),
    decreases acts.len(),
{
    if n < acts.len() {
        assert(acts.drop_last().take(n) =~= acts.take(n));
        lemma_tex_cleared_prefix(init, acts.drop_last(), id, m, n);
    } else {
        assert(acts.take(n) =~= acts);
    }
}

proof fn lemma_tex_touched_witness(acts: Seq<TextureInitTrackerAction>, id: int, m: int, x: int)
    requires
        tex_touched(acts, id, m).contains(x),
    ensures
        exists|j: int|
            0 <= j < acts.len() && reaches(#[trigger] acts[j], id, m) && layer_span(acts[j]).contains(
                x,
            ),
    decreases acts.len(),
{
    if acts.len() > 0 {
        if reaches(acts.last(), id, m) && layer_span(acts.last()).contains(x) {
            assert(acts[acts.len() - 1] == acts.last());
        } else {
            lemma_tex_touched_witness(acts.drop_last(), id, m, x);
            let j = choose|j: int|
                0 <= j < acts.drop_last().len() && reaches(#[trigger] acts.drop_last()[j], id, m)
                    && layer_span(acts.drop_last()[j]).contains(x);
            assert(acts[j] == acts.drop_last()[j]);
        }
    }
}

/// Every layer of a mip level that a read covers, and that was
/// uninitialized before the batch, is either zero-filled by the batch or was
/// written first by an earlier overwriting access of the same batch.
pub proof fn lemma_read_texels_are_covered(
    init: Set<int>,
    acts: Seq<TextureInitTrackerAction>,
    id: int,
    m: int,
    k: int,
    x: int,
)
    requires
        0 <= k < acts.len(),
        reaches(acts[k], id, m),
        acts[k].kind == MemoryInitKind::NeedsInitializedMemory,
        layer_span(acts[k]).contains(x),
        init.contains(x),
    ensures
        tex_cleared(init, acts, id, m).contains(x) || exists|j: int|
            0 <= j < k && reaches(#[trigger] acts[j], id, m) && acts[j].kind
                == MemoryInitKind::ImplicitlyInitialized && layer_span(acts[j]).contains(x),
    decreases k,
{
    let p = acts.take(k);
    assert(acts.take(k + 1).drop_last() =~= p);
    assert(acts.take(k + 1).last() == acts[k]);
    lemma_tex_cleared_prefix(init, acts, id, m, k + 1);
    if tex_touched(p, id, m).contains(x) {
        lemma_tex_touched_witness(p, id, m, x);
        let j = choose|j: int|
            0 <= j < p.len() && reaches(#[trigger] p[j], id, m) && layer_span(p[j]).contains(x);
        assert(p[j] == acts[j]);
        if acts[j].kind == MemoryInitKind::NeedsInitializedMemory {
            lemma_read_texels_are_covered(init, acts, id, m, j, x);
        }
    }
}

/// A surface that a batch leaves discarded is uninitialized for the next
/// batch: the first read of it there has it zero-filled.
pub proof fn lemma_discard_needs_fresh_clear(
    before: Set<int>,
    touched_before: Set<int>,
    ds: Seq<TextureSurfaceDiscard>,
    next: Seq<TextureInitTrackerAction>,
    id: int,
    m: int,
    layer: int,
    k: int,
)
    requires
        discarded(ds, id, m).contains(layer),
        0 <= k < next.len(),
        reaches(next[k], id, m),
        next[k].kind == MemoryInitKind::NeedsInitializedMemory,
        layer_span(next[k]).contains(layer),
        !tex_touched(next.take(k), id, m).contains(layer),
    ensures
        tex_cleared(before.difference(touched_before).union(discarded(ds, id, m)), next, id, m).contains(
            layer,
        ),
{
    let u = before.difference(touched_before).union(discarded(ds, id, m));
    assert(next.take(k + 1).drop_last() =~= next.take(k));
    assert(next.take(k + 1).last() == next[k]);
    assert(u.difference(tex_touched(next.take(k), id, m)).intersect(layer_span(next[k])).contains(
        layer,
    ));
    lemma_tex_cleared_prefix(u, next, id, m, k + 1);
}

} // verus!
