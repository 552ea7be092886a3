use vstd::prelude::*;
use vstd::set::{axiom_set_difference, axiom_set_intersect, axiom_set_union};

verus! {

/// The half-open span `[r.0, r.1)` as a set of integers.
pub open spec fn span(r: (u64, u64)) -> Set<int> {
    Set::new(|x: int| r.0 <= x && x < r.1)
}

/// The points covered by a sequence of spans.
#[verifier::opaque]
pub open spec fn points(s: Seq<(u64, u64)>) -> Set<int>
    decreases s.len(),
{
    if s.len() == 0 {
        Set::empty()
    } else {
        points(s.drop_last()).union(span(s.last()))
    }
}

/// Every span is non-empty, and each one ends strictly before the next begins:
/// spans are sorted and neither overlap nor touch.
pub open spec fn canonical(s: Seq<(u64, u64)>) -> bool {
    &&& forall|i: int| 0 <= i < s.len() ==> (#[trigger] s[i]).0 < s[i].1
    &&& forall|i: int| 0 <= i < s.len() - 1 ==> (#[trigger] s[i]).1 < s[i + 1].0
}

/// Both ends of every span are multiples of four.
pub open spec fn aligned4(s: Seq<(u64, u64)>) -> bool {
    forall|i: int| 0 <= i < s.len() ==> (#[trigger] s[i]).0 % 4 == 0 && s[i].1 % 4 == 0
}

pub proof fn lemma_points_push(s: Seq<(u64, u64)>, r: (u64, u64))
    ensures
        points(s.push(r)) == points(s).union(span(r)),
        s.push(r).last() == r,
        canonical(s) && r.0 < r.1 && (s.len() > 0 ==> s.last().1 < r.0) ==> canonical(s.push(r)),
        aligned4(s) && r.0 % 4 == 0 && r.1 % 4 == 0 ==> aligned4(s.push(r)),
{
    reveal(points);
    assert(s.push(r).drop_last() =~= s);
    if canonical(s) && r.0 < r.1 && (s.len() > 0 ==> s.last().1 < r.0) {
        lemma_canonical_push(s, r);
    }
    if aligned4(s) && r.0 % 4 == 0 && r.1 % 4 == 0 {
        lemma_aligned_push(s, r);
    }
}

pub proof fn lemma_points_empty()
    ensures
        points(Seq::<(u64, u64)>::empty()) == Set::<int>::empty(),
{
    reveal(points);
}

pub proof fn lemma_empty_span(x: Set<int>, r: (u64, u64))
    requires
        r.0 >= r.1,
    ensures
        span(r) == Set::<int>::empty(),
        x.union(span(r)) == x,
{
    assert(span(r) =~= Set::<int>::empty());
    assert(x.union(span(r)) =~= x);
}

/// How one span meets `[start, end)`: what lies inside and the two parts
/// that lie outside.
pub proof fn lemma_cut_span(r: (u64, u64), start: u64, end: u64)
    requires
        start < end,
    ensures
        span(r).intersect(span((start, end))) == span(
            (if r.0 > start { r.0 } else { start }, if r.1 < end { r.1 } else { end }),
        ),
        span(r).difference(span((start, end))) == span(
            (r.0, if r.1 < start { r.1 } else { start }),
        ).union(span((if end > r.0 { end } else { r.0 }, r.1))),
{
    assert(span(r).intersect(span((start, end))) =~= span(
        (if r.0 > start { r.0 } else { start }, if r.1 < end { r.1 } else { end }),
    ));
    assert(span(r).difference(span((start, end))) =~= span(
        (r.0, if r.1 < start { r.1 } else { start }),
    ).union(span((if end > r.0 { end } else { r.0 }, r.1))));
}

pub proof fn lemma_split_sets(p: Set<int>, r: Set<int>, c: Set<int>, m: Set<int>, a: Set<int>, b: Set<int>)
    requires
        r.intersect(c) == m,
        r.difference(c) == a.union(b),
    ensures
        p.union(r).intersect(c) == p.intersect(c).union(m),
        p.union(r).difference(c) == p.difference(c).union(a).union(b),
{
    assert forall|x: int| #[trigger] p.union(r).intersect(c).contains(x) == p.intersect(c).union(
        m,
    ).contains(x) by {
        axiom_set_intersect(r, c, x);
        axiom_set_intersect(p.union(r), c, x);
        axiom_set_intersect(p, c, x);
        axiom_set_union(p, r, x);
        axiom_set_union(p.intersect(c), m, x);
    }
    assert forall|x: int| #[trigger] p.union(r).difference(c).contains(x) == p.difference(c).union(
        a,
    ).union(b).contains(x) by {
        axiom_set_difference(r, c, x);
        axiom_set_difference(p.union(r), c, x);
        axiom_set_difference(p, c, x);
        axiom_set_union(p, r, x);
        axiom_set_union(a, b, x);
        axiom_set_union(p.difference(c), a, x);
        axiom_set_union(p.difference(c).union(a), b, x);
    }
    assert(p.union(r).intersect(c) =~= p.intersect(c).union(m));
    assert(p.union(r).difference(c) =~= p.difference(c).union(a).union(b));
}

/// Set identities for one step of merging a span into canonical ranges.
pub proof fn lemma_merge_sets(x: Set<int>, c: Set<int>, p: Set<int>, r: Set<int>, d: Set<int>)
    requires
        x.union(c) == p.union(d),
    ensures
        x.union(r).union(c) == p.union(r).union(d),
        x.union(c).union(r) == p.union(r).union(d),
        x.union(c.union(r)) == p.union(r).union(d),
{
    assert forall|y: int| #[trigger] x.union(r).union(c).contains(y) == p.union(r).union(d).contains(
        y,
    ) by {
        axiom_set_union(x, c, y);
        axiom_set_union(p, d, y);
        axiom_set_union(x, r, y);
        axiom_set_union(x.union(r), c, y);
        axiom_set_union(p, r, y);
        axiom_set_union(p.union(r), d, y);
    }
    assert(x.union(r).union(c) =~= p.union(r).union(d));
    assert(x.union(c).union(r) =~= p.union(r).union(d));
    assert(x.union(c.union(r)) =~= p.union(r).union(d));
}

pub proof fn lemma_placed_sets(x: Set<int>, p: Set<int>, r: Set<int>, d: Set<int>)
    requires
        x == p.union(d),
    ensures
        x.union(r) == p.union(r).union(d),
{
    assert(x.union(r) =~= p.union(r).union(d));
}

pub proof fn lemma_canonical_push(s: Seq<(u64, u64)>, r: (u64, u64))
    requires
        canonical(s),
        r.0 < r.1,
        s.len() > 0 ==> s.last().1 < r.0,
    ensures
        canonical(s.push(r)),
        s.push(r).last() == r,
{
    let t = s.push(r);
    assert forall|i: int| 0 <= i < t.len() implies (#[trigger] t[i]).0 < t[i].1 by {
        if i < s.len() {
            assert(s[i].0 < s[i].1);
        }
    }
    assert forall|i: int| 0 <= i < t.len() - 1 implies (#[trigger] t[i]).1 < t[i + 1].0 by {
        if i + 1 < s.len() {
            assert(s[i].1 < s[i + 1].0);
        }
    }
}

pub proof fn lemma_aligned_push(s: Seq<(u64, u64)>, r: (u64, u64))
    requires
        aligned4(s),
        r.0 % 4 == 0,
        r.1 % 4 == 0,
    ensures
        aligned4(s.push(r)),
{
    let t = s.push(r);
    assert forall|i: int| 0 <= i < t.len() implies (#[trigger] t[i]).0 % 4 == 0 && t[i].1 % 4
        == 0 by {
        if i < s.len() {
            assert(s[i].0 % 4 == 0);
        }
    }
}

pub proof fn lemma_points_take(s: Seq<(u64, u64)>, i: int)
    requires
        0 <= i < s.len(),
    ensures
        points(s.take(i + 1)) == points(s.take(i)).union(span(s[i])),
{
    reveal(points);
    assert(s.take(i + 1).drop_last() =~= s.take(i));
}

/// Each span of a sequence lies within its points.
pub proof fn lemma_span_in_points(s: Seq<(u64, u64)>, k: int, x: int)
    requires
        0 <= k < s.len(),
        span(s[k]).contains(x),
    ensures
        points(s).contains(x),
    decreases s.len(),
{
    reveal(points);
    if k < s.len() - 1 {
        assert(s.drop_last()[k] == s[k]);
        lemma_span_in_points(s.drop_last(), k, x);
    }
}

/// The set of not-yet-initialized positions of one resource dimension
/// (bytes of a buffer, layers of one mip level of a texture), kept as
/// canonical half-open ranges.
pub struct InitTracker {
    pub uninitialized_ranges: Vec<(u64, u64)>,
}

impl InitTracker {
    pub open spec fn wf(&self) -> bool {
        canonical(self.uninitialized_ranges@)
    }

    /// Positions not known to be initialized.
    pub open spec fn uninit(&self) -> Set<int> {
        points(self.uninitialized_ranges@)
    }

    pub open spec fn is_aligned(&self) -> bool {
        aligned4(self.uninitialized_ranges@)
    }

    /// A tracker for which all of `[0, size)` is uninitialized.
    pub fn new(size: u64) -> (r: Self)
        ensures
            r.wf(),
            r.uninit() == span((0, size)),
            size % 4 == 0 ==> r.is_aligned(),
    {
        let mut v: Vec<(u64, u64)> = Vec::new();
        proof {
            lemma_points_empty();
        }
        if size > 0 {
            v.push((0, size));
            proof {
                lemma_points_push(Seq::empty(), (0u64, size));
                assert(v@ =~= Seq::<(u64, u64)>::empty().push((0u64, size)));
                assert(Set::<int>::empty().union(span((0, size))) =~= span((0, size)));
            }
        } else {
            assert(span((0, size)) =~= Set::<int>::empty());
        }
        InitTracker { uninitialized_ranges: v }
    }

    /// Splits the uninitialized ranges at `[start, end)`: the parts inside it
    /// and the parts outside it.
    #[verifier::rlimit(40)]
    fn split(&self, start: u64, end: u64) -> (res: (Vec<(u64, u64)>, Vec<(u64, u64)>))
        requires
            self.wf(),
            start < end,
        ensures
            canonical(res.0@),
            canonical(res.1@),
            points(res.0@) == self.uninit().intersect(span((start, end))),
            points(res.1@) == self.uninit().difference(span((start, end))),
            self.is_aligned() && start % 4 == 0 && end % 4 == 0 ==> aligned4(res.0@) && aligned4(
                res.1@,
            ),
    {
        let ghost s = self.uninitialized_ranges@;
        let ghost cut = span((start, end));
        let mut inside: Vec<(u64, u64)> = Vec::new();
        let mut outside: Vec<(u64, u64)> = Vec::new();
        proof {
            lemma_points_empty();
            assert(s.take(0) =~= Seq::<(u64, u64)>::empty());
            assert(Set::<int>::empty().intersect(cut) =~= Set::<int>::empty());
            assert(Set::<int>::empty().difference(cut) =~= Set::<int>::empty());
        }
        let n = self.uninitialized_ranges.len();
        let mut i: usize = 0;
        while i < n
            invariant
                0 <= i <= n,
                n == s.len(),
                s == self.uninitialized_ranges@,
                canonical(s),
                start < end,
                cut == span((start, end)),
                canonical(inside@),
                canonical(outside@),
                points(inside@) == points(s.take(i as int)).intersect(cut),
                points(outside@) == points(s.take(i as int)).difference(cut),
                i < n && inside.len() > 0 ==> inside@.last().1 < s[i as int].0,
                i < n && outside.len() > 0 ==> outside@.last().1 < s[i as int].0,
                aligned4(s) && start % 4 == 0 && end % 4 == 0 ==> aligned4(inside@) && aligned4(
                    outside@,
                ),
            decreases n - i,
        {
            let r = self.uninitialized_ranges[i];
            let ghost in0 = inside@;
            let ghost out0 = outside@;
            let ghost p = points(s.take(i as int));
            let left_end = if r.1 < start {
                r.1
            } else {
                start
            };
            let right_start = if end > r.0 {
                end
            } else {
                r.0
            };
            let mid_start = if r.0 > start {
                r.0
            } else {
                start
            };
            let mid_end = if r.1 < end {
                r.1
            } else {
                end
            };
            proof {
                lemma_points_take(s, i as int);
                assert(r.0 < r.1);
                if i + 1 < n {
                    assert(s[i as int].1 < s[i + 1].0);
                }
                if aligned4(s) {
                    assert(s[i as int].0 % 4 == 0 && s[i as int].1 % 4 == 0);
                }
                lemma_cut_span(r, start, end);
                lemma_split_sets(
                    p,
                    span(r),
                    cut,
                    span((mid_start, mid_end)),
                    span((r.0, left_end)),
                    span((right_start, r.1)),
                );
            }
            if mid_start < mid_end {
                inside.push((mid_start, mid_end));
                proof {
                    lemma_points_push(in0, (mid_start, mid_end));
                }
            } else {
                proof {
                    lemma_empty_span(points(in0), (mid_start, mid_end));
                }
            }
            if r.0 < left_end {
                outside.push((r.0, left_end));
                proof {
                    lemma_points_push(out0, (r.0, left_end));
                }
            } else {
                proof {
                    lemma_empty_span(points(out0), (r.0, left_end));
                }
            }
            let ghost out1 = outside@;
            if right_start < r.1 {
                outside.push((right_start, r.1));
                proof {
                    lemma_points_push(out1, (right_start, r.1));
                }
            } else {
                proof {
                    lemma_empty_span(points(out1), (right_start, r.1));
                }
            }
            i = i + 1;
        }
        assert(s.take(n as int) =~= s);
        (inside, outside)
    }

    /// The parts of `[start, end)` that are uninitialized, without changing
    /// the tracker.
    pub fn check(&self, start: u64, end: u64) -> (r: Vec<(u64, u64)>)
        requires
            self.wf(),
        ensures
            canonical(r@),
            points(r@) == self.uninit().intersect(span((start, end))),
    {
        if start < end {
            self.split(start, end).0
        } else {
            proof {
                lemma_points_empty();
            }
            assert(self.uninit().intersect(span((start, end))) =~= Set::<int>::empty());
            Vec::new()
        }
    }

    /// Marks `[start, end)` as initialized and returns the parts of it that
    /// were uninitialized before.
    pub fn drain(&mut self, start: u64, end: u64) -> (r: Vec<(u64, u64)>)
        requires
            old(self).wf(),
        ensures
            final(self).wf(),
            final(self).uninit() == old(self).uninit().difference(span((start, end))),
            canonical(r@),
            points(r@) == old(self).uninit().intersect(span((start, end))),
            old(self).is_aligned() && start % 4 == 0 && end % 4 == 0 ==> final(self).is_aligned()
                && aligned4(r@),
    {
        if start < end {
            let (inside, outside) = self.split(start, end);
            self.uninitialized_ranges = outside;
            inside
        } else {
            proof {
                lemma_points_empty();
            }
            assert(self.uninit().difference(span((start, end))) =~= self.uninit());
            assert(self.uninit().intersect(span((start, end))) =~= Set::<int>::empty());
            Vec::new()
        }
    }

    /// Marks `[start, end)` as uninitialized again, merging it with the ranges
    /// it overlaps or touches.
    #[verifier::rlimit(40)]
    pub fn insert_range(&mut self, start: u64, end: u64)
        requires
            old(self).wf(),
            start < end,
        ensures
            final(self).wf(),
            final(self).uninit() == old(self).uninit().union(span((start, end))),
            old(self).is_aligned() && start % 4 == 0 && end % 4 == 0 ==> final(self).is_aligned(),
    {
        let ghost s = self.uninitialized_ranges@;
        let ghost add = span((start, end));
        let mut out: Vec<(u64, u64)> = Vec::new();
        let mut cur: (u64, u64) = (start, end);
        let mut placed = false;
        proof {
            lemma_points_empty();
            assert(s.take(0) =~= Seq::<(u64, u64)>::empty());
            assert(Set::<int>::empty().union(add) =~= add);
        }
        let n = self.uninitialized_ranges.len();
        let mut i: usize = 0;
        while i < n
            invariant
                0 <= i <= n,
                n == s.len(),
                s == self.uninitialized_ranges@,
                canonical(s),
                add == span((start, end)),
                canonical(out@),
                cur.0 < cur.1,
                placed ==> points(out@) == points(s.take(i as int)).union(add),
                !placed ==> points(out@).union(span(cur)) == points(s.take(i as int)).union(add),
                i < n && out.len() > 0 ==> out@.last().1 < s[i as int].0,
                !placed && out.len() > 0 ==> out@.last().1 < cur.0,
                aligned4(s) && start % 4 == 0 && end % 4 == 0 ==> aligned4(out@) && cur.0 % 4 == 0
                    && cur.1 % 4 == 0,
            decreases n - i,
        {
            let r = self.uninitialized_ranges[i];
            let ghost o0 = out@;
            let ghost p = points(s.take(i as int));
            proof {
                lemma_points_take(s, i as int);
                assert(r.0 < r.1);
                if i + 1 < n {
                    assert(s[i as int].1 < s[i + 1].0);
                }
                if aligned4(s) {
                    assert(s[i as int].0 % 4 == 0 && s[i as int].1 % 4 == 0);
                }
            }
            if placed {
                out.push(r);
                proof {
                    lemma_points_push(o0, r);
                    lemma_placed_sets(points(o0), p, span(r), add);
                }
            } else if r.1 < cur.0 {
                out.push(r);
                proof {
                    lemma_points_push(o0, r);
                    lemma_merge_sets(points(o0), span(cur), p, span(r), add);
                }
            } else if cur.1 < r.0 {
                out.push(cur);
                proof {
                    lemma_points_push(o0, cur);
                }
                let ghost o1 = out@;
                out.push(r);
                proof {
                    lemma_points_push(o1, r);
                    lemma_merge_sets(points(o0), span(cur), p, span(r), add);
                }
                placed = true;
            } else {
                let lo = if r.0 < cur.0 {
                    r.0
                } else {
                    cur.0
                };
                let hi = if r.1 > cur.1 {
                    r.1
                } else {
                    cur.1
                };
                proof {
                    assert(span((lo, hi)) =~= span(cur).union(span(r)));
                    lemma_merge_sets(points(o0), span(cur), p, span(r), add);
                }
                cur = (lo, hi);
            }
            i = i + 1;
        }
        assert(s.take(n as int) =~= s);
        if !placed {
            let ghost o0 = out@;
            out.push(cur);
            proof {
                lemma_points_push(o0, cur);
            }
        }
        self.uninitialized_ranges = out;
    }

    /// Marks the single position `pos` as uninitialized.
    pub fn discard(&mut self, pos: u64)
        requires
            old(self).wf(),
            pos < u64::MAX,
        ensures
            final(self).wf(),
            final(self).uninit() == old(self).uninit().insert(pos as int),
    {
        self.insert_range(pos, pos + 1);
        assert(old(self).uninit().union(span((pos, (pos + 1) as u64))) =~= old(self).uninit().insert(
            pos as int,
        ));
    }
}

} // verus!
