//! A minimal sorted set of disjoint half-open address intervals.
//!
//! Intervals are merged on insertion: an inserted interval swallows every
//! existing region it overlaps or touches, so consecutive regions are
//! always separated by a strict gap.

use vstd::prelude::*;

verus! {

/// A half-open address interval `[start, end)` of covered target memory.
#[derive(Clone, Copy, Debug, PartialEq, Eq, Structural)]
pub struct Region {
    /// Inclusive lower bound.
    pub start: u32,
    /// Exclusive upper bound.
    pub end: u32,
}

/// Well-formedness of a region list: every region is non-empty, and the
/// list is sorted with a strict gap between any two regions (so no two
/// regions overlap or even touch).
pub open spec fn wf(s: Seq<Region>) -> bool {
    &&& forall|i: int| 0 <= i < s.len() ==> s[i].start < s[i].end
    &&& forall|i: int, j: int| 0 <= i < j < s.len() ==> s[i].end < s[j].start
}

/// Address `a` lies inside one of the regions of `s`.
pub open spec fn covered(s: Seq<Region>, a: int) -> bool {
    exists|i: int| 0 <= i < s.len() && (#[trigger] s[i]).start <= a < s[i].end
}

/// The set of distinct, non-touching address ranges covered so far.
pub struct MemoryRegions {
    /// Sorted, disjoint, non-adjacent regions; see [`wf`].
    pub regions: Vec<Region>,
}

/// Address `a` lies inside a region of `s` whose index is outside `[lo, hi)`.
spec fn outside_covered(s: Seq<Region>, lo: int, hi: int, a: int) -> bool {
    exists|i: int|
        (0 <= i < lo || hi <= i < s.len()) && (#[trigger] s[i]).start <= a < s[i].end
}

/// Replacing the slice `s0[lo..hi]` by the single region `m` keeps the list
/// well formed and covers exactly the untouched regions plus `m` itself,
/// provided `m` clears the neighbouring regions by a strict gap.
proof fn lemma_splice(s0: Seq<Region>, lo: int, hi: int, m: Region, s1: Seq<Region>)
    requires
        wf(s0),
        0 <= lo <= hi <= s0.len(),
        m.start < m.end,
        forall|i: int| 0 <= i < lo ==> (#[trigger] s0[i]).end < m.start,
        forall|i: int| hi <= i < s0.len() ==> (#[trigger] s0[i]).start > m.end,
        s1 == s0.subrange(0, lo) + seq![m] + s0.subrange(hi, s0.len() as int),
    ensures
        wf(s1),
        forall|a: int|
            covered(s1, a) <==> outside_covered(s0, lo, hi, a) || (m.start <= a < m.end),
{
    assert forall|i: int| 0 <= i < s1.len() implies (#[trigger] s1[i]).start < s1[i].end by {
        if i < lo {
            assert(s1[i] == s0[i]);
        } else if i > lo {
            assert(s1[i] == s0[hi + i - lo - 1]);
        }
    }
    assert forall|i: int, j: int| 0 <= i < j < s1.len() implies (#[trigger] s1[i]).end < (
    #[trigger] s1[j]).start by {
        if j < lo {
            assert(s1[i] == s0[i] && s1[j] == s0[j]);
        } else if j == lo {
            assert(s1[i] == s0[i]);
        } else {
            assert(s1[j] == s0[hi + j - lo - 1]);
            if i < lo {
                assert(s1[i] == s0[i]);
                assert(s0[i].end < s0[hi + j - lo - 1].start);
            } else if i == lo {
                assert(s0[hi + j - lo - 1].start > m.end);
            } else {
                assert(s1[i] == s0[hi + i - lo - 1]);
            }
        }
    }
    assert forall|a: int|
        covered(s1, a) <==> outside_covered(s0, lo, hi, a) || (m.start <= a < m.end) by {
        if covered(s1, a) {
            let i = choose|i: int|
                0 <= i < s1.len() && (#[trigger] s1[i]).start <= a < s1[i].end;
            if i < lo {
                assert(s0[i].start <= a < s0[i].end);
                assert(outside_covered(s0, lo, hi, a));
            } else if i > lo {
                let k = hi + i - lo - 1;
                assert(s0[k].start <= a < s0[k].end);
                assert(outside_covered(s0, lo, hi, a));
            }
        }
        if outside_covered(s0, lo, hi, a) {
            let i = choose|i: int|
                (0 <= i < lo || hi <= i < s0.len()) && (#[trigger] s0[i]).start <= a < s0[i].end;
            if i < lo {
                assert(s1[i].start <= a < s1[i].end);
            } else {
                let j = i - hi + lo + 1;
                assert(s1[j].start <= a < s1[j].end);
            }
            assert(covered(s1, a));
        }
        if m.start <= a < m.end {
            assert(s1[lo].start <= a < s1[lo].end);
            assert(covered(s1, a));
        }
    }
}

/// A well-formed region list is the canonical form of its coverage: two
/// well-formed lists that cover exactly the same addresses are the same
/// list, region for region.
pub proof fn lemma_coverage_determines_regions(s1: Seq<Region>, s2: Seq<Region>)
    requires
        wf(s1),
        wf(s2),
        forall|a: int| covered(s1, a) <==> covered(s2, a),
    ensures
        s1 == s2,
    decreases s1.len(),
{
    if s1.len() == 0 {
        if s2.len() > 0 {
            let w = s2[0].start as int;
            assert(s2[0].start <= w < s2[0].end);
            assert(covered(s2, w));
            let i = choose|i: int| 0 <= i < s1.len() && (#[trigger] s1[i]).start <= w < s1[i].end;
            assert(false);
        }
        assert(s1 =~= s2);
    } else {
        if s2.len() == 0 {
            let w = s1[0].start as int;
            assert(s1[0].start <= w < s1[0].end);
            assert(covered(s1, w));
            let i = choose|i: int| 0 <= i < s2.len() && (#[trigger] s2[i]).start <= w < s2[i].end;
            assert(false);
        }
        // The two head regions start together: each list's first start is
        // its least covered address.
        if s1[0].start < s2[0].start {
            let w = s1[0].start as int;
            assert(s1[0].start <= w < s1[0].end);
            assert(covered(s1, w));
            let j = choose|j: int| 0 <= j < s2.len() && (#[trigger] s2[j]).start <= w < s2[j].end;
            if j > 0 {
                assert(s2[0].end < s2[j].start);
            }
            assert(false);
        }
        if s2[0].start < s1[0].start {
            let w = s2[0].start as int;
            assert(s2[0].start <= w < s2[0].end);
            assert(covered(s2, w));
            let j = choose|j: int| 0 <= j < s1.len() && (#[trigger] s1[j]).start <= w < s1[j].end;
            if j > 0 {
                assert(s1[0].end < s1[j].start);
            }
            assert(false);
        }
        // And they end together: each head's end is the first address at or
        // after its start that the list leaves uncovered.
        if s1[0].end < s2[0].end {
            let w = s1[0].end as int;
            assert(s2[0].start <= w < s2[0].end);
            assert(covered(s2, w));
            let j = choose|j: int| 0 <= j < s1.len() && (#[trigger] s1[j]).start <= w < s1[j].end;
            if j > 0 {
                assert(s1[0].end < s1[j].start);
            }
            assert(false);
        }
        if s2[0].end < s1[0].end {
            let w = s2[0].end as int;
            assert(s1[0].start <= w < s1[0].end);
            assert(covered(s1, w));
            let j = choose|j: int| 0 <= j < s2.len() && (#[trigger] s2[j]).start <= w < s2[j].end;
            if j > 0 {
                assert(s2[0].end < s2[j].start);
            }
            assert(false);
        }
        assert(s1[0] == s2[0]);
        let t1 = s1.subrange(1, s1.len() as int);
        let t2 = s2.subrange(1, s2.len() as int);
        assert forall|a: int| covered(t1, a) <==> covered(t2, a) by {
            if covered(t1, a) {
                let i = choose|i: int|
                    0 <= i < t1.len() && (#[trigger] t1[i]).start <= a < t1[i].end;
                assert(s1[i + 1].start <= a < s1[i + 1].end);
                assert(covered(s1, a));
                assert(s1[0].end < s1[i + 1].start);
                let j = choose|j: int|
                    0 <= j < s2.len() && (#[trigger] s2[j]).start <= a < s2[j].end;
                assert(j > 0);
                assert(t2[j - 1].start <= a < t2[j - 1].end);
                assert(covered(t2, a));
            }
            if covered(t2, a) {
                let i = choose|i: int|
                    0 <= i < t2.len() && (#[trigger] t2[i]).start <= a < t2[i].end;
                assert(s2[i + 1].start <= a < s2[i + 1].end);
                assert(covered(s2, a));
                assert(s2[0].end < s2[i + 1].start);
                let j = choose|j: int|
                    0 <= j < s1.len() && (#[trigger] s1[j]).start <= a < s1[j].end;
                assert(j > 0);
                assert(t1[j - 1].start <= a < t1[j - 1].end);
                assert(covered(t1, a));
            }
        }
        lemma_coverage_determines_regions(t1, t2);
        assert forall|i: int| 0 <= i < s1.len() implies s1[i] == s2[i] by {
            if i > 0 {
                assert(s1[i] == t1[i - 1]);
                assert(s2[i] == t2[i - 1]);
            }
        }
        assert(s1 =~= s2);
    }
}

/// Inserting two intervals gives the same region list in either order: the
/// coverage gained is the union of the two intervals either way, and by
/// [`lemma_coverage_determines_regions`] a well-formed list is determined
/// by its coverage.  `s12` is the list after adding `[a1, b1)` and then
/// `[a2, b2)` to a set that covered `cov0`; `s21` the list after adding
/// them the other way round, as [`MemoryRegions::add_region`] describes
/// each step.
pub proof fn lemma_add_region_order_irrelevant(
    cov0: Seq<Region>,
    a1: int,
    b1: int,
    a2: int,
    b2: int,
    s12: Seq<Region>,
    s21: Seq<Region>,
)
    requires
        wf(s12),
        wf(s21),
        forall|a: int| covered(s12, a) <==> (covered(cov0, a) || a1 <= a < b1) || (a2 <= a < b2),
        forall|a: int| covered(s21, a) <==> (covered(cov0, a) || a2 <= a < b2) || (a1 <= a < b1),
    ensures
        s12 == s21,
{
    lemma_coverage_determines_regions(s12, s21);
}

impl MemoryRegions {
    /// An empty region set.
    pub fn new() -> (r: Self)
        ensures
            r.regions@ == Seq::<Region>::empty(),
            wf(r.regions@),
    {
        MemoryRegions { regions: Vec::new() }
    }

    /// Insert the interval `[new_start, new_end)`, merging it with every
    /// region it overlaps or touches.  A zero-length interval is skipped
    /// and leaves the set untouched.  Afterwards the set covers exactly the
    /// addresses it covered before plus the inserted interval.
    pub fn add_region(&mut self, new_start: u32, new_end: u32)
        requires
            new_start <= new_end,
            wf(old(self).regions@),
        ensures
            wf(final(self).regions@),
            new_start == new_end ==> final(self).regions@ == old(self).regions@,
            forall|a: int|
                covered(final(self).regions@, a) <==> covered(old(self).regions@, a) || (new_start
                    <= a < new_end),
    {
        if new_start == new_end {
            return ;
        }
        let ghost s0 = self.regions@;
        let n = self.regions.len();

        // First region that ends at or after `new_start`: everything to its
        // left ends strictly before the new interval and cannot touch it.
        let mut lo: usize = 0;
        let mut hi: usize = n;
        while lo < hi
            invariant
                lo <= hi <= n,
                n == s0.len(),
                self.regions@ == s0,
                wf(s0),
                forall|i: int| 0 <= i < lo ==> (#[trigger] s0[i]).end < new_start,
                forall|i: int| hi <= i < n ==> (#[trigger] s0[i]).end >= new_start,
            decreases hi - lo,
        {
            let mid = lo + (hi - lo) / 2;
            if self.regions[mid].end < new_start {
                lo = mid + 1;
            } else {
                hi = mid;
            }
        }
        let cut_lo = lo;

        // First region that starts strictly after `new_end`: it and
        // everything to its right cannot touch the new interval.
        let mut lo2: usize = cut_lo;
        let mut hi2: usize = n;
        while lo2 < hi2
            invariant
                cut_lo <= lo2 <= hi2 <= n,
                n == s0.len(),
                self.regions@ == s0,
                wf(s0),
                forall|i: int| cut_lo <= i < lo2 ==> (#[trigger] s0[i]).start <= new_end,
                forall|i: int| hi2 <= i < n ==> (#[trigger] s0[i]).start > new_end,
            decreases hi2 - lo2,
        {
            let mid = lo2 + (hi2 - lo2) / 2;
            if self.regions[mid].start <= new_end {
                lo2 = mid + 1;
            } else {
                hi2 = mid;
            }
        }
        let cut_hi = lo2;

        if cut_lo == cut_hi {
            // Nothing overlaps or touches: insert as a standalone region.
            let r = Region { start: new_start, end: new_end };
            self.regions.insert(cut_lo, r);
            proof {
                let loi = cut_lo as int;
                let s1 = self.regions@;
                assert(s1 =~= s0.subrange(0, loi) + seq![r] + s0.subrange(loi, n as int));
                lemma_splice(s0, loi, loi, r, s1);
                assert forall|a: int|
                    covered(s1, a) <==> covered(s0, a) || (new_start <= a < new_end) by {
                    if covered(s0, a) {
                        let i = choose|i: int|
                            0 <= i < s0.len() && (#[trigger] s0[i]).start <= a < s0[i].end;
                        assert(outside_covered(s0, loi, loi, a));
                    }
                    if outside_covered(s0, loi, loi, a) {
                        let i = choose|i: int|
                            (0 <= i < loi || loi <= i < s0.len()) && (#[trigger] s0[i]).start <= a
                                < s0[i].end;
                        assert(covered(s0, a));
                    }
                }
            }
        } else {
            // The regions with indices in `[cut_lo, cut_hi)` all overlap or
            // touch the new interval: replace them by one merged region.
            let first = self.regions[cut_lo];
            let last = self.regions[cut_hi - 1];
            let merged_start = if new_start < first.start {
                new_start
            } else {
                first.start
            };
            let merged_end = if new_end > last.end {
                new_end
            } else {
                last.end
            };
            let m = Region { start: merged_start, end: merged_end };
            let count = cut_hi - cut_lo;
            let mut k: usize = 0;
            while k < count
                invariant
                    k <= count,
                    count == cut_hi - cut_lo,
                    cut_lo < cut_hi <= n,
                    n == s0.len(),
                    self.regions@ =~= s0.subrange(0, cut_lo as int) + s0.subrange(
                        cut_lo as int + k as int,
                        n as int,
                    ),
                decreases count - k,
            {
                self.regions.remove(cut_lo);
                proof {
                    assert(self.regions@ =~= s0.subrange(0, cut_lo as int) + s0.subrange(
                        cut_lo as int + k as int + 1,
                        n as int,
                    ));
                }
                k = k + 1;
            }
            self.regions.insert(cut_lo, m);
            proof {
                let loi = cut_lo as int;
                let hii = cut_hi as int;
                let s1 = self.regions@;
                assert(s1 =~= s0.subrange(0, loi) + seq![m] + s0.subrange(hii, n as int));
                assert forall|i: int| 0 <= i < loi implies (#[trigger] s0[i]).end < m.start by {
                    assert(s0[i].end < new_start);
                    assert(s0[i].end < s0[loi].start);
                }
                assert forall|i: int| hii <= i < s0.len() implies (#[trigger] s0[i]).start
                    > m.end by {
                    assert(s0[i].start > new_end);
                    assert(s0[hii - 1].end < s0[i].start);
                }
                lemma_splice(s0, loi, hii, m, s1);
                // Every replaced region lies inside the merged one.
                assert forall|i: int| loi <= i < hii implies m.start <= (#[trigger] s0[i]).start
                    && s0[i].end <= m.end by {
                    if i > loi {
                        assert(s0[loi].end < s0[i].start);
                    }
                    if i < hii - 1 {
                        assert(s0[i].end < s0[hii - 1].start);
                    }
                }
                assert forall|a: int|
                    covered(s1, a) <==> covered(s0, a) || (new_start <= a < new_end) by {
                    if covered(s1, a) {
                        if !outside_covered(s0, loi, hii, a) {
                            // `a` lies in the merged region: it was either
                            // already covered by a boundary region or lies
                            // in the new interval.
                            if a < new_start {
                                assert(s0[loi].start <= a < s0[loi].end);
                                assert(covered(s0, a));
                            } else if a >= new_end {
                                assert(s0[hii - 1].start <= a < s0[hii - 1].end);
                                assert(covered(s0, a));
                            }
                        } else {
                            let i = choose|i: int|
                                (0 <= i < loi || hii <= i < s0.len()) && (#[trigger] s0[i]).start
                                    <= a < s0[i].end;
                            assert(covered(s0, a));
                        }
                    }
                    if covered(s0, a) {
                        let i = choose|i: int|
                            0 <= i < s0.len() && (#[trigger] s0[i]).start <= a < s0[i].end;
                        if i < loi || hii <= i {
                            assert(outside_covered(s0, loi, hii, a));
                        } else {
                            assert(m.start <= a < m.end);
                        }
                    }
                    if new_start <= a < new_end {
                        assert(m.start <= a < m.end);
                    }
                }
            }
        }
    }
}

} // verus!

