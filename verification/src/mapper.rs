//! Coordinate mapper: a sorted list of per-hunk line-count deltas, used to
//! map a base row to the corresponding row in a derived space (theirs or
//! ours) by summing the deltas of every change at or before that row.

use vstd::prelude::*;
use crate::diff::MAX_LINES;
use crate::hunks::{hunk_views, Hunk, HunkView};

verus! {

/// One accumulated change: at base row `base_row`, the derived space gains
/// `delta` lines relative to the base (negative when it loses lines).
#[derive(Clone, Copy, PartialEq, Eq, Structural, Debug)]
pub struct ChangeOffset {
    pub base_row: u32,
    pub delta: i32,
}

/// Maps rows of the base space into one derived space, given the offsets of
/// the pending hunks of that space, sorted by base row.
#[derive(Debug)]
pub struct CoordinateMapper {
    pub offsets: Vec<ChangeOffset>,
}

/// The sum of the deltas of every offset whose base row is at or before
/// `row`.
pub open spec fn prefix_delta(offsets: Seq<ChangeOffset>, row: u32) -> int
    decreases offsets.len(),
{
    if offsets.len() == 0 {
        0int
    } else {
        (if offsets.first().base_row <= row {
            offsets.first().delta as int
        } else {
            0int
        }) + prefix_delta(offsets.drop_first(), row)
    }
}

/// The sum of the deltas of the offsets exactly at `row`.
pub open spec fn row_delta(offsets: Seq<ChangeOffset>, row: u32) -> int
    decreases offsets.len(),
{
    if offsets.len() == 0 {
        0int
    } else {
        (if offsets.first().base_row == row {
            offsets.first().delta as int
        } else {
            0int
        }) + row_delta(offsets.drop_first(), row)
    }
}

/// A row clamped into the representable range: never below zero, saturated
/// at the largest row.
pub open spec fn clamp_row(v: int) -> int {
    if v < 0 {
        0int
    } else if v > u32::MAX {
        u32::MAX as int
    } else {
        v
    }
}

/// Where `row` of the base space falls in the derived space: the row plus
/// every delta at or before it, clamped to be non-negative (and saturated at
/// the largest representable row).
pub open spec fn mapped_row(offsets: Seq<ChangeOffset>, row: u32) -> int {
    clamp_row(row + prefix_delta(offsets, row))
}

/// The offsets are sorted by base row.
pub open spec fn offsets_sorted(offsets: Seq<ChangeOffset>) -> bool {
    forall|i: int, j: int|
        0 <= i < j < offsets.len() ==> (#[trigger] offsets[i]).base_row <= (
        #[trigger] offsets[j]).base_row
}

/// The offset of one hunk: its net line delta, anchored at its base start.
pub open spec fn offset_of(h: HunkView) -> ChangeOffset {
    ChangeOffset {
        base_row: h.base_start,
        delta: ((h.source_end - h.source_start) - (h.base_end - h.base_start)) as i32,
    }
}

/// One offset per `Pending` hunk, in list order.
pub open spec fn offsets_of(hunks: Seq<HunkView>) -> Seq<ChangeOffset>
    decreases hunks.len(),
{
    if hunks.len() == 0 {
        Seq::<ChangeOffset>::empty()
    } else {
        let rest = offsets_of(hunks.drop_last());
        if hunks.last().status is Pending {
            rest.push(offset_of(hunks.last()))
        } else {
            rest
        }
    }
}

/// `e` inserted into `s` behind every offset whose base row is at most its
/// own: the insertion step of a stable insertion sort.
pub open spec fn insert_offset(s: Seq<ChangeOffset>, e: ChangeOffset) -> Seq<ChangeOffset>
    decreases s.len(),
{
    if s.len() == 0 {
        seq![e]
    } else if s.last().base_row <= e.base_row {
        s.push(e)
    } else {
        insert_offset(s.drop_last(), e).push(s.last())
    }
}

/// The offsets sorted by base row, stably.
pub open spec fn sort_offsets(s: Seq<ChangeOffset>) -> Seq<ChangeOffset>
    decreases s.len(),
{
    if s.len() == 0 {
        Seq::<ChangeOffset>::empty()
    } else {
        insert_offset(sort_offsets(s.drop_last()), s.last())
    }
}

/// What `CoordinateMapper::from_pending_hunks` stores.
pub open spec fn mapper_offsets(hunks: Seq<HunkView>) -> Seq<ChangeOffset> {
    sort_offsets(offsets_of(hunks))
}

/// Every row range of the hunk is ordered and within the line bound.
pub open spec fn hunk_ranges_wf(h: HunkView) -> bool {
    &&& h.source_start <= h.source_end
    &&& h.source_end <= MAX_LINES
    &&& h.base_start <= h.base_end
    &&& h.base_end <= MAX_LINES
}

/// Inserting keeps sortedness.
proof fn lemma_insert_offset_sorted(s: Seq<ChangeOffset>, e: ChangeOffset)
    requires
        offsets_sorted(s),
    ensures
        offsets_sorted(insert_offset(s, e)),
        insert_offset(s, e).len() == s.len() + 1,
        forall|k: int|
            0 <= k < insert_offset(s, e).len() ==> (#[trigger] insert_offset(s, e)[k]).base_row
                <= e.base_row || exists|m: int|
                0 <= m < s.len() && insert_offset(s, e)[k] == s[m],
    decreases s.len(),
{
    let r = insert_offset(s, e);
    if s.len() == 0 {
    } else if s.last().base_row <= e.base_row {
        assert forall|i: int, j: int| 0 <= i < j < r.len() implies (#[trigger] r[i]).base_row <= (
        #[trigger] r[j]).base_row by {
            if j < s.len() {
            } else {
                assert(r[j] == e);
                if i < s.len() - 1 {
                    assert(s[i].base_row <= s[s.len() - 1].base_row);
                }
            }
        }
        assert forall|k: int| 0 <= k < r.len() implies (#[trigger] r[k]).base_row <= e.base_row
            || exists|m: int| 0 <= m < s.len() && r[k] == s[m] by {
            if k < s.len() {
                assert(r[k] == s[k]);
            }
        }
    } else {
        assert(offsets_sorted(s.drop_last())) by {
            assert(forall|i: int, j: int|
                0 <= i < j < s.drop_last().len() ==> (#[trigger] s.drop_last()[i]).base_row <= (
                #[trigger] s.drop_last()[j]).base_row);
        }
        lemma_insert_offset_sorted(s.drop_last(), e);
        let inner = insert_offset(s.drop_last(), e);
        assert(r == inner.push(s.last()));
        assert forall|i: int, j: int| 0 <= i < j < r.len() implies (#[trigger] r[i]).base_row <= (
        #[trigger] r[j]).base_row by {
            if j == r.len() - 1 {
                assert(r[j] == s.last());
                assert(r[i] == inner[i]);
                if inner[i].base_row <= e.base_row {
                    assert(e.base_row <= s.last().base_row);
                } else {
                    let m = choose|m: int| 0 <= m < s.drop_last().len() && inner[i] == s.drop_last()[m];
                    assert(s[m].base_row <= s.last().base_row);
                }
            } else {
                assert(r[i] == inner[i] && r[j] == inner[j]);
            }
        }
        assert forall|k: int| 0 <= k < r.len() implies (#[trigger] r[k]).base_row <= e.base_row
            || exists|m: int| 0 <= m < s.len() && r[k] == s[m] by {
            if k == r.len() - 1 {
                assert(r[k] == s[s.len() - 1]);
            } else {
                assert(r[k] == inner[k]);
                if !(inner[k].base_row <= e.base_row) {
                    let m = choose|m: int| 0 <= m < s.drop_last().len() && inner[k] == s.drop_last()[m];
                    assert(r[k] == s[m]);
                }
            }
        }
    }
}

/// The stable sort really sorts.
pub proof fn lemma_sort_offsets_sorted(s: Seq<ChangeOffset>)
    ensures
        offsets_sorted(sort_offsets(s)),
    decreases s.len(),
{
    if s.len() > 0 {
        lemma_sort_offsets_sorted(s.drop_last());
        lemma_insert_offset_sorted(sort_offsets(s.drop_last()), s.last());
    }
}

impl CoordinateMapper {
    /// The offsets, sorted by base row.
    pub open spec fn wf(&self) -> bool {
        offsets_sorted(self.offsets@)
    }

    /// An empty mapper: every row maps to itself.
    pub fn new() -> (r: CoordinateMapper)
        ensures
            r.offsets@ == Seq::<ChangeOffset>::empty(),
            r.wf(),
    {
        CoordinateMapper { offsets: Vec::new() }
    }

    /// Builds the mapper of one side: one offset per `Pending` hunk, its
    /// net line delta anchored at the hunk's base start, sorted by base
    /// row.
    pub fn from_pending_hunks(hunks: &Vec<Hunk>) -> (r: CoordinateMapper)
        requires
            forall|k: int| 0 <= k < hunks@.len() ==> hunk_ranges_wf(#[trigger] hunks@[k]@),
        ensures
            r.offsets@ == mapper_offsets(hunk_views(hunks@)),
            r.wf(),
            r.offsets@.len() <= hunks@.len(),
    {
        let mut raw: Vec<ChangeOffset> = Vec::new();
        let n = hunks.len();
        let mut i: usize = 0;
        while i < n
            invariant
                n == hunks@.len(),
                i <= n,
                forall|k: int| 0 <= k < hunks@.len() ==> hunk_ranges_wf(#[trigger] hunks@[k]@),
                raw@ == offsets_of(hunk_views(hunks@).subrange(0, i as int)),
                raw@.len() <= i,
            decreases n - i,
        {
            let h = &hunks[i];
            proof {
                let hv = hunk_views(hunks@);
                let pre = hv.subrange(0, i as int + 1);
                assert(pre.drop_last() =~= hv.subrange(0, i as int));
                assert(pre.last() == hv[i as int]);
                assert(hv[i as int] == hunks@[i as int]@);
                assert(hunk_ranges_wf(hunks@[i as int]@));
            }
            match h.status {
                crate::hunks::HunkStatus::Pending => {
                    let source_len = h.source_end - h.source_start;
                    let base_len = h.base_end - h.base_start;
                    let delta: i32 = source_len as i32 - base_len as i32;
                    raw.push(ChangeOffset { base_row: h.base_start, delta });
                    proof {
                        assert(ChangeOffset { base_row: h.base_start, delta } == offset_of(
                            hunks@[i as int]@,
                        ));
                        assert(raw@ =~= offsets_of(hunk_views(hunks@).subrange(0, i as int + 1)));
                    }
                },
                _ => {
                    proof {
                        assert(raw@ =~= offsets_of(hunk_views(hunks@).subrange(0, i as int + 1)));
                    }
                },
            }
            i = i + 1;
        }
        proof {
            assert(hunk_views(hunks@).subrange(0, n as int) =~= hunk_views(hunks@));
        }
        let mut sorted: Vec<ChangeOffset> = Vec::new();
        let m = raw.len();
        let mut j: usize = 0;
        while j < m
            invariant
                m == raw@.len(),
                j <= m,
                sorted@ == sort_offsets(raw@.subrange(0, j as int)),
                sorted@.len() == j,
            decreases m - j,
        {
            let e = raw[j];
            let ghost s0 = sorted@;
            let mut p: usize = sorted.len();
            proof {
                assert(s0.subrange(0, s0.len() as int) =~= s0);
                assert(s0.subrange(s0.len() as int, s0.len() as int) =~= Seq::<
                    ChangeOffset,
                >::empty());
                assert(insert_offset(s0, e) + Seq::<ChangeOffset>::empty() =~= insert_offset(
                    s0,
                    e,
                ));
            }
            while p > 0 && !(sorted[p - 1].base_row <= e.base_row)
                invariant
                    p <= s0.len(),
                    sorted@ == s0,
                    insert_offset(s0, e) == insert_offset(s0.subrange(0, p as int), e)
                        + s0.subrange(p as int, s0.len() as int),
                decreases p,
            {
                proof {
                    let pre = s0.subrange(0, p as int);
                    assert(pre.last() == s0[p - 1]);
                    assert(pre.drop_last() =~= s0.subrange(0, p - 1));
                    assert(insert_offset(pre, e) == insert_offset(s0.subrange(0, p - 1), e).push(
                        s0[p - 1],
                    ));
                    assert(insert_offset(s0.subrange(0, p - 1), e).push(s0[p - 1]) + s0.subrange(
                        p as int,
                        s0.len() as int,
                    ) =~= insert_offset(s0.subrange(0, p - 1), e) + s0.subrange(
                        p - 1,
                        s0.len() as int,
                    ));
                }
                p = p - 1;
            }
            proof {
                let pre = s0.subrange(0, p as int);
                if p == 0 {
                    assert(pre =~= Seq::<ChangeOffset>::empty());
                    assert(insert_offset(pre, e) =~= seq![e]);
                } else {
                    assert(pre.last() == s0[p - 1]);
                    assert(insert_offset(pre, e) == pre.push(e));
                }
                assert(insert_offset(s0, e) =~= s0.subrange(0, p as int).push(e) + s0.subrange(
                    p as int,
                    s0.len() as int,
                ));
                assert(s0.subrange(0, p as int).push(e) + s0.subrange(p as int, s0.len() as int)
                    =~= s0.insert(p as int, e));
            }
            sorted.insert(p, e);
            j = j + 1;
            proof {
                let pre = raw@.subrange(0, j as int);
                assert(pre.drop_last() =~= raw@.subrange(0, j - 1));
                assert(pre.last() == raw@[j - 1]);
            }
        }
        proof {
            assert(raw@.subrange(0, m as int) =~= raw@);
            lemma_sort_offsets_sorted(raw@);
        }
        CoordinateMapper { offsets: sorted }
    }

    /// Maps a base row into the derived space: the row plus the sum of the
    /// deltas of every change at or before it, clamped to be non-negative
    /// (and saturated at the largest representable row).
    pub fn map(&self, base_row: u32) -> (r: u32)
        ensures
            r as int == mapped_row(self.offsets@, base_row),
    {
        let n = self.offsets.len();
        let mut sum: i128 = 0;
        let mut i: usize = 0;
        proof {
            assert(self.offsets@.subrange(0, n as int) =~= self.offsets@);
        }
        while i < n
            invariant
                n == self.offsets@.len(),
                i <= n,
                sum == prefix_delta(self.offsets@, base_row) - prefix_delta(
                    self.offsets@.subrange(i as int, n as int),
                    base_row,
                ),
                -(i as int) * (i32::MAX as int + 1) <= sum <= (i as int) * (i32::MAX as int),
            decreases n - i,
        {
            let off = self.offsets[i];
            proof {
                let suf = self.offsets@.subrange(i as int, n as int);
                assert(suf.first() == self.offsets@[i as int]);
                assert(suf.drop_first() =~= self.offsets@.subrange(i as int + 1, n as int));
            }
            if off.base_row <= base_row {
                sum = sum + off.delta as i128;
            }
            proof {
                assert((i as int + 1) * (i32::MAX as int + 1) == (i as int) * (i32::MAX as int + 1)
                    + (i32::MAX as int + 1)) by (nonlinear_arith);
                assert((i as int + 1) * (i32::MAX as int) == (i as int) * (i32::MAX as int) + (
                i32::MAX as int)) by (nonlinear_arith);
            }
            i = i + 1;
        }
        proof {
            assert(self.offsets@.subrange(n as int, n as int) =~= Seq::<ChangeOffset>::empty());
            assert(sum == prefix_delta(self.offsets@, base_row));
        }
        let v: i128 = base_row as i128 + sum;
        if v < 0 {
            0
        } else if v > u32::MAX as i128 {
            u32::MAX
        } else {
            v as u32
        }
    }
}

/// Walking the query one row up adds exactly the deltas at that row.
proof fn lemma_prefix_delta_step(offsets: Seq<ChangeOffset>, row: u32)
    requires
        row < u32::MAX,
    ensures
        prefix_delta(offsets, (row + 1) as u32) == prefix_delta(offsets, row) + row_delta(
            offsets,
            (row + 1) as u32,
        ),
    decreases offsets.len(),
{
    if offsets.len() > 0 {
        lemma_prefix_delta_step(offsets.drop_first(), row);
    }
}

/// Coordinate mapping is monotone: when no single base row loses more than
/// one line in total, a later base row never maps before an earlier one.
/// (A single deletion of two or more lines makes the rows inside it map
/// below the row just before it, so those inputs are excluded.)
pub proof fn lemma_map_monotone(offsets: Seq<ChangeOffset>, r1: u32, r2: u32)
    requires
        r1 <= r2,
        forall|b: u32| row_delta(offsets, b) >= -1,
    ensures
        mapped_row(offsets, r1) <= mapped_row(offsets, r2),
    decreases r2 - r1,
{
    if r1 < r2 {
        let mid = (r2 - 1) as u32;
        lemma_map_monotone(offsets, r1, mid);
        lemma_prefix_delta_step(offsets, mid);
        assert(row_delta(offsets, r2) >= -1);
        assert(r2 + prefix_delta(offsets, r2) >= mid + prefix_delta(offsets, mid));
    }
}

} // verus!
