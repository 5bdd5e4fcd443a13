//! Alignment planner: computes, for each conflict region, the padding each
//! coordinate space needs so that all spaces show the same number of lines
//! for that region, and the highlight spans the rendering layer colorizes.

use vstd::prelude::*;
use crate::diff::MAX_LINES;
use crate::hunks::{hunk_views, Hunk, HunkKind, HunkView, Side};
use crate::mapper::{hunk_ranges_wf, mapped_row, mapper_offsets, ChangeOffset, CoordinateMapper};
use crate::regions::{region_views, ConflictRegion, RegionView};

verus! {

/// The coordinate space a padding instruction or highlight span belongs to:
/// the two spaces of a side-by-side comparison, or the three of a merge.
#[derive(Clone, Copy, PartialEq, Eq, Structural, Debug)]
pub enum PadTarget {
    /// The old text of a two-way comparison.
    Old,
    /// The new text of a two-way comparison.
    New,
    Theirs,
    Base,
    Ours,
}

/// One padding block: `line_count` blank lines inserted above
/// `insertion_row` of the target space. Base-space padding carries the side
/// whose lines the blank space stands for, as a display hint.
#[derive(Clone, Copy, PartialEq, Eq, Debug)]
pub struct PaddingInstruction {
    pub target: PadTarget,
    pub insertion_row: u32,
    pub line_count: u32,
    pub origin: Option<Side>,
}

/// One highlight: a row range of one space, with the change kind and, for
/// merge views, the side the change came from.
#[derive(Clone, Copy, PartialEq, Eq, Debug)]
pub struct HighlightSpan {
    pub space: PadTarget,
    pub start: u32,
    pub end: u32,
    pub kind: HunkKind,
    pub origin: Option<Side>,
}

/// The total length of a list of half-open row ranges.
pub open spec fn sum_lens(rs: Seq<(u32, u32)>) -> int
    decreases rs.len(),
{
    if rs.len() == 0 {
        0int
    } else {
        (rs.first().1 - rs.first().0) + sum_lens(rs.drop_first())
    }
}

/// Every range is ordered.
pub open spec fn ranges_wf(rs: Seq<(u32, u32)>) -> bool {
    forall|k: int| 0 <= k < rs.len() ==> (#[trigger] rs[k]).0 <= rs[k].1
}

/// A region the planner accepts: ordered ranges, and each side's total
/// small enough for row arithmetic.
pub open spec fn region_wf(r: RegionView) -> bool {
    &&& r.base_start <= r.base_end
    &&& ranges_wf(r.theirs_ranges)
    &&& ranges_wf(r.ours_ranges)
    &&& sum_lens(r.theirs_ranges) <= MAX_LINES
    &&& sum_lens(r.ours_ranges) <= MAX_LINES
}

/// How many base lines the region spans.
pub open spec fn base_count(r: RegionView) -> int {
    r.base_end - r.base_start
}

/// How many lines the theirs space shows for the region: the total of its
/// tracked ranges, or the base count when theirs is unchanged there.
pub open spec fn theirs_count(r: RegionView) -> int {
    if r.theirs_ranges.len() == 0 {
        base_count(r)
    } else {
        sum_lens(r.theirs_ranges)
    }
}

/// How many lines the ours space shows for the region.
pub open spec fn ours_count(r: RegionView) -> int {
    if r.ours_ranges.len() == 0 {
        base_count(r)
    } else {
        sum_lens(r.ours_ranges)
    }
}

/// The line count all three spaces are padded up to.
pub open spec fn max_lines(r: RegionView) -> int {
    let b = base_count(r);
    let t = theirs_count(r);
    let o = ours_count(r);
    if t >= o && t >= b {
        t
    } else if o >= b {
        o
    } else {
        b
    }
}

/// Where padding for the theirs space goes: after the last tracked theirs
/// range, or, when theirs is unchanged in the region, at the region's base
/// end mapped into theirs coordinates.
pub open spec fn theirs_insert_row(r: RegionView, toff: Seq<ChangeOffset>) -> int {
    if r.theirs_ranges.len() > 0 {
        r.theirs_ranges.last().1 as int
    } else {
        mapped_row(toff, r.base_end)
    }
}

/// Where padding for the ours space goes.
pub open spec fn ours_insert_row(r: RegionView, ooff: Seq<ChangeOffset>) -> int {
    if r.ours_ranges.len() > 0 {
        r.ours_ranges.last().1 as int
    } else {
        mapped_row(ooff, r.base_end)
    }
}

/// The padding instructions of one region: one per space that shows fewer
/// than `max_lines` lines, in the order theirs, base, ours; none at all for
/// a degenerate region (`max_lines` zero). Base padding carries the side
/// with more lines as its origin, theirs on a tie.
pub open spec fn plan_region(r: RegionView, toff: Seq<ChangeOffset>, ooff: Seq<ChangeOffset>) -> Seq<
    PaddingInstruction,
> {
    let b = base_count(r);
    let t = theirs_count(r);
    let o = ours_count(r);
    let m = max_lines(r);
    if m == 0 {
        Seq::<PaddingInstruction>::empty()
    } else {
        (if t < m {
            seq![
                PaddingInstruction {
                    target: PadTarget::Theirs,
                    insertion_row: theirs_insert_row(r, toff) as u32,
                    line_count: (m - t) as u32,
                    origin: None,
                },
            ]
        } else {
            Seq::<PaddingInstruction>::empty()
        }) + (if b < m {
            seq![
                PaddingInstruction {
                    target: PadTarget::Base,
                    insertion_row: r.base_end,
                    line_count: (m - b) as u32,
                    origin: Some(if t >= o { Side::Theirs } else { Side::Ours }),
                },
            ]
        } else {
            Seq::<PaddingInstruction>::empty()
        }) + (if o < m {
            seq![
                PaddingInstruction {
                    target: PadTarget::Ours,
                    insertion_row: ours_insert_row(r, ooff) as u32,
                    line_count: (m - o) as u32,
                    origin: None,
                },
            ]
        } else {
            Seq::<PaddingInstruction>::empty()
        })
    }
}

/// The padding instructions of all regions, in region order.
pub open spec fn plan_alignment_spec(
    rs: Seq<RegionView>,
    toff: Seq<ChangeOffset>,
    ooff: Seq<ChangeOffset>,
) -> Seq<PaddingInstruction>
    decreases rs.len(),
{
    if rs.len() == 0 {
        Seq::<PaddingInstruction>::empty()
    } else {
        plan_alignment_spec(rs.drop_last(), toff, ooff) + plan_region(rs.last(), toff, ooff)
    }
}

/// Splitting a range list splits its total length.
proof fn lemma_sum_lens_split(rs: Seq<(u32, u32)>, i: int)
    requires
        0 <= i <= rs.len(),
    ensures
        sum_lens(rs) == sum_lens(rs.subrange(0, i)) + sum_lens(rs.subrange(i, rs.len() as int)),
    decreases i,
{
    if i == 0 {
        assert(rs.subrange(0, 0) =~= Seq::<(u32, u32)>::empty());
        assert(rs.subrange(0, rs.len() as int) =~= rs);
    } else {
        let head = rs.subrange(0, i);
        assert(head.first() == rs[0]);
        assert(head.drop_first() =~= rs.subrange(1, i));
        assert(rs.drop_first() =~= rs.subrange(1, rs.len() as int));
        lemma_sum_lens_split(rs.drop_first(), i - 1);
        assert(rs.subrange(1, rs.len() as int).subrange(0, i - 1) =~= rs.subrange(1, i));
        assert(rs.subrange(1, rs.len() as int).subrange(i - 1, rs.len() - 1) =~= rs.subrange(
            i,
            rs.len() as int,
        ));
    }
}

/// Appending one range adds its length to the total.
proof fn lemma_sum_lens_push(rs: Seq<(u32, u32)>, x: (u32, u32))
    ensures
        sum_lens(rs.push(x)) == sum_lens(rs) + (x.1 - x.0),
    decreases rs.len(),
{
    if rs.len() == 0 {
        assert(rs.push(x).first() == x);
        assert(rs.push(x).drop_first() =~= Seq::<(u32, u32)>::empty());
        assert(sum_lens(Seq::<(u32, u32)>::empty()) == 0);
    } else {
        assert(rs.push(x).first() == rs.first());
        assert(rs.push(x).drop_first() =~= rs.drop_first().push(x));
        lemma_sum_lens_push(rs.drop_first(), x);
    }
}

/// A list of ordered ranges has a non-negative total length.
proof fn lemma_sum_lens_nonneg(rs: Seq<(u32, u32)>)
    requires
        ranges_wf(rs),
    ensures
        sum_lens(rs) >= 0,
    decreases rs.len(),
{
    if rs.len() > 0 {
        assert(ranges_wf(rs.drop_first())) by {
            assert(forall|k: int|
                0 <= k < rs.drop_first().len() ==> rs.drop_first()[k] == rs[k + 1]);
        }
        lemma_sum_lens_nonneg(rs.drop_first());
    }
}

/// Adds up the lengths of a list of ordered ranges.
fn sum_range_lens(rs: &Vec<(u32, u32)>) -> (r: u64)
    requires
        ranges_wf(rs@),
        sum_lens(rs@) <= MAX_LINES,
    ensures
        r as int == sum_lens(rs@),
{
    let n = rs.len();
    let mut sum: u64 = 0;
    let mut i: usize = 0;
    proof {
        lemma_sum_lens_split(rs@, 0);
    }
    while i < n
        invariant
            n == rs@.len(),
            i <= n,
            ranges_wf(rs@),
            sum_lens(rs@) <= MAX_LINES,
            sum as int == sum_lens(rs@.subrange(0, i as int)),
            sum as int <= MAX_LINES,
        decreases n - i,
    {
        let (s, e) = rs[i];
        proof {
            assert(rs@.subrange(0, i as int + 1) =~= rs@.subrange(0, i as int).push(rs@[i as int]));
            lemma_sum_lens_push(rs@.subrange(0, i as int), rs@[i as int]);
            lemma_sum_lens_split(rs@, i as int + 1);
            assert(ranges_wf(rs@.subrange(i as int + 1, n as int)));
            lemma_sum_lens_nonneg(rs@.subrange(i as int + 1, n as int));
        }
        sum = sum + (e - s) as u64;
        i = i + 1;
    }
    proof {
        assert(rs@.subrange(0, n as int) =~= rs@);
    }
    sum
}

/// The line count of one space of a region, as the planner uses it.
fn region_counts(region: &ConflictRegion) -> (r: (u32, u32, u32))
    requires
        region_wf(region@),
    ensures
        r.0 as int == base_count(region@),
        r.1 as int == theirs_count(region@),
        r.2 as int == ours_count(region@),
{
    let b = region.base_end - region.base_start;
    let t = if region.theirs_ranges.len() == 0 {
        b
    } else {
        sum_range_lens(&region.theirs_ranges) as u32
    };
    let o = if region.ours_ranges.len() == 0 {
        b
    } else {
        sum_range_lens(&region.ours_ranges) as u32
    };
    (b, t, o)
}

/// Plans the padding of every region: for each region, each space that
/// shows fewer lines than the region's maximum gets one instruction that
/// brings it up to that maximum; regions spanning no lines at all are
/// skipped. Padding for an unchanged space is anchored at the region's base
/// end mapped through that space's coordinate mapper.
pub fn plan_alignment(
    regions: &Vec<ConflictRegion>,
    theirs_map: &CoordinateMapper,
    ours_map: &CoordinateMapper,
) -> (r: Vec<PaddingInstruction>)
    requires
        forall|k: int| 0 <= k < regions@.len() ==> region_wf(#[trigger] regions@[k]@),
    ensures
        r@ == plan_alignment_spec(region_views(regions@), theirs_map.offsets@, ours_map.offsets@),
{
    let ghost toff = theirs_map.offsets@;
    let ghost ooff = ours_map.offsets@;
    let mut out: Vec<PaddingInstruction> = Vec::new();
    let n = regions.len();
    let mut i: usize = 0;
    while i < n
        invariant
            n == regions@.len(),
            i <= n,
            forall|k: int| 0 <= k < regions@.len() ==> region_wf(#[trigger] regions@[k]@),
            toff == theirs_map.offsets@,
            ooff == ours_map.offsets@,
            out@ == plan_alignment_spec(region_views(regions@).subrange(0, i as int), toff, ooff),
        decreases n - i,
    {
        let region = &regions[i];
        let ghost rv = regions@[i as int]@;
        proof {
            let pre = region_views(regions@).subrange(0, i as int + 1);
            assert(pre.drop_last() =~= region_views(regions@).subrange(0, i as int));
            assert(pre.last() == region_views(regions@)[i as int]);
            assert(region_views(regions@)[i as int] == rv);
        }
        let (b, t, o) = region_counts(region);
        let m = if t >= o && t >= b {
            t
        } else if o >= b {
            o
        } else {
            b
        };
        proof {
            assert(m as int == max_lines(rv));
        }
        if m > 0 {
            if t < m {
                let row = if region.theirs_ranges.len() > 0 {
                    region.theirs_ranges[region.theirs_ranges.len() - 1].1
                } else {
                    theirs_map.map(region.base_end)
                };
                proof {
                    assert(row as int == theirs_insert_row(rv, toff));
                }
                out.push(
                    PaddingInstruction {
                        target: PadTarget::Theirs,
                        insertion_row: row,
                        line_count: m - t,
                        origin: None,
                    },
                );
            }
            if b < m {
                let origin = if t >= o {
                    Side::Theirs
                } else {
                    Side::Ours
                };
                out.push(
                    PaddingInstruction {
                        target: PadTarget::Base,
                        insertion_row: region.base_end,
                        line_count: m - b,
                        origin: Some(origin),
                    },
                );
            }
            if o < m {
                let row = if region.ours_ranges.len() > 0 {
                    region.ours_ranges[region.ours_ranges.len() - 1].1
                } else {
                    ours_map.map(region.base_end)
                };
                proof {
                    assert(row as int == ours_insert_row(rv, ooff));
                }
                out.push(
                    PaddingInstruction {
                        target: PadTarget::Ours,
                        insertion_row: row,
                        line_count: m - o,
                        origin: None,
                    },
                );
            }
        }
        i = i + 1;
        proof {
            assert(out@ =~= plan_alignment_spec(
                region_views(regions@).subrange(0, i as int),
                toff,
                ooff,
            ));
        }
    }
    proof {
        assert(region_views(regions@).subrange(0, n as int) =~= region_views(regions@));
    }
    out
}

/// The padding one target space receives from a list of instructions.
pub open spec fn pad_for(insts: Seq<PaddingInstruction>, target: PadTarget) -> int
    decreases insts.len(),
{
    if insts.len() == 0 {
        0int
    } else {
        (if insts.first().target == target {
            insts.first().line_count as int
        } else {
            0int
        }) + pad_for(insts.drop_first(), target)
    }
}

/// A single instruction pads its own target by its line count and every
/// other target by nothing.
proof fn lemma_pad_for_single(inst: PaddingInstruction, t: PadTarget)
    ensures
        pad_for(seq![inst], t) == if inst.target == t {
            inst.line_count as int
        } else {
            0int
        },
{
    assert(seq![inst].first() == inst);
    assert(seq![inst].drop_first() =~= Seq::<PaddingInstruction>::empty());
    assert(pad_for(Seq::<PaddingInstruction>::empty(), t) == 0);
}

/// Padding distributes over concatenation.
proof fn lemma_pad_for_concat(a: Seq<PaddingInstruction>, b: Seq<PaddingInstruction>, t: PadTarget)
    ensures
        pad_for(a + b, t) == pad_for(a, t) + pad_for(b, t),
    decreases a.len(),
{
    if a.len() == 0 {
        assert(a + b =~= b);
    } else {
        assert((a + b).first() == a.first());
        assert((a + b).drop_first() =~= a.drop_first() + b);
        lemma_pad_for_concat(a.drop_first(), b, t);
    }
}

/// Alignment invariant: for a region that spans any lines at all, each
/// space's own line count plus the padding planned for it comes to exactly
/// the region's maximum, so all three spaces show the same number of lines
/// once the padding is applied.
pub proof fn lemma_alignment_balances(r: RegionView, toff: Seq<ChangeOffset>, ooff: Seq<ChangeOffset>)
    requires
        region_wf(r),
        max_lines(r) > 0,
    ensures
        theirs_count(r) + pad_for(plan_region(r, toff, ooff), PadTarget::Theirs) == max_lines(r),
        base_count(r) + pad_for(plan_region(r, toff, ooff), PadTarget::Base) == max_lines(r),
        ours_count(r) + pad_for(plan_region(r, toff, ooff), PadTarget::Ours) == max_lines(r),
{
    let b = base_count(r);
    let t = theirs_count(r);
    let o = ours_count(r);
    let m = max_lines(r);
    lemma_sum_lens_nonneg(r.theirs_ranges);
    lemma_sum_lens_nonneg(r.ours_ranges);
    let pt = if t < m {
        seq![
            PaddingInstruction {
                target: PadTarget::Theirs,
                insertion_row: theirs_insert_row(r, toff) as u32,
                line_count: (m - t) as u32,
                origin: None,
            },
        ]
    } else {
        Seq::<PaddingInstruction>::empty()
    };
    let pb = if b < m {
        seq![
            PaddingInstruction {
                target: PadTarget::Base,
                insertion_row: r.base_end,
                line_count: (m - b) as u32,
                origin: Some(if t >= o { Side::Theirs } else { Side::Ours }),
            },
        ]
    } else {
        Seq::<PaddingInstruction>::empty()
    };
    let po = if o < m {
        seq![
            PaddingInstruction {
                target: PadTarget::Ours,
                insertion_row: ours_insert_row(r, ooff) as u32,
                line_count: (m - o) as u32,
                origin: None,
            },
        ]
    } else {
        Seq::<PaddingInstruction>::empty()
    };
    assert(plan_region(r, toff, ooff) == pt + pb + po);
    lemma_pad_for_concat(pt + pb, po, PadTarget::Theirs);
    lemma_pad_for_concat(pt, pb, PadTarget::Theirs);
    lemma_pad_for_concat(pt + pb, po, PadTarget::Base);
    lemma_pad_for_concat(pt, pb, PadTarget::Base);
    lemma_pad_for_concat(pt + pb, po, PadTarget::Ours);
    lemma_pad_for_concat(pt, pb, PadTarget::Ours);
    assert(pad_for(Seq::<PaddingInstruction>::empty(), PadTarget::Theirs) == 0);
    assert(pad_for(Seq::<PaddingInstruction>::empty(), PadTarget::Base) == 0);
    assert(pad_for(Seq::<PaddingInstruction>::empty(), PadTarget::Ours) == 0);
    if t < m {
        lemma_pad_for_single(pt.first(), PadTarget::Theirs);
        lemma_pad_for_single(pt.first(), PadTarget::Base);
        lemma_pad_for_single(pt.first(), PadTarget::Ours);
        assert(pt =~= seq![pt.first()]);
    }
    if b < m {
        lemma_pad_for_single(pb.first(), PadTarget::Theirs);
        lemma_pad_for_single(pb.first(), PadTarget::Base);
        lemma_pad_for_single(pb.first(), PadTarget::Ours);
        assert(pb =~= seq![pb.first()]);
    }
    if o < m {
        lemma_pad_for_single(po.first(), PadTarget::Theirs);
        lemma_pad_for_single(po.first(), PadTarget::Base);
        lemma_pad_for_single(po.first(), PadTarget::Ours);
        assert(po =~= seq![po.first()]);
    }
}


/// The highlight spans of one two-way hunk: added lines highlight in the
/// new space, deleted lines in the old space, a modification in both.
pub open spec fn two_way_spans_of(h: HunkView) -> Seq<HighlightSpan> {
    match h.kind {
        HunkKind::Added => if h.source_start < h.source_end {
            seq![
                HighlightSpan {
                    space: PadTarget::New,
                    start: h.source_start,
                    end: h.source_end,
                    kind: HunkKind::Added,
                    origin: None,
                },
            ]
        } else {
            Seq::<HighlightSpan>::empty()
        },
        HunkKind::Deleted => if h.base_start < h.base_end {
            seq![
                HighlightSpan {
                    space: PadTarget::Old,
                    start: h.base_start,
                    end: h.base_end,
                    kind: HunkKind::Deleted,
                    origin: None,
                },
            ]
        } else {
            Seq::<HighlightSpan>::empty()
        },
        HunkKind::Modified => (if h.base_start < h.base_end {
            seq![
                HighlightSpan {
                    space: PadTarget::Old,
                    start: h.base_start,
                    end: h.base_end,
                    kind: HunkKind::Modified,
                    origin: None,
                },
            ]
        } else {
            Seq::<HighlightSpan>::empty()
        }) + (if h.source_start < h.source_end {
            seq![
                HighlightSpan {
                    space: PadTarget::New,
                    start: h.source_start,
                    end: h.source_end,
                    kind: HunkKind::Modified,
                    origin: None,
                },
            ]
        } else {
            Seq::<HighlightSpan>::empty()
        }),
    }
}

/// The highlight spans of a two-way hunk list, in hunk order.
pub open spec fn two_way_highlight_spec(hs: Seq<HunkView>) -> Seq<HighlightSpan>
    decreases hs.len(),
{
    if hs.len() == 0 {
        Seq::<HighlightSpan>::empty()
    } else {
        two_way_highlight_spec(hs.drop_last()) + two_way_spans_of(hs.last())
    }
}

/// The padding instructions of one two-way hunk: an addition pads the old
/// space at the hunk's base row by the lines added; a deletion pads the new
/// space at the hunk's source row by the lines deleted; a modification pads
/// whichever space shows fewer lines, right after its changed range.
pub open spec fn two_way_pads_of(h: HunkView) -> Seq<PaddingInstruction> {
    match h.kind {
        HunkKind::Added => if h.source_start < h.source_end {
            seq![
                PaddingInstruction {
                    target: PadTarget::Old,
                    insertion_row: h.base_start,
                    line_count: (h.source_end - h.source_start) as u32,
                    origin: None,
                },
            ]
        } else {
            Seq::<PaddingInstruction>::empty()
        },
        HunkKind::Deleted => if h.base_start < h.base_end {
            seq![
                PaddingInstruction {
                    target: PadTarget::New,
                    insertion_row: h.source_start,
                    line_count: (h.base_end - h.base_start) as u32,
                    origin: None,
                },
            ]
        } else {
            Seq::<PaddingInstruction>::empty()
        },
        HunkKind::Modified => {
            let sc = h.source_end - h.source_start;
            let bc = h.base_end - h.base_start;
            if sc > bc {
                seq![
                    PaddingInstruction {
                        target: PadTarget::Old,
                        insertion_row: h.base_end,
                        line_count: (sc - bc) as u32,
                        origin: None,
                    },
                ]
            } else if bc > sc {
                seq![
                    PaddingInstruction {
                        target: PadTarget::New,
                        insertion_row: h.source_end,
                        line_count: (bc - sc) as u32,
                        origin: None,
                    },
                ]
            } else {
                Seq::<PaddingInstruction>::empty()
            }
        },
    }
}

/// The two-way padding of a hunk list, in hunk order.
pub open spec fn two_way_pad_spec(hs: Seq<HunkView>) -> Seq<PaddingInstruction>
    decreases hs.len(),
{
    if hs.len() == 0 {
        Seq::<PaddingInstruction>::empty()
    } else {
        two_way_pad_spec(hs.drop_last()) + two_way_pads_of(hs.last())
    }
}

/// Plans the padding of a side-by-side (two-way) comparison, hunk by hunk,
/// so that the old and the new pane keep corresponding lines level.
pub fn plan_two_way_alignment(hunks: &Vec<Hunk>) -> (r: Vec<PaddingInstruction>)
    requires
        forall|k: int|
            0 <= k < hunks@.len() ==> (#[trigger] hunks@[k]).source_start <= hunks@[k].source_end
                && hunks@[k].base_start <= hunks@[k].base_end,
    ensures
        r@ == two_way_pad_spec(hunk_views(hunks@)),
{
    let mut out: Vec<PaddingInstruction> = Vec::new();
    let n = hunks.len();
    let mut i: usize = 0;
    while i < n
        invariant
            n == hunks@.len(),
            i <= n,
            forall|k: int|
                0 <= k < hunks@.len() ==> (#[trigger] hunks@[k]).source_start
                    <= hunks@[k].source_end && hunks@[k].base_start <= hunks@[k].base_end,
            out@ == two_way_pad_spec(hunk_views(hunks@).subrange(0, i as int)),
        decreases n - i,
    {
        let h = &hunks[i];
        proof {
            let hv = hunk_views(hunks@);
            let pre = hv.subrange(0, i as int + 1);
            assert(pre.drop_last() =~= hv.subrange(0, i as int));
            assert(pre.last() == hv[i as int]);
            assert(hv[i as int] == hunks@[i as int]@);
        }
        match h.kind {
            HunkKind::Added => {
                if h.source_start < h.source_end {
                    out.push(
                        PaddingInstruction {
                            target: PadTarget::Old,
                            insertion_row: h.base_start,
                            line_count: h.source_end - h.source_start,
                            origin: None,
                        },
                    );
                }
            },
            HunkKind::Deleted => {
                if h.base_start < h.base_end {
                    out.push(
                        PaddingInstruction {
                            target: PadTarget::New,
                            insertion_row: h.source_start,
                            line_count: h.base_end - h.base_start,
                            origin: None,
                        },
                    );
                }
            },
            HunkKind::Modified => {
                let sc = h.source_end - h.source_start;
                let bc = h.base_end - h.base_start;
                if sc > bc {
                    out.push(
                        PaddingInstruction {
                            target: PadTarget::Old,
                            insertion_row: h.base_end,
                            line_count: sc - bc,
                            origin: None,
                        },
                    );
                } else if bc > sc {
                    out.push(
                        PaddingInstruction {
                            target: PadTarget::New,
                            insertion_row: h.source_end,
                            line_count: bc - sc,
                            origin: None,
                        },
                    );
                }
            },
        }
        i = i + 1;
        proof {
            assert(out@ =~= two_way_pad_spec(hunk_views(hunks@).subrange(0, i as int)));
        }
    }
    proof {
        assert(hunk_views(hunks@).subrange(0, n as int) =~= hunk_views(hunks@));
    }
    out
}

/// The highlight spans of a side-by-side comparison, hunk by hunk.
pub fn two_way_highlights(hunks: &Vec<Hunk>) -> (r: Vec<HighlightSpan>)
    ensures
        r@ == two_way_highlight_spec(hunk_views(hunks@)),
{
    let mut out: Vec<HighlightSpan> = Vec::new();
    let n = hunks.len();
    let mut i: usize = 0;
    while i < n
        invariant
            n == hunks@.len(),
            i <= n,
            out@ == two_way_highlight_spec(hunk_views(hunks@).subrange(0, i as int)),
        decreases n - i,
    {
        let h = &hunks[i];
        proof {
            let hv = hunk_views(hunks@);
            let pre = hv.subrange(0, i as int + 1);
            assert(pre.drop_last() =~= hv.subrange(0, i as int));
            assert(pre.last() == hv[i as int]);
            assert(hv[i as int] == hunks@[i as int]@);
        }
        match h.kind {
            HunkKind::Added => {
                if h.source_start < h.source_end {
                    out.push(
                        HighlightSpan {
                            space: PadTarget::New,
                            start: h.source_start,
                            end: h.source_end,
                            kind: HunkKind::Added,
                            origin: None,
                        },
                    );
                }
            },
            HunkKind::Deleted => {
                if h.base_start < h.base_end {
                    out.push(
                        HighlightSpan {
                            space: PadTarget::Old,
                            start: h.base_start,
                            end: h.base_end,
                            kind: HunkKind::Deleted,
                            origin: None,
                        },
                    );
                }
            },
            HunkKind::Modified => {
                if h.base_start < h.base_end {
                    out.push(
                        HighlightSpan {
                            space: PadTarget::Old,
                            start: h.base_start,
                            end: h.base_end,
                            kind: HunkKind::Modified,
                            origin: None,
                        },
                    );
                }
                if h.source_start < h.source_end {
                    out.push(
                        HighlightSpan {
                            space: PadTarget::New,
                            start: h.source_start,
                            end: h.source_end,
                            kind: HunkKind::Modified,
                            origin: None,
                        },
                    );
                }
            },
        }
        i = i + 1;
        proof {
            assert(out@ =~= two_way_highlight_spec(hunk_views(hunks@).subrange(0, i as int)));
        }
    }
    proof {
        assert(hunk_views(hunks@).subrange(0, n as int) =~= hunk_views(hunks@));
    }
    out
}

/// The source-space highlight of one merge hunk: pending additions and
/// modifications highlight their source rows; deletions have no source
/// lines to highlight.
pub open spec fn source_span_of(h: HunkView, space: PadTarget, side: Side) -> Seq<HighlightSpan> {
    if h.status is Pending && !(h.kind is Deleted) && h.source_start < h.source_end {
        seq![
            HighlightSpan {
                space: space,
                start: h.source_start,
                end: h.source_end,
                kind: h.kind,
                origin: Some(side),
            },
        ]
    } else {
        Seq::<HighlightSpan>::empty()
    }
}

/// The base-space highlight of one merge hunk: the base rows a pending hunk
/// replaces or deletes, tagged with the side it came from.
pub open spec fn base_span_of(h: HunkView, side: Side) -> Seq<HighlightSpan> {
    if h.status is Pending && h.base_start < h.base_end {
        seq![
            HighlightSpan {
                space: PadTarget::Base,
                start: h.base_start,
                end: h.base_end,
                kind: h.kind,
                origin: Some(side),
            },
        ]
    } else {
        Seq::<HighlightSpan>::empty()
    }
}

/// The source-space highlights of a merge hunk list, in hunk order.
pub open spec fn source_spans(hs: Seq<HunkView>, space: PadTarget, side: Side) -> Seq<
    HighlightSpan,
>
    decreases hs.len(),
{
    if hs.len() == 0 {
        Seq::<HighlightSpan>::empty()
    } else {
        source_spans(hs.drop_last(), space, side) + source_span_of(hs.last(), space, side)
    }
}

/// The base-space highlights of a merge hunk list, in hunk order.
pub open spec fn base_spans(hs: Seq<HunkView>, side: Side) -> Seq<HighlightSpan>
    decreases hs.len(),
{
    if hs.len() == 0 {
        Seq::<HighlightSpan>::empty()
    } else {
        base_spans(hs.drop_last(), side) + base_span_of(hs.last(), side)
    }
}

/// The highlight spans of a three-way merge: the theirs pane's spans, the
/// ours pane's spans, then the base pane's spans for each side in turn.
pub open spec fn merge_highlight_spec(theirs: Seq<HunkView>, ours: Seq<HunkView>) -> Seq<
    HighlightSpan,
> {
    source_spans(theirs, PadTarget::Theirs, Side::Theirs) + source_spans(
        ours,
        PadTarget::Ours,
        Side::Ours,
    ) + base_spans(theirs, Side::Theirs) + base_spans(ours, Side::Ours)
}

/// Appends the source-space highlights of one side's pending hunks.
fn push_source_spans(hunks: &Vec<Hunk>, space: PadTarget, side: Side, out: &mut Vec<HighlightSpan>)
    ensures
        final(out)@ == old(out)@ + source_spans(hunk_views(hunks@), space, side),
{
    let n = hunks.len();
    let mut i: usize = 0;
    while i < n
        invariant
            n == hunks@.len(),
            i <= n,
            out@ == old(out)@ + source_spans(hunk_views(hunks@).subrange(0, i as int), space, side),
        decreases n - i,
    {
        let h = &hunks[i];
        proof {
            let hv = hunk_views(hunks@);
            let pre = hv.subrange(0, i as int + 1);
            assert(pre.drop_last() =~= hv.subrange(0, i as int));
            assert(pre.last() == hv[i as int]);
            assert(hv[i as int] == hunks@[i as int]@);
        }
        let pending = match h.status {
            crate::hunks::HunkStatus::Pending => true,
            _ => false,
        };
        let not_deleted = match h.kind {
            HunkKind::Deleted => false,
            _ => true,
        };
        if pending && not_deleted && h.source_start < h.source_end {
            out.push(
                HighlightSpan {
                    space,
                    start: h.source_start,
                    end: h.source_end,
                    kind: h.kind,
                    origin: Some(side),
                },
            );
        }
        i = i + 1;
        proof {
            assert(out@ =~= old(out)@ + source_spans(
                hunk_views(hunks@).subrange(0, i as int),
                space,
                side,
            ));
        }
    }
    proof {
        assert(hunk_views(hunks@).subrange(0, n as int) =~= hunk_views(hunks@));
    }
}

/// Appends the base-space highlights of one side's pending hunks.
fn push_base_spans(hunks: &Vec<Hunk>, side: Side, out: &mut Vec<HighlightSpan>)
    ensures
        final(out)@ == old(out)@ + base_spans(hunk_views(hunks@), side),
{
    let n = hunks.len();
    let mut i: usize = 0;
    while i < n
        invariant
            n == hunks@.len(),
            i <= n,
            out@ == old(out)@ + base_spans(hunk_views(hunks@).subrange(0, i as int), side),
        decreases n - i,
    {
        let h = &hunks[i];
        proof {
            let hv = hunk_views(hunks@);
            let pre = hv.subrange(0, i as int + 1);
            assert(pre.drop_last() =~= hv.subrange(0, i as int));
            assert(pre.last() == hv[i as int]);
            assert(hv[i as int] == hunks@[i as int]@);
        }
        let pending = match h.status {
            crate::hunks::HunkStatus::Pending => true,
            _ => false,
        };
        if pending && h.base_start < h.base_end {
            out.push(
                HighlightSpan {
                    space: PadTarget::Base,
                    start: h.base_start,
                    end: h.base_end,
                    kind: h.kind,
                    origin: Some(side),
                },
            );
        }
        i = i + 1;
        proof {
            assert(out@ =~= old(out)@ + base_spans(hunk_views(hunks@).subrange(0, i as int), side));
        }
    }
    proof {
        assert(hunk_views(hunks@).subrange(0, n as int) =~= hunk_views(hunks@));
    }
}

/// The highlight spans of a three-way merge: source rows of each side's
/// pending additions and modifications, then the base rows each side's
/// pending hunks replace or delete, tagged with their side of origin.
pub fn merge_highlights(theirs_hunks: &Vec<Hunk>, ours_hunks: &Vec<Hunk>) -> (r: Vec<
    HighlightSpan,
>)
    ensures
        r@ == merge_highlight_spec(hunk_views(theirs_hunks@), hunk_views(ours_hunks@)),
{
    let mut out: Vec<HighlightSpan> = Vec::new();
    push_source_spans(theirs_hunks, PadTarget::Theirs, Side::Theirs, &mut out);
    push_source_spans(ours_hunks, PadTarget::Ours, Side::Ours, &mut out);
    push_base_spans(theirs_hunks, Side::Theirs, &mut out);
    push_base_spans(ours_hunks, Side::Ours, &mut out);
    proof {
        assert(out@ =~= merge_highlight_spec(hunk_views(theirs_hunks@), hunk_views(ours_hunks@)));
    }
    out
}


/// Whether every range is ordered and the total stays within the line
/// bound.
fn ranges_ok(rs: &Vec<(u32, u32)>) -> (r: bool)
    ensures
        r == (ranges_wf(rs@) && sum_lens(rs@) <= MAX_LINES),
{
    let n = rs.len();
    let mut sum: u64 = 0;
    let mut i: usize = 0;
    proof {
        lemma_sum_lens_split(rs@, 0);
    }
    while i < n
        invariant
            n == rs@.len(),
            i <= n,
            forall|k: int| 0 <= k < i ==> (#[trigger] rs@[k]).0 <= rs@[k].1,
            sum as int == sum_lens(rs@.subrange(0, i as int)),
            sum as int <= MAX_LINES,
        decreases n - i,
    {
        let (s, e) = rs[i];
        if s > e {
            proof {
                assert(!ranges_wf(rs@));
            }
            return false;
        }
        proof {
            assert(rs@.subrange(0, i as int + 1) =~= rs@.subrange(0, i as int).push(rs@[i as int]));
            lemma_sum_lens_push(rs@.subrange(0, i as int), rs@[i as int]);
        }
        let next: u64 = sum + (e - s) as u64;
        if next > MAX_LINES as u64 {
            proof {
                if ranges_wf(rs@) {
                    lemma_sum_lens_split(rs@, i as int + 1);
                    assert(ranges_wf(rs@.subrange(i as int + 1, n as int)));
                    lemma_sum_lens_nonneg(rs@.subrange(i as int + 1, n as int));
                    assert(sum_lens(rs@) > MAX_LINES);
                }
            }
            return false;
        }
        sum = next;
        i = i + 1;
    }
    proof {
        assert(rs@.subrange(0, n as int) =~= rs@);
    }
    true
}

/// Whether the planner accepts every region.
pub fn check_regions(regions: &Vec<ConflictRegion>) -> (r: bool)
    ensures
        r == (forall|k: int| 0 <= k < regions@.len() ==> region_wf(#[trigger] regions@[k]@)),
{
    let n = regions.len();
    let mut i: usize = 0;
    while i < n
        invariant
            n == regions@.len(),
            i <= n,
            forall|k: int| 0 <= k < i ==> region_wf(#[trigger] regions@[k]@),
        decreases n - i,
    {
        let region = &regions[i];
        let ok = region.base_start <= region.base_end && ranges_ok(&region.theirs_ranges)
            && ranges_ok(&region.ours_ranges);
        if !ok {
            proof {
                assert(!region_wf(regions@[i as int]@));
            }
            return false;
        }
        proof {
            assert(region_wf(regions@[i as int]@));
        }
        i = i + 1;
    }
    true
}

/// One full alignment pass over the current hunks: merges the pending hunks
/// of both sides into conflict regions, plans the padding that levels the
/// three panes (skipped, `None`, only when a region's ranges are unordered
/// or overlong — never for hunks this crate computed), and collects the
/// highlight spans.
pub fn update_alignment(theirs_hunks: &Vec<Hunk>, ours_hunks: &Vec<Hunk>) -> (r: (
    Vec<ConflictRegion>,
    Option<Vec<PaddingInstruction>>,
    Vec<HighlightSpan>,
))
    requires
        forall|k: int|
            0 <= k < theirs_hunks@.len() ==> hunk_ranges_wf(#[trigger] theirs_hunks@[k]@),
        forall|k: int| 0 <= k < ours_hunks@.len() ==> hunk_ranges_wf(#[trigger] ours_hunks@[k]@),
    ensures
        region_views(r.0@) == crate::regions::merge_regions_spec(
            hunk_views(theirs_hunks@),
            hunk_views(ours_hunks@),
        ),
        r.1 is Some <==> (forall|k: int|
            0 <= k < r.0@.len() ==> region_wf(#[trigger] region_views(r.0@)[k])),
        r.1 is Some ==> r.1.unwrap()@ == plan_alignment_spec(
            region_views(r.0@),
            mapper_offsets(hunk_views(theirs_hunks@)),
            mapper_offsets(hunk_views(ours_hunks@)),
        ),
        r.2@ == merge_highlight_spec(hunk_views(theirs_hunks@), hunk_views(ours_hunks@)),
{
    let regions = crate::regions::merge_regions(theirs_hunks, ours_hunks);
    let pads = if check_regions(&regions) {
        let theirs_map = CoordinateMapper::from_pending_hunks(theirs_hunks);
        let ours_map = CoordinateMapper::from_pending_hunks(ours_hunks);
        Some(plan_alignment(&regions, &theirs_map, &ours_map))
    } else {
        None
    };
    let spans = merge_highlights(theirs_hunks, ours_hunks);
    proof {
        let rv = region_views(regions@);
        if forall|k: int| 0 <= k < regions@.len() ==> region_wf(#[trigger] regions@[k]@) {
            assert forall|k: int| 0 <= k < regions@.len() implies region_wf(#[trigger] rv[k]) by {
                assert(rv[k] == regions@[k]@);
            }
        }
        if forall|k: int| 0 <= k < regions@.len() ==> region_wf(#[trigger] rv[k]) {
            assert forall|k: int| 0 <= k < regions@.len() implies region_wf(
                #[trigger] regions@[k]@,
            ) by {
                assert(rv[k] == regions@[k]@);
            }
        }
    }
    (regions, pads, spans)
}

} // verus!
