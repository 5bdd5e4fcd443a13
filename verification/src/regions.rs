//! Region merger: combines the pending hunks of the two sides of a
//! three-way comparison into unified conflict regions wherever their base
//! ranges overlap or touch.

use vstd::prelude::*;
use crate::hunks::{hunk_views, Hunk, HunkStatus, HunkView, Side};

verus! {

/// One pending change, tagged with its side: the unit the merger sorts and
/// scans.
#[derive(Clone, Copy, PartialEq, Eq, Structural, Debug)]
pub struct ChangeEvent {
    pub base_start: u32,
    pub base_end: u32,
    pub side: Side,
    pub source_start: u32,
    pub source_end: u32,
}

/// A unified conflict region: a base row range together with the source row
/// ranges of the pending hunks of each side that fall into it, in scan
/// order.
#[derive(Debug)]
pub struct ConflictRegion {
    pub base_start: u32,
    pub base_end: u32,
    pub theirs_ranges: Vec<(u32, u32)>,
    pub ours_ranges: Vec<(u32, u32)>,
}

/// The mathematical value of a `ConflictRegion`.
pub ghost struct RegionView {
    pub base_start: u32,
    pub base_end: u32,
    pub theirs_ranges: Seq<(u32, u32)>,
    pub ours_ranges: Seq<(u32, u32)>,
}

impl View for ConflictRegion {
    type V = RegionView;

    open spec fn view(&self) -> RegionView {
        RegionView {
            base_start: self.base_start,
            base_end: self.base_end,
            theirs_ranges: self.theirs_ranges@,
            ours_ranges: self.ours_ranges@,
        }
    }
}

/// The views of a sequence of regions.
pub open spec fn region_views(regions: Seq<ConflictRegion>) -> Seq<RegionView> {
    regions.map_values(|r: ConflictRegion| r@)
}

/// The event of one hunk.
pub open spec fn event_of(h: HunkView, side: Side) -> ChangeEvent {
    ChangeEvent {
        base_start: h.base_start,
        base_end: h.base_end,
        side: side,
        source_start: h.source_start,
        source_end: h.source_end,
    }
}

/// One event per `Pending` hunk, in list order; non-pending hunks take no
/// part in region construction.
pub open spec fn events_of_side(hunks: Seq<HunkView>, side: Side) -> Seq<ChangeEvent>
    decreases hunks.len(),
{
    if hunks.len() == 0 {
        Seq::<ChangeEvent>::empty()
    } else {
        let rest = events_of_side(hunks.drop_last(), side);
        if hunks.last().status is Pending {
            rest.push(event_of(hunks.last(), side))
        } else {
            rest
        }
    }
}

/// The events of both sides, theirs first.
pub open spec fn all_events(theirs: Seq<HunkView>, ours: Seq<HunkView>) -> Seq<ChangeEvent> {
    events_of_side(theirs, Side::Theirs) + events_of_side(ours, Side::Ours)
}

/// The sort order of events: by base start, then by base end, so that a
/// shorter region does not swallow a longer adjacent one before the merge
/// check runs.
pub open spec fn event_le(a: ChangeEvent, b: ChangeEvent) -> bool {
    a.base_start < b.base_start || (a.base_start == b.base_start && a.base_end <= b.base_end)
}

/// `e` inserted into `s` behind every element that is `event_le` to it: the
/// insertion step of a stable insertion sort.
pub open spec fn insert_event(s: Seq<ChangeEvent>, e: ChangeEvent) -> Seq<ChangeEvent>
    decreases s.len(),
{
    if s.len() == 0 {
        seq![e]
    } else if event_le(s.last(), e) {
        s.push(e)
    } else {
        insert_event(s.drop_last(), e).push(s.last())
    }
}

/// The events sorted by `event_le`, stably: events that compare equal keep
/// their order.
pub open spec fn sort_events(s: Seq<ChangeEvent>) -> Seq<ChangeEvent>
    decreases s.len(),
{
    if s.len() == 0 {
        Seq::<ChangeEvent>::empty()
    } else {
        insert_event(sort_events(s.drop_last()), s.last())
    }
}

/// The region a single event starts.
pub open spec fn region_of_event(e: ChangeEvent) -> RegionView {
    RegionView {
        base_start: e.base_start,
        base_end: e.base_end,
        theirs_ranges: if e.side is Theirs {
            seq![(e.source_start, e.source_end)]
        } else {
            Seq::<(u32, u32)>::empty()
        },
        ours_ranges: if e.side is Ours {
            seq![(e.source_start, e.source_end)]
        } else {
            Seq::<(u32, u32)>::empty()
        },
    }
}

/// A region extended by one more event: the base range grows to cover the
/// event, and the event's source range joins its side's list.
pub open spec fn merge_event(r: RegionView, e: ChangeEvent) -> RegionView {
    RegionView {
        base_start: r.base_start,
        base_end: if e.base_end > r.base_end {
            e.base_end
        } else {
            r.base_end
        },
        theirs_ranges: if e.side is Theirs {
            r.theirs_ranges.push((e.source_start, e.source_end))
        } else {
            r.theirs_ranges
        },
        ours_ranges: if e.side is Ours {
            r.ours_ranges.push((e.source_start, e.source_end))
        } else {
            r.ours_ranges
        },
    }
}

/// The left-to-right merge scan: an event joins the last region when its
/// base start lies at or before that region's base end (overlap or exact
/// adjacency both merge); otherwise it starts a new region.
pub open spec fn merge_scan(events: Seq<ChangeEvent>) -> Seq<RegionView>
    decreases events.len(),
{
    if events.len() == 0 {
        Seq::<RegionView>::empty()
    } else {
        let prev = merge_scan(events.drop_last());
        let e = events.last();
        if prev.len() > 0 && e.base_start <= prev.last().base_end {
            prev.drop_last().push(merge_event(prev.last(), e))
        } else {
            prev.push(region_of_event(e))
        }
    }
}

/// What `merge_regions` returns for the given hunk lists.
pub open spec fn merge_regions_spec(theirs: Seq<HunkView>, ours: Seq<HunkView>) -> Seq<
    RegionView,
> {
    merge_scan(sort_events(all_events(theirs, ours)))
}

/// Whether `a` sorts at or before `b`.
fn event_le_exec(a: &ChangeEvent, b: &ChangeEvent) -> (r: bool)
    ensures
        r == event_le(*a, *b),
{
    a.base_start < b.base_start || (a.base_start == b.base_start && a.base_end <= b.base_end)
}

/// Inserts an event into a sorted prefix, keeping equal events in arrival
/// order.
fn insert_sorted(out: &mut Vec<ChangeEvent>, e: ChangeEvent)
    ensures
        final(out)@ == insert_event(old(out)@, e),
{
    let ghost s = out@;
    let mut p: usize = out.len();
    proof {
        assert(s.subrange(0, s.len() as int) =~= s);
        assert(s.subrange(s.len() as int, s.len() as int) =~= Seq::<ChangeEvent>::empty());
        assert(insert_event(s, e) + Seq::<ChangeEvent>::empty() =~= insert_event(s, e));
    }
    while p > 0 && !event_le_exec(&out[p - 1], &e)
        invariant
            p <= s.len(),
            out@ == s,
            insert_event(s, e) == insert_event(s.subrange(0, p as int), e) + s.subrange(
                p as int,
                s.len() as int,
            ),
        decreases p,
    {
        proof {
            let pre = s.subrange(0, p as int);
            assert(pre.last() == s[p - 1]);
            assert(pre.drop_last() =~= s.subrange(0, p - 1));
            assert(insert_event(pre, e) == insert_event(s.subrange(0, p - 1), e).push(s[p - 1]));
            assert(insert_event(s.subrange(0, p - 1), e).push(s[p - 1]) + s.subrange(
                p as int,
                s.len() as int,
            ) =~= insert_event(s.subrange(0, p - 1), e) + s.subrange(p - 1, s.len() as int));
        }
        p = p - 1;
    }
    proof {
        let pre = s.subrange(0, p as int);
        if p == 0 {
            assert(pre =~= Seq::<ChangeEvent>::empty());
            assert(insert_event(pre, e) =~= seq![e]);
        } else {
            assert(pre.last() == s[p - 1]);
            assert(event_le(s[p - 1 as int], e));
            assert(insert_event(pre, e) == pre.push(e));
        }
        assert(insert_event(s, e) =~= s.subrange(0, p as int).push(e) + s.subrange(
            p as int,
            s.len() as int,
        ));
        assert(s.subrange(0, p as int).push(e) + s.subrange(p as int, s.len() as int) =~= s.insert(
            p as int,
            e,
        ));
    }
    out.insert(p, e);
}

/// Sorts events by `(base_start, base_end)`, stably.
fn sort_all(events: &Vec<ChangeEvent>) -> (r: Vec<ChangeEvent>)
    ensures
        r@ == sort_events(events@),
{
    let mut out: Vec<ChangeEvent> = Vec::new();
    let n = events.len();
    let mut i: usize = 0;
    while i < n
        invariant
            n == events@.len(),
            i <= n,
            out@ == sort_events(events@.subrange(0, i as int)),
        decreases n - i,
    {
        insert_sorted(&mut out, events[i]);
        i = i + 1;
        proof {
            let pre = events@.subrange(0, i as int);
            assert(pre.drop_last() =~= events@.subrange(0, i - 1));
            assert(pre.last() == events@[i - 1]);
        }
    }
    proof {
        assert(events@.subrange(0, n as int) =~= events@);
    }
    out
}

/// Collects one event per `Pending` hunk of one side, in list order.
fn collect_events(hunks: &Vec<Hunk>, side: Side, out: &mut Vec<ChangeEvent>)
    ensures
        final(out)@ == old(out)@ + events_of_side(hunk_views(hunks@), side),
{
    let n = hunks.len();
    let mut i: usize = 0;
    while i < n
        invariant
            n == hunks@.len(),
            i <= n,
            out@ == old(out)@ + events_of_side(hunk_views(hunks@).subrange(0, i as int), side),
        decreases n - i,
    {
        let h = &hunks[i];
        proof {
            let hv = hunk_views(hunks@);
            let pre = hv.subrange(0, i as int + 1);
            assert(pre.drop_last() =~= hv.subrange(0, i as int));
            assert(pre.last() == hv[i as int]);
            assert(hv[i as int] == hunks@[i as int]@);
        }
        match h.status {
            HunkStatus::Pending => {
                out.push(
                    ChangeEvent {
                        base_start: h.base_start,
                        base_end: h.base_end,
                        side,
                        source_start: h.source_start,
                        source_end: h.source_end,
                    },
                );
                proof {
                    assert(out@ =~= old(out)@ + events_of_side(
                        hunk_views(hunks@).subrange(0, i as int + 1),
                        side,
                    ));
                }
            },
            _ => {
                proof {
                    assert(out@ =~= old(out)@ + events_of_side(
                        hunk_views(hunks@).subrange(0, i as int + 1),
                        side,
                    ));
                }
            },
        }
        i = i + 1;
    }
    proof {
        assert(hunk_views(hunks@).subrange(0, n as int) =~= hunk_views(hunks@));
    }
}

/// Merges the pending hunks of the two sides into unified conflict regions:
/// one event per pending hunk, sorted by `(base_start, base_end)`, scanned
/// left to right; an event whose base start lies at or before the current
/// region's base end joins it (overlapping and touching regions merge),
/// any other event starts a new region.
pub fn merge_regions(theirs_hunks: &Vec<Hunk>, ours_hunks: &Vec<Hunk>) -> (r: Vec<ConflictRegion>)
    ensures
        region_views(r@) == merge_regions_spec(hunk_views(theirs_hunks@), hunk_views(ours_hunks@)),
{
    let mut events: Vec<ChangeEvent> = Vec::new();
    collect_events(theirs_hunks, Side::Theirs, &mut events);
    collect_events(ours_hunks, Side::Ours, &mut events);
    proof {
        assert(events@ == all_events(hunk_views(theirs_hunks@), hunk_views(ours_hunks@))) by {
            assert(Seq::<ChangeEvent>::empty() + events_of_side(
                hunk_views(theirs_hunks@),
                Side::Theirs,
            ) =~= events_of_side(hunk_views(theirs_hunks@), Side::Theirs));
        }
    }
    let sorted = sort_all(&events);
    let ghost se = sorted@;
    let mut regions: Vec<ConflictRegion> = Vec::new();
    let n = sorted.len();
    let mut i: usize = 0;
    while i < n
        invariant
            n == se.len(),
            se == sorted@,
            i <= n,
            region_views(regions@) == merge_scan(se.subrange(0, i as int)),
        decreases n - i,
    {
        let e = sorted[i];
        proof {
            let pre = se.subrange(0, i as int + 1);
            assert(pre.drop_last() =~= se.subrange(0, i as int));
            assert(pre.last() == se[i as int]);
        }
        let mut should_merge = false;
        if regions.len() > 0 {
            let last_end = regions[regions.len() - 1].base_end;
            if e.base_start <= last_end {
                should_merge = true;
            }
            proof {
                let rv = region_views(regions@);
                assert(rv.last() == regions@[regions@.len() - 1]@);
                assert(should_merge == (e.base_start <= rv.last().base_end));
            }
        }
        if should_merge {
            let mut last = regions.pop().unwrap();
            let ghost lv = last@;
            if e.base_end > last.base_end {
                last.base_end = e.base_end;
            }
            match e.side {
                Side::Theirs => last.theirs_ranges.push((e.source_start, e.source_end)),
                Side::Ours => last.ours_ranges.push((e.source_start, e.source_end)),
            }
            proof {
                assert(last@ == merge_event(lv, e));
            }
            regions.push(last);
            proof {
                assert(region_views(regions@) =~= merge_scan(se.subrange(0, i as int + 1)));
            }
        } else {
            let theirs_ranges: Vec<(u32, u32)> = Vec::new();
            let ours_ranges: Vec<(u32, u32)> = Vec::new();
            let mut region = ConflictRegion {
                base_start: e.base_start,
                base_end: e.base_end,
                theirs_ranges,
                ours_ranges,
            };
            match e.side {
                Side::Theirs => region.theirs_ranges.push((e.source_start, e.source_end)),
                Side::Ours => region.ours_ranges.push((e.source_start, e.source_end)),
            }
            proof {
                assert(region@.theirs_ranges =~= region_of_event(e).theirs_ranges);
                assert(region@.ours_ranges =~= region_of_event(e).ours_ranges);
                assert(region@ == region_of_event(e));
            }
            regions.push(region);
            proof {
                assert(region_views(regions@) =~= merge_scan(se.subrange(0, i as int + 1)));
            }
        }
        i = i + 1;
    }
    proof {
        assert(se.subrange(0, n as int) =~= se);
    }
    regions
}


/// Every event's base range is ordered.
pub open spec fn events_ranges_wf(events: Seq<ChangeEvent>) -> bool {
    forall|k: int|
        0 <= k < events.len() ==> (#[trigger] events[k]).base_start <= events[k].base_end
}

/// Inserting an ordered event keeps every range ordered.
proof fn lemma_insert_event_ranges_wf(s: Seq<ChangeEvent>, e: ChangeEvent)
    requires
        events_ranges_wf(s),
        e.base_start <= e.base_end,
    ensures
        events_ranges_wf(insert_event(s, e)),
    decreases s.len(),
{
    if s.len() == 0 {
    } else if event_le(s.last(), e) {
    } else {
        assert(events_ranges_wf(s.drop_last())) by {
            assert(forall|k: int|
                0 <= k < s.drop_last().len() ==> s.drop_last()[k] == (#[trigger] s[k]));
        }
        lemma_insert_event_ranges_wf(s.drop_last(), e);
        let inner = insert_event(s.drop_last(), e);
        assert forall|k: int| 0 <= k < insert_event(s, e).len() implies (#[trigger] insert_event(
            s,
            e,
        )[k]).base_start <= insert_event(s, e)[k].base_end by {
            if k < inner.len() {
                assert(insert_event(s, e)[k] == inner[k]);
            } else {
                assert(insert_event(s, e)[k] == s.last());
            }
        }
    }
}

/// Sorting keeps every range ordered.
proof fn lemma_sort_events_ranges_wf(s: Seq<ChangeEvent>)
    requires
        events_ranges_wf(s),
    ensures
        events_ranges_wf(sort_events(s)),
    decreases s.len(),
{
    if s.len() > 0 {
        assert(events_ranges_wf(s.drop_last())) by {
            assert(forall|k: int|
                0 <= k < s.drop_last().len() ==> s.drop_last()[k] == (#[trigger] s[k]));
        }
        lemma_sort_events_ranges_wf(s.drop_last());
        lemma_insert_event_ranges_wf(sort_events(s.drop_last()), s.last());
    }
}

/// The events of one side range over ordered base ranges whenever its
/// pending hunks do.
proof fn lemma_events_of_side_ranges_wf(hunks: Seq<HunkView>, side: Side)
    requires
        forall|k: int|
            0 <= k < hunks.len() && (#[trigger] hunks[k]).status is Pending ==> hunks[k].base_start
                <= hunks[k].base_end,
    ensures
        events_ranges_wf(events_of_side(hunks, side)),
    decreases hunks.len(),
{
    if hunks.len() > 0 {
        assert(forall|k: int|
            0 <= k < hunks.drop_last().len() ==> hunks.drop_last()[k] == (#[trigger] hunks[k]));
        lemma_events_of_side_ranges_wf(hunks.drop_last(), side);
        let rest = events_of_side(hunks.drop_last(), side);
        if hunks.last().status is Pending {
            assert(hunks[hunks.len() - 1].status is Pending);
            assert forall|k: int|
                0 <= k < events_of_side(hunks, side).len() implies (#[trigger] events_of_side(
                hunks,
                side,
            )[k]).base_start <= events_of_side(hunks, side)[k].base_end by {
                if k < rest.len() {
                    assert(events_of_side(hunks, side)[k] == rest[k]);
                }
            }
        }
    }
}

/// The scan keeps regions ordered and strictly apart: each region's base
/// range is ordered, and every region ends strictly before any later one
/// begins — regions never overlap and never touch.
proof fn lemma_merge_scan_separated(events: Seq<ChangeEvent>)
    requires
        events_ranges_wf(events),
    ensures
        forall|k: int|
            0 <= k < merge_scan(events).len() ==> (#[trigger] merge_scan(events)[k]).base_start
                <= merge_scan(events)[k].base_end,
        forall|k1: int, k2: int|
            0 <= k1 < k2 < merge_scan(events).len() ==> (#[trigger] merge_scan(
                events,
            )[k1]).base_end < (#[trigger] merge_scan(events)[k2]).base_start,
    decreases events.len(),
{
    if events.len() > 0 {
        assert(events_ranges_wf(events.drop_last())) by {
            assert(forall|k: int|
                0 <= k < events.drop_last().len() ==> events.drop_last()[k] == (
                #[trigger] events[k]));
        }
        lemma_merge_scan_separated(events.drop_last());
        let prev = merge_scan(events.drop_last());
        let e = events.last();
        assert(e.base_start <= e.base_end);
        let r = merge_scan(events);
        if prev.len() > 0 && e.base_start <= prev.last().base_end {
            let merged = merge_event(prev.last(), e);
            assert(r == prev.drop_last().push(merged));
            assert(merged.base_start == prev.last().base_start);
            assert(merged.base_start <= merged.base_end);
            assert forall|k: int| 0 <= k < r.len() implies (#[trigger] r[k]).base_start
                <= r[k].base_end by {
                if k < r.len() - 1 {
                    assert(r[k] == prev[k]);
                }
            }
            assert forall|k1: int, k2: int| 0 <= k1 < k2 < r.len() implies (
            #[trigger] r[k1]).base_end < (#[trigger] r[k2]).base_start by {
                assert(r[k1] == prev[k1]);
                if k2 == r.len() - 1 {
                    assert(prev[k1].base_end < prev[prev.len() - 1].base_start);
                    assert(r[k2].base_start == prev.last().base_start);
                } else {
                    assert(r[k2] == prev[k2]);
                }
            }
        } else {
            assert(r == prev.push(region_of_event(e)));
            assert forall|k: int| 0 <= k < r.len() implies (#[trigger] r[k]).base_start
                <= r[k].base_end by {
                if k < r.len() - 1 {
                    assert(r[k] == prev[k]);
                }
            }
            assert forall|k1: int, k2: int| 0 <= k1 < k2 < r.len() implies (
            #[trigger] r[k1]).base_end < (#[trigger] r[k2]).base_start by {
                assert(r[k1] == prev[k1]);
                if k2 == r.len() - 1 {
                    assert(r[k2] == region_of_event(e));
                    if prev.len() > 0 {
                        assert(prev.last().base_end < e.base_start);
                        if k1 < prev.len() - 1 {
                            assert(prev[k1].base_end < prev[prev.len() - 1].base_start);
                            assert(prev[prev.len() - 1].base_start <= prev[prev.len() - 1].base_end);
                        }
                    }
                } else {
                    assert(r[k2] == prev[k2]);
                }
            }
        }
    }
}

/// Separation: the conflict regions of two hunk lists whose pending hunks
/// have ordered base ranges are themselves ordered, and pairwise disjoint
/// with at least one base row between them — what one region ends, the next
/// never begins at or before it.
pub proof fn lemma_merge_regions_separated(theirs: Seq<HunkView>, ours: Seq<HunkView>)
    requires
        forall|k: int|
            0 <= k < theirs.len() && (#[trigger] theirs[k]).status is Pending ==> theirs[k].base_start
                <= theirs[k].base_end,
        forall|k: int|
            0 <= k < ours.len() && (#[trigger] ours[k]).status is Pending ==> ours[k].base_start
                <= ours[k].base_end,
    ensures
        forall|k: int|
            0 <= k < merge_regions_spec(theirs, ours).len() ==> (#[trigger] merge_regions_spec(
                theirs,
                ours,
            )[k]).base_start <= merge_regions_spec(theirs, ours)[k].base_end,
        forall|k1: int, k2: int|
            0 <= k1 < k2 < merge_regions_spec(theirs, ours).len() ==> (#[trigger] merge_regions_spec(
                theirs,
                ours,
            )[k1]).base_end < (#[trigger] merge_regions_spec(theirs, ours)[k2]).base_start,
{
    lemma_events_of_side_ranges_wf(theirs, Side::Theirs);
    lemma_events_of_side_ranges_wf(ours, Side::Ours);
    let all = all_events(theirs, ours);
    assert(events_ranges_wf(all)) by {
        let te = events_of_side(theirs, Side::Theirs);
        let oe = events_of_side(ours, Side::Ours);
        assert forall|k: int| 0 <= k < all.len() implies (#[trigger] all[k]).base_start
            <= all[k].base_end by {
            if k < te.len() {
                assert(all[k] == te[k]);
            } else {
                assert(all[k] == oe[k - te.len()]);
            }
        }
    }
    lemma_sort_events_ranges_wf(all);
    lemma_merge_scan_separated(sort_events(all));
}

} // verus!
