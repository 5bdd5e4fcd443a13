//! Hunk navigation: which hunk the cursor moves to on next/previous, and
//! which hunks fall inside a visible row window.

use vstd::prelude::*;
use crate::hunks::{hunk_views, Hunk, HunkStatus, HunkView};

verus! {

/// Some hunk starts (in its source rows) strictly before `row`.
pub open spec fn has_start_before(hs: Seq<HunkView>, row: u32) -> bool {
    exists|k: int| 0 <= k < hs.len() && (#[trigger] hs[k]).source_start < row
}

/// Some hunk starts strictly after `row`.
pub open spec fn has_start_after(hs: Seq<HunkView>, row: u32) -> bool {
    exists|k: int| 0 <= k < hs.len() && (#[trigger] hs[k]).source_start > row
}

/// Whether a hunk before and after the cursor exists in a two-way
/// comparison: `(has_previous, has_next)`, judged by source rows.
pub fn two_way_navigation_state(hunks: &Vec<Hunk>, current_row: u32) -> (r: (bool, bool))
    ensures
        r.0 == has_start_before(hunk_views(hunks@), current_row),
        r.1 == has_start_after(hunk_views(hunks@), current_row),
{
    let ghost hv = hunk_views(hunks@);
    let n = hunks.len();
    let mut has_prev = false;
    let mut has_next = false;
    let mut i: usize = 0;
    while i < n
        invariant
            n == hunks@.len(),
            hv == hunk_views(hunks@),
            i <= n,
            has_prev == (exists|k: int| 0 <= k < i && (#[trigger] hv[k]).source_start < current_row),
            has_next == (exists|k: int| 0 <= k < i && (#[trigger] hv[k]).source_start > current_row),
        decreases n - i,
    {
        let h = &hunks[i];
        proof {
            assert(hv[i as int] == hunks@[i as int]@);
        }
        if h.source_start < current_row {
            has_prev = true;
        }
        if h.source_start > current_row {
            has_next = true;
        }
        i = i + 1;
    }
    (has_prev, has_next)
}

/// The source start of the first hunk, in list order, that starts after
/// `row`.
pub open spec fn first_start_after(hs: Seq<HunkView>, row: u32) -> Option<u32>
    decreases hs.len(),
{
    if hs.len() == 0 {
        None
    } else if hs.first().source_start > row {
        Some(hs.first().source_start)
    } else {
        first_start_after(hs.drop_first(), row)
    }
}

/// The source start of the last hunk, in list order, that starts before
/// `row`.
pub open spec fn last_start_before(hs: Seq<HunkView>, row: u32) -> Option<u32>
    decreases hs.len(),
{
    if hs.len() == 0 {
        None
    } else if hs.last().source_start < row {
        Some(hs.last().source_start)
    } else {
        last_start_before(hs.drop_last(), row)
    }
}

/// Where two-way navigation goes from `row`: forward, to the first hunk
/// starting after it, wrapping around to the first hunk; backward, to the
/// last hunk starting before it, wrapping around to the last hunk. Nowhere
/// when there are no hunks.
pub open spec fn two_way_target_spec(hs: Seq<HunkView>, row: u32, next: bool) -> Option<u32> {
    if hs.len() == 0 {
        None
    } else if next {
        match first_start_after(hs, row) {
            Some(r) => Some(r),
            None => Some(hs.first().source_start),
        }
    } else {
        match last_start_before(hs, row) {
            Some(r) => Some(r),
            None => Some(hs.last().source_start),
        }
    }
}

/// The source row that next/previous navigation moves to in a two-way
/// comparison, with wrap-around; `None` when there is no hunk at all.
pub fn two_way_navigation_target(hunks: &Vec<Hunk>, current_row: u32, next: bool) -> (r: Option<
    u32,
>)
    ensures
        r == two_way_target_spec(hunk_views(hunks@), current_row, next),
{
    let ghost hv = hunk_views(hunks@);
    let n = hunks.len();
    if n == 0 {
        return None;
    }
    proof {
        assert(hv.subrange(0, n as int) =~= hv);
    }
    if next {
        let mut i: usize = 0;
        while i < n
            invariant
                n == hunks@.len(),
                n > 0,
                next,
                hv == hunk_views(hunks@),
                i <= n,
                first_start_after(hv, current_row) == first_start_after(
                    hv.subrange(i as int, n as int),
                    current_row,
                ),
            decreases n - i,
        {
            let h = &hunks[i];
            proof {
                let suf = hv.subrange(i as int, n as int);
                assert(suf.first() == hv[i as int]);
                assert(hv[i as int] == hunks@[i as int]@);
                assert(suf.drop_first() =~= hv.subrange(i as int + 1, n as int));
            }
            if h.source_start > current_row {
                proof {
                    let suf = hv.subrange(i as int, n as int);
                    assert(suf.first().source_start > current_row);
                    assert(first_start_after(suf, current_row) == Some(h.source_start));
                }
                return Some(h.source_start);
            }
            i = i + 1;
        }
        proof {
            assert(hv.subrange(n as int, n as int) =~= Seq::<HunkView>::empty());
            assert(hv[0] == hunks@[0]@);
        }
        Some(hunks[0].source_start)
    } else {
        let mut i: usize = n;
        while i > 0
            invariant
                n == hunks@.len(),
                n > 0,
                !next,
                hv == hunk_views(hunks@),
                i <= n,
                last_start_before(hv, current_row) == last_start_before(
                    hv.subrange(0, i as int),
                    current_row,
                ),
            decreases i,
        {
            let h = &hunks[i - 1];
            proof {
                let pre = hv.subrange(0, i as int);
                assert(pre.last() == hv[i - 1]);
                assert(hv[i - 1] == hunks@[i - 1]@);
                assert(pre.drop_last() =~= hv.subrange(0, i - 1));
            }
            if h.source_start < current_row {
                proof {
                    let pre = hv.subrange(0, i as int);
                    assert(pre.last().source_start < current_row);
                    assert(pre.len() == i);
                    assert(last_start_before(pre, current_row) == Some(h.source_start));
                    assert(last_start_before(hv, current_row) == Some(h.source_start));
                    assert(hv.len() > 0);
                    assert(two_way_target_spec(hv, current_row, false) == Some(h.source_start));
                }
                return Some(h.source_start);
            }
            i = i - 1;
        }
        proof {
            assert(hv.subrange(0, 0) =~= Seq::<HunkView>::empty());
            assert(hv[n - 1] == hunks@[n - 1]@);
        }
        Some(hunks[n - 1].source_start)
    }
}

/// Some hunk is still `Pending`.
pub open spec fn has_pending(hs: Seq<HunkView>) -> bool {
    exists|k: int| 0 <= k < hs.len() && (#[trigger] hs[k]).status is Pending
}

/// A pending hunk's base range starts strictly before `row`.
pub open spec fn pending_before(hs: Seq<HunkView>, row: u32) -> bool {
    exists|k: int|
        0 <= k < hs.len() && (#[trigger] hs[k]).status is Pending && hs[k].base_start < row
}

/// A pending hunk's base range starts strictly after `row`.
pub open spec fn pending_after(hs: Seq<HunkView>, row: u32) -> bool {
    exists|k: int|
        0 <= k < hs.len() && (#[trigger] hs[k]).status is Pending && hs[k].base_start > row
}

/// How many hunks are still `Pending`.
pub open spec fn count_pending(hs: Seq<HunkView>) -> int
    decreases hs.len(),
{
    if hs.len() == 0 {
        0int
    } else {
        count_pending(hs.drop_last()) + if hs.last().status is Pending {
            1int
        } else {
            0int
        }
    }
}

/// Whether a pending hunk lies before and after the cursor's base row in a
/// merge: `(has_previous, has_next)`, over both sides' hunks.
pub fn merge_navigation_state(
    theirs_hunks: &Vec<Hunk>,
    ours_hunks: &Vec<Hunk>,
    current_row: u32,
) -> (r: (bool, bool))
    ensures
        r.0 == (pending_before(hunk_views(theirs_hunks@), current_row) || pending_before(
            hunk_views(ours_hunks@),
            current_row,
        )),
        r.1 == (pending_after(hunk_views(theirs_hunks@), current_row) || pending_after(
            hunk_views(ours_hunks@),
            current_row,
        )),
{
    let (tp, tn) = side_navigation_state(theirs_hunks, current_row);
    let (op, on) = side_navigation_state(ours_hunks, current_row);
    (tp || op, tn || on)
}

/// Whether one side holds a pending hunk before and after the cursor row.
fn side_navigation_state(hunks: &Vec<Hunk>, current_row: u32) -> (r: (bool, bool))
    ensures
        r.0 == pending_before(hunk_views(hunks@), current_row),
        r.1 == pending_after(hunk_views(hunks@), current_row),
{
    let ghost hv = hunk_views(hunks@);
    let n = hunks.len();
    let mut has_prev = false;
    let mut has_next = false;
    let mut i: usize = 0;
    while i < n
        invariant
            n == hunks@.len(),
            hv == hunk_views(hunks@),
            i <= n,
            has_prev == (exists|k: int|
                0 <= k < i && (#[trigger] hv[k]).status is Pending && hv[k].base_start
                    < current_row),
            has_next == (exists|k: int|
                0 <= k < i && (#[trigger] hv[k]).status is Pending && hv[k].base_start
                    > current_row),
        decreases n - i,
    {
        let h = &hunks[i];
        proof {
            assert(hv[i as int] == hunks@[i as int]@);
        }
        let pending = match h.status {
            HunkStatus::Pending => true,
            _ => false,
        };
        if pending && h.base_start < current_row {
            has_prev = true;
        }
        if pending && h.base_start > current_row {
            has_next = true;
        }
        i = i + 1;
    }
    (has_prev, has_next)
}

/// The smaller of two optional rows.
pub open spec fn opt_min(a: Option<u32>, b: Option<u32>) -> Option<u32> {
    match (a, b) {
        (None, x) => x,
        (x, None) => x,
        (Some(x), Some(y)) => Some(if x <= y { x } else { y }),
    }
}

/// The larger of two optional rows.
pub open spec fn opt_max(a: Option<u32>, b: Option<u32>) -> Option<u32> {
    match (a, b) {
        (None, x) => x,
        (x, None) => x,
        (Some(x), Some(y)) => Some(if x >= y { x } else { y }),
    }
}

/// The smallest base start of a pending hunk strictly above `row`; `None`
/// to consider every pending hunk.
pub open spec fn min_pending_start(hs: Seq<HunkView>, above: Option<u32>) -> Option<u32>
    decreases hs.len(),
{
    if hs.len() == 0 {
        None
    } else {
        let rest = min_pending_start(hs.drop_last(), above);
        let h = hs.last();
        let keep = h.status is Pending && match above {
            Some(row) => h.base_start > row,
            None => true,
        };
        if keep {
            opt_min(rest, Some(h.base_start))
        } else {
            rest
        }
    }
}

/// The largest base start of a pending hunk strictly below `row`; `None`
/// to consider every pending hunk.
pub open spec fn max_pending_start(hs: Seq<HunkView>, below: Option<u32>) -> Option<u32>
    decreases hs.len(),
{
    if hs.len() == 0 {
        None
    } else {
        let rest = max_pending_start(hs.drop_last(), below);
        let h = hs.last();
        let keep = h.status is Pending && match below {
            Some(row) => h.base_start < row,
            None => true,
        };
        if keep {
            opt_max(rest, Some(h.base_start))
        } else {
            rest
        }
    }
}

/// Where merge navigation goes from `row`: forward, to the nearest pending
/// base row after it, wrapping around to the first pending base row;
/// backward, to the nearest pending base row before it, wrapping around to
/// the last. Nowhere when no hunk is pending.
pub open spec fn merge_target_spec(
    theirs: Seq<HunkView>,
    ours: Seq<HunkView>,
    row: u32,
    next: bool,
) -> Option<u32> {
    if next {
        match opt_min(min_pending_start(theirs, Some(row)), min_pending_start(ours, Some(row))) {
            Some(r) => Some(r),
            None => opt_min(min_pending_start(theirs, None), min_pending_start(ours, None)),
        }
    } else {
        match opt_max(max_pending_start(theirs, Some(row)), max_pending_start(ours, Some(row))) {
            Some(r) => Some(r),
            None => opt_max(max_pending_start(theirs, None), max_pending_start(ours, None)),
        }
    }
}

/// The smallest pending base start of one side, above `row` when given.
fn side_min_pending(hunks: &Vec<Hunk>, above: Option<u32>) -> (r: Option<u32>)
    ensures
        r == min_pending_start(hunk_views(hunks@), above),
{
    let ghost hv = hunk_views(hunks@);
    let n = hunks.len();
    let mut best: Option<u32> = None;
    let mut i: usize = 0;
    while i < n
        invariant
            n == hunks@.len(),
            hv == hunk_views(hunks@),
            i <= n,
            best == min_pending_start(hv.subrange(0, i as int), above),
        decreases n - i,
    {
        let h = &hunks[i];
        proof {
            let pre = hv.subrange(0, i as int + 1);
            assert(pre.drop_last() =~= hv.subrange(0, i as int));
            assert(pre.last() == hv[i as int]);
            assert(hv[i as int] == hunks@[i as int]@);
        }
        let pending = match h.status {
            HunkStatus::Pending => true,
            _ => false,
        };
        let keep = pending && match above {
            Some(row) => h.base_start > row,
            None => true,
        };
        if keep {
            best = match best {
                Some(b) => if b <= h.base_start {
                    Some(b)
                } else {
                    Some(h.base_start)
                },
                None => Some(h.base_start),
            };
        }
        i = i + 1;
    }
    proof {
        assert(hv.subrange(0, n as int) =~= hv);
    }
    best
}

/// The largest pending base start of one side, below `row` when given.
fn side_max_pending(hunks: &Vec<Hunk>, below: Option<u32>) -> (r: Option<u32>)
    ensures
        r == max_pending_start(hunk_views(hunks@), below),
{
    let ghost hv = hunk_views(hunks@);
    let n = hunks.len();
    let mut best: Option<u32> = None;
    let mut i: usize = 0;
    while i < n
        invariant
            n == hunks@.len(),
            hv == hunk_views(hunks@),
            i <= n,
            best == max_pending_start(hv.subrange(0, i as int), below),
        decreases n - i,
    {
        let h = &hunks[i];
        proof {
            let pre = hv.subrange(0, i as int + 1);
            assert(pre.drop_last() =~= hv.subrange(0, i as int));
            assert(pre.last() == hv[i as int]);
            assert(hv[i as int] == hunks@[i as int]@);
        }
        let pending = match h.status {
            HunkStatus::Pending => true,
            _ => false,
        };
        let keep = pending && match below {
            Some(row) => h.base_start < row,
            None => true,
        };
        if keep {
            best = match best {
                Some(b) => if b >= h.base_start {
                    Some(b)
                } else {
                    Some(h.base_start)
                },
                None => Some(h.base_start),
            };
        }
        i = i + 1;
    }
    proof {
        assert(hv.subrange(0, n as int) =~= hv);
    }
    best
}

/// The base row that next/previous navigation moves to in a merge: the
/// nearest pending base row in the chosen direction over both sides, with
/// wrap-around; `None` when no hunk is pending.
pub fn merge_navigation_target(
    theirs_hunks: &Vec<Hunk>,
    ours_hunks: &Vec<Hunk>,
    current_row: u32,
    next: bool,
) -> (r: Option<u32>)
    ensures
        r == merge_target_spec(
            hunk_views(theirs_hunks@),
            hunk_views(ours_hunks@),
            current_row,
            next,
        ),
{
    if next {
        let t = side_min_pending(theirs_hunks, Some(current_row));
        let o = side_min_pending(ours_hunks, Some(current_row));
        let near = match (t, o) {
            (None, x) => x,
            (x, None) => x,
            (Some(x), Some(y)) => if x <= y {
                Some(x)
            } else {
                Some(y)
            },
        };
        match near {
            Some(r) => Some(r),
            None => {
                let t0 = side_min_pending(theirs_hunks, None);
                let o0 = side_min_pending(ours_hunks, None);
                match (t0, o0) {
                    (None, x) => x,
                    (x, None) => x,
                    (Some(x), Some(y)) => if x <= y {
                        Some(x)
                    } else {
                        Some(y)
                    },
                }
            },
        }
    } else {
        let t = side_max_pending(theirs_hunks, Some(current_row));
        let o = side_max_pending(ours_hunks, Some(current_row));
        let near = match (t, o) {
            (None, x) => x,
            (x, None) => x,
            (Some(x), Some(y)) => if x >= y {
                Some(x)
            } else {
                Some(y)
            },
        };
        match near {
            Some(r) => Some(r),
            None => {
                let t0 = side_max_pending(theirs_hunks, None);
                let o0 = side_max_pending(ours_hunks, None);
                match (t0, o0) {
                    (None, x) => x,
                    (x, None) => x,
                    (Some(x), Some(y)) => if x >= y {
                        Some(x)
                    } else {
                        Some(y)
                    },
                }
            },
        }
    }
}

/// The hunk shows inside a viewport spanning rows `top..=bottom` of its
/// source space; a hunk with an empty source range counts as one row tall.
pub open spec fn hunk_visible(h: HunkView, top: u32, bottom: u32) -> bool {
    let e = if h.source_end as int > h.source_start as int + 1 {
        h.source_end as int
    } else {
        h.source_start as int + 1
    };
    e >= top && h.source_start <= bottom
}

/// The indices of the visible hunks, ascending.
pub open spec fn visible_indices(hs: Seq<HunkView>, top: u32, bottom: u32) -> Seq<usize>
    decreases hs.len(),
{
    if hs.len() == 0 {
        Seq::<usize>::empty()
    } else {
        let rest = visible_indices(hs.drop_last(), top, bottom);
        if hunk_visible(hs.last(), top, bottom) {
            rest.push((hs.len() - 1) as usize)
        } else {
            rest
        }
    }
}

/// Which hunks fall inside a viewport spanning rows `top..=bottom` of the
/// source space: their indices, ascending. A hunk with an empty source
/// range still occupies one row.
pub fn visible_hunks(hunks: &Vec<Hunk>, top: u32, bottom: u32) -> (r: Vec<usize>)
    ensures
        r@ == visible_indices(hunk_views(hunks@), top, bottom),
{
    let ghost hv = hunk_views(hunks@);
    let mut out: Vec<usize> = Vec::new();
    let n = hunks.len();
    let mut i: usize = 0;
    while i < n
        invariant
            n == hunks@.len(),
            hv == hunk_views(hunks@),
            i <= n,
            out@ == visible_indices(hv.subrange(0, i as int), top, bottom),
        decreases n - i,
    {
        let h = &hunks[i];
        proof {
            let pre = hv.subrange(0, i as int + 1);
            assert(pre.drop_last() =~= hv.subrange(0, i as int));
            assert(pre.last() == hv[i as int]);
            assert(hv[i as int] == hunks@[i as int]@);
        }
        let e: u64 = if h.source_end as u64 > h.source_start as u64 + 1 {
            h.source_end as u64
        } else {
            h.source_start as u64 + 1
        };
        if e >= top as u64 && h.source_start <= bottom {
            out.push(i);
        }
        i = i + 1;
        proof {
            assert(out@ =~= visible_indices(hv.subrange(0, i as int), top, bottom));
        }
    }
    proof {
        assert(hv.subrange(0, n as int) =~= hv);
    }
    out
}

/// How many hunks of both sides are still `Pending`.
pub fn pending_count(theirs_hunks: &Vec<Hunk>, ours_hunks: &Vec<Hunk>) -> (r: usize)
    requires
        theirs_hunks@.len() + ours_hunks@.len() <= usize::MAX,
    ensures
        r == count_pending(hunk_views(theirs_hunks@)) + count_pending(hunk_views(ours_hunks@)),
{
    let a = side_pending_count(theirs_hunks);
    let b = side_pending_count(ours_hunks);
    proof {
        lemma_count_pending_bound(hunk_views(theirs_hunks@));
        lemma_count_pending_bound(hunk_views(ours_hunks@));
    }
    a + b
}

/// The pending count never exceeds the list's length.
pub proof fn lemma_count_pending_bound(hs: Seq<HunkView>)
    ensures
        0 <= count_pending(hs) <= hs.len(),
    decreases hs.len(),
{
    if hs.len() > 0 {
        lemma_count_pending_bound(hs.drop_last());
    }
}

/// How many hunks of one side are still `Pending`.
pub fn side_pending_count(hunks: &Vec<Hunk>) -> (r: usize)
    ensures
        r == count_pending(hunk_views(hunks@)),
{
    let ghost hv = hunk_views(hunks@);
    let n = hunks.len();
    let mut count: usize = 0;
    let mut i: usize = 0;
    while i < n
        invariant
            n == hunks@.len(),
            hv == hunk_views(hunks@),
            i <= n,
            count == count_pending(hv.subrange(0, i as int)),
            count <= i,
        decreases n - i,
    {
        let h = &hunks[i];
        proof {
            let pre = hv.subrange(0, i as int + 1);
            assert(pre.drop_last() =~= hv.subrange(0, i as int));
            assert(pre.last() == hv[i as int]);
            assert(hv[i as int] == hunks@[i as int]@);
        }
        match h.status {
            HunkStatus::Pending => {
                count = count + 1;
            },
            _ => {},
        }
        i = i + 1;
    }
    proof {
        assert(hv.subrange(0, n as int) =~= hv);
    }
    count
}

/// Whether any hunk of the list is still `Pending`.
pub fn any_pending(hunks: &Vec<Hunk>) -> (r: bool)
    ensures
        r == has_pending(hunk_views(hunks@)),
{
    let ghost hv = hunk_views(hunks@);
    let n = hunks.len();
    let mut i: usize = 0;
    while i < n
        invariant
            n == hunks@.len(),
            hv == hunk_views(hunks@),
            i <= n,
            forall|k: int| 0 <= k < i ==> !((#[trigger] hv[k]).status is Pending),
        decreases n - i,
    {
        let h = &hunks[i];
        proof {
            assert(hv[i as int] == hunks@[i as int]@);
        }
        match h.status {
            HunkStatus::Pending => {
                return true;
            },
            _ => {},
        }
        i = i + 1;
    }
    false
}

} // verus!
