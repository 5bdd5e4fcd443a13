//! Hunk classifier: turns the non-`Equal` edit operations of a line diff
//! into typed hunks carrying a change kind, a source-side row range, a
//! base-side row range, the replacement lines, and a status.

use vstd::prelude::*;
use crate::diff::{checked_ops, diff_lines, views_of, DiffOp, OpKind, MAX_LINES};

verus! {

/// Which side of a three-way comparison a hunk came from.
#[derive(Clone, Copy, PartialEq, Eq, Structural, Debug)]
pub enum Side {
    Theirs,
    Ours,
}

/// The kind of change a hunk describes, relative to the base text.
#[derive(Clone, Copy, PartialEq, Eq, Structural, Debug)]
pub enum HunkKind {
    /// Lines present in the source text only; the base range is empty.
    Added,
    /// Lines present in the base text only; the source range is empty.
    Deleted,
    /// A base range replaced by a source range; neither is empty.
    Modified,
}

/// What has been decided about a hunk so far.
#[derive(Clone, Copy, PartialEq, Eq, Structural, Debug)]
pub enum HunkStatus {
    /// Not processed yet.
    Pending,
    /// Applied to the base text.
    Accepted,
    /// Left out; the base text keeps its lines.
    Ignored,
}

/// One classified difference between a source text and the base text.
/// Row ranges are half-open and zero-indexed; `text` holds the replacement
/// lines copied out of the source text.
#[derive(Debug)]
pub struct Hunk {
    /// The comparison side, absent for a plain two-way comparison.
    pub side: Option<Side>,
    pub kind: HunkKind,
    /// Row range in the source (non-base) text.
    pub source_start: u32,
    pub source_end: u32,
    /// Row range in the base text.
    pub base_start: u32,
    pub base_end: u32,
    /// The source lines that replace the base range.
    pub text: Vec<String>,
    pub status: HunkStatus,
}

/// The mathematical value of a `Hunk`: the same fields with the replacement
/// lines as character sequences.
pub ghost struct HunkView {
    pub side: Option<Side>,
    pub kind: HunkKind,
    pub source_start: u32,
    pub source_end: u32,
    pub base_start: u32,
    pub base_end: u32,
    pub text: Seq<Seq<char>>,
    pub status: HunkStatus,
}

impl View for Hunk {
    type V = HunkView;

    open spec fn view(&self) -> HunkView {
        HunkView {
            side: self.side,
            kind: self.kind,
            source_start: self.source_start,
            source_end: self.source_end,
            base_start: self.base_start,
            base_end: self.base_end,
            text: views_of(self.text@),
            status: self.status,
        }
    }
}

/// The views of a sequence of hunks.
pub open spec fn hunk_views(hunks: Seq<Hunk>) -> Seq<HunkView> {
    hunks.map_values(|h: Hunk| h@)
}

/// The hunk with its status replaced and all else unchanged.
pub open spec fn with_status(h: HunkView, status: HunkStatus) -> HunkView {
    HunkView { status: status, ..h }
}

/// The hunks with every status erased back to `Pending`: what a fresh
/// recomputation would produce from the same texts.
pub open spec fn pending_views(hs: Seq<HunkView>) -> Seq<HunkView> {
    hs.map_values(|h: HunkView| with_status(h, HunkStatus::Pending))
}

/// The hunk a single non-`Equal` operation classifies to: `Delete` becomes
/// `Deleted` with an empty source range anchored at the operation's new
/// index, `Insert` becomes `Added` with an empty base range, `Replace`
/// becomes `Modified`; the text is the new lines of the operation's new
/// range, and every fresh hunk starts `Pending`.
pub open spec fn hunk_of_op(op: DiffOp, new: Seq<Seq<char>>, side: Option<Side>) -> HunkView {
    HunkView {
        side: side,
        kind: match op.kind {
            OpKind::Delete => HunkKind::Deleted,
            OpKind::Insert => HunkKind::Added,
            _ => HunkKind::Modified,
        },
        source_start: op.new_start,
        source_end: op.new_end,
        base_start: op.old_start,
        base_end: op.old_end,
        text: new.subrange(op.new_start as int, op.new_end as int),
        status: HunkStatus::Pending,
    }
}

/// The hunks of an operation list, in order: one per non-`Equal` operation.
pub open spec fn classify_spec(ops: Seq<DiffOp>, new: Seq<Seq<char>>, side: Option<Side>) -> Seq<
    HunkView,
>
    decreases ops.len(),
{
    if ops.len() == 0 {
        Seq::<HunkView>::empty()
    } else {
        let rest = classify_spec(ops.drop_first(), new, side);
        if ops.first().kind is Equal {
            rest
        } else {
            seq![hunk_of_op(ops.first(), new, side)] + rest
        }
    }
}

/// Appending one operation appends its hunk (or nothing, for `Equal`).
pub proof fn lemma_classify_push(
    ops: Seq<DiffOp>,
    op: DiffOp,
    new: Seq<Seq<char>>,
    side: Option<Side>,
)
    ensures
        classify_spec(ops.push(op), new, side) == classify_spec(ops, new, side) + (
        if op.kind is Equal {
            Seq::<HunkView>::empty()
        } else {
            seq![hunk_of_op(op, new, side)]
        }),
    decreases ops.len(),
{
    let tail = if op.kind is Equal {
        Seq::<HunkView>::empty()
    } else {
        seq![hunk_of_op(op, new, side)]
    };
    if ops.len() == 0 {
        assert(ops.push(op).first() == op);
        assert(ops.push(op).drop_first() =~= Seq::<DiffOp>::empty());
        assert(classify_spec(Seq::<DiffOp>::empty(), new, side) == Seq::<HunkView>::empty());
        assert(classify_spec(ops, new, side) == Seq::<HunkView>::empty());
        assert(classify_spec(ops.push(op), new, side) =~= classify_spec(ops, new, side) + tail);
    } else {
        assert(ops.push(op).first() == ops.first());
        assert(ops.push(op).drop_first() =~= ops.drop_first().push(op));
        lemma_classify_push(ops.drop_first(), op, new, side);
        assert(classify_spec(ops.push(op), new, side) =~= classify_spec(ops, new, side) + tail);
    }
}

/// Classification produces only `Pending` hunks.
pub proof fn lemma_classify_pending(ops: Seq<DiffOp>, new: Seq<Seq<char>>, side: Option<Side>)
    ensures
        forall|k: int|
            0 <= k < classify_spec(ops, new, side).len() ==> (#[trigger] classify_spec(
                ops,
                new,
                side,
            )[k]).status is Pending,
    decreases ops.len(),
{
    if ops.len() > 0 {
        lemma_classify_pending(ops.drop_first(), new, side);
        let whole = classify_spec(ops, new, side);
        let rest = classify_spec(ops.drop_first(), new, side);
        assert forall|k: int| 0 <= k < whole.len() implies (#[trigger] whole[k]).status
            is Pending by {
            if ops.first().kind is Equal {
                assert(whole[k] == rest[k]);
            } else {
                if k > 0 {
                    assert(whole[k] == rest[k - 1]);
                }
            }
        }
    }
}

/// There is at most one hunk per operation.
pub proof fn lemma_classify_len(ops: Seq<DiffOp>, new: Seq<Seq<char>>, side: Option<Side>)
    ensures
        classify_spec(ops, new, side).len() <= ops.len(),
    decreases ops.len(),
{
    if ops.len() > 0 {
        lemma_classify_len(ops.drop_first(), new, side);
    }
}

/// Erasing statuses changes nothing when every hunk is already `Pending`.
pub proof fn lemma_pending_views_id(hs: Seq<HunkView>)
    requires
        forall|k: int| 0 <= k < hs.len() ==> (#[trigger] hs[k]).status is Pending,
    ensures
        pending_views(hs) == hs,
{
    assert forall|k: int| 0 <= k < hs.len() implies pending_views(hs)[k] == hs[k] by {
        assert(hs[k].status is Pending);
    }
    assert(pending_views(hs) =~= hs);
}

/// Copies the lines `src[start..end]` into a fresh vector.
fn copy_lines(src: &Vec<String>, start: u32, end: u32) -> (r: Vec<String>)
    requires
        start <= end,
        end <= src@.len(),
    ensures
        views_of(r@) == views_of(src@).subrange(start as int, end as int),
{
    let mut r: Vec<String> = Vec::new();
    let mut i: u32 = start;
    while i < end
        invariant
            start <= i <= end,
            end <= src@.len(),
            r@ =~= src@.subrange(start as int, i as int),
        decreases end - i,
    {
        r.push(src[i as usize].clone());
        i = i + 1;
        proof {
            assert(r@ =~= src@.subrange(start as int, i as int));
        }
    }
    proof {
        assert(r@ =~= src@.subrange(start as int, end as int));
        assert(views_of(r@) =~= views_of(src@).subrange(start as int, end as int));
    }
    r
}

/// Converts edit operations into hunks: one hunk per non-`Equal` operation,
/// in operation order, each `Pending`, tagged with `side`, its text copied
/// out of `new`.
pub fn classify_hunks(ops: &Vec<DiffOp>, new: &Vec<String>, side: Option<Side>) -> (r: Vec<Hunk>)
    requires
        forall|k: int|
            0 <= k < ops@.len() ==> (#[trigger] ops@[k]).new_start <= ops@[k].new_end
                && ops@[k].new_end <= new@.len(),
    ensures
        hunk_views(r@) == classify_spec(ops@, views_of(new@), side),
{
    let ghost nv = views_of(new@);
    let mut r: Vec<Hunk> = Vec::new();
    let n = ops.len();
    let mut i: usize = 0;
    while i < n
        invariant
            n == ops@.len(),
            i <= n,
            forall|k: int|
                0 <= k < ops@.len() ==> (#[trigger] ops@[k]).new_start <= ops@[k].new_end
                    && ops@[k].new_end <= new@.len(),
            nv == views_of(new@),
            hunk_views(r@) == classify_spec(ops@.take(i as int), nv, side),
        decreases n - i,
    {
        let op = ops[i];
        proof {
            assert(ops@.take(i as int + 1).drop_last() =~= ops@.take(i as int));
            assert(ops@.take(i as int + 1) =~= ops@.take(i as int).push(op));
            lemma_classify_push(ops@.take(i as int), op, nv, side);
        }
        match op.kind {
            OpKind::Equal => {
                proof {
                    assert(hunk_views(r@) =~= classify_spec(ops@.take(i as int + 1), nv, side));
                }
            },
            _ => {
                let kind = match op.kind {
                    OpKind::Delete => HunkKind::Deleted,
                    OpKind::Insert => HunkKind::Added,
                    _ => HunkKind::Modified,
                };
                let text = copy_lines(new, op.new_start, op.new_end);
                let h = Hunk {
                    side,
                    kind,
                    source_start: op.new_start,
                    source_end: op.new_end,
                    base_start: op.old_start,
                    base_end: op.old_end,
                    text,
                    status: HunkStatus::Pending,
                };
                proof {
                    assert(h@ == hunk_of_op(op, nv, side));
                }
                r.push(h);
                proof {
                    assert(hunk_views(r@) =~= classify_spec(ops@.take(i as int + 1), nv, side));
                }
            },
        }
        i = i + 1;
    }
    proof {
        assert(ops@.take(n as int) =~= ops@);
    }
    r
}


/// Some hunk's base range contains `row`.
pub open spec fn hunk_base_covers(hs: Seq<HunkView>, row: int) -> bool {
    exists|j: int| 0 <= j < hs.len() && (#[trigger] hs[j]).base_start <= row < hs[j].base_end
}

/// Some `Equal` operation at or after index `i` contains `row` in its old
/// range.
pub open spec fn equal_op_covers(ops: Seq<DiffOp>, i: int, row: int) -> bool {
    exists|k: int|
        i <= k < ops.len() && (#[trigger] ops[k]).kind is Equal && ops[k].old_start <= row
            < ops[k].old_end
}

/// The hunks classified from the operations at index `i` on sit in order
/// within the remaining base rows, and together with the `Equal` operations
/// they cover every remaining base row exactly once.
proof fn lemma_hunk_partition_from(
    old: Seq<Seq<char>>,
    new: Seq<Seq<char>>,
    ops: Seq<DiffOp>,
    side: Option<Side>,
    i: int,
    oc: int,
    nc: int,
)
    requires
        0 <= i <= ops.len(),
        crate::diff::ops_wf_from(old, new, ops, i, oc, nc),
    ensures
        forall|j: int|
            0 <= j < classify_spec(ops.skip(i), new, side).len() ==> oc <= (
            #[trigger] classify_spec(ops.skip(i), new, side)[j]).base_start
                && classify_spec(ops.skip(i), new, side)[j].base_start <= classify_spec(
                ops.skip(i),
                new,
                side,
            )[j].base_end && classify_spec(ops.skip(i), new, side)[j].base_end <= old.len(),
        forall|j1: int, j2: int|
            0 <= j1 < j2 < classify_spec(ops.skip(i), new, side).len() ==> (#[trigger] classify_spec(
                ops.skip(i),
                new,
                side,
            )[j1]).base_end <= (#[trigger] classify_spec(ops.skip(i), new, side)[j2]).base_start,
        forall|row: int|
            oc <= row < old.len() ==> (hunk_base_covers(classify_spec(ops.skip(i), new, side), row)
                || equal_op_covers(ops, i, row)),
        forall|row: int|
            !(hunk_base_covers(classify_spec(ops.skip(i), new, side), row) && equal_op_covers(
                ops,
                i,
                row,
            )),
    decreases ops.len() - i,
{
    let cs = classify_spec(ops.skip(i), new, side);
    if i == ops.len() {
        assert(ops.skip(i) =~= Seq::<DiffOp>::empty());
        assert(cs.len() == 0);
        assert forall|row: int| !(hunk_base_covers(cs, row) && equal_op_covers(ops, i, row)) by {
            if hunk_base_covers(cs, row) {
                let j = choose|j: int|
                    0 <= j < cs.len() && (#[trigger] cs[j]).base_start <= row < cs[j].base_end;
                assert(false);
            }
        }
    } else {
        let op = ops[i];
        assert(crate::diff::op_wf_at(old, new, op, oc, nc));
        assert(ops.skip(i)[0] == op);
        assert(ops.skip(i).drop_first() =~= ops.skip(i + 1));
        let oc2 = op.old_end as int;
        let nc2 = op.new_end as int;
        lemma_hunk_partition_from(old, new, ops, side, i + 1, oc2, nc2);
        let cs2 = classify_spec(ops.skip(i + 1), new, side);
        if op.kind is Equal {
            assert(cs == cs2);
            assert forall|row: int| oc <= row < old.len() implies (hunk_base_covers(cs, row)
                || equal_op_covers(ops, i, row)) by {
                if row < oc2 {
                    assert(op.kind is Equal && op.old_start <= row < op.old_end);
                    assert(equal_op_covers(ops, i, row));
                } else {
                    if equal_op_covers(ops, i + 1, row) {
                        let k = choose|k: int|
                            i + 1 <= k < ops.len() && (#[trigger] ops[k]).kind is Equal
                                && ops[k].old_start <= row < ops[k].old_end;
                        assert(equal_op_covers(ops, i, row));
                    }
                }
            }
            assert forall|row: int| !(hunk_base_covers(cs, row) && equal_op_covers(
                ops,
                i,
                row,
            )) by {
                if hunk_base_covers(cs, row) && equal_op_covers(ops, i, row) {
                    let k = choose|k: int|
                        i <= k < ops.len() && (#[trigger] ops[k]).kind is Equal && ops[k].old_start
                            <= row < ops[k].old_end;
                    let j = choose|j: int|
                        0 <= j < cs.len() && (#[trigger] cs[j]).base_start <= row
                            < cs[j].base_end;
                    if k == i {
                        assert(oc2 <= cs2[j].base_start);
                        assert(false);
                    } else {
                        assert(equal_op_covers(ops, i + 1, row));
                        assert(false);
                    }
                }
            }
        } else {
            let h = hunk_of_op(op, new, side);
            lemma_classify_push(Seq::<DiffOp>::empty(), op, new, side);
            assert(cs == seq![h] + cs2) by {
                assert(ops.skip(i).first() == op);
            }
            assert(cs.len() == 1 + cs2.len());
            assert(cs[0] == h);
            assert(forall|j: int| 1 <= j < cs.len() ==> cs[j] == cs2[j - 1]);
            assert forall|j1: int, j2: int| 0 <= j1 < j2 < cs.len() implies (
            #[trigger] cs[j1]).base_end <= (#[trigger] cs[j2]).base_start by {
                if j1 == 0 {
                    assert(cs[j2] == cs2[j2 - 1]);
                    assert(oc2 <= cs2[j2 - 1].base_start);
                } else {
                    assert(cs[j1] == cs2[j1 - 1] && cs[j2] == cs2[j2 - 1]);
                }
            }
            assert forall|row: int| oc <= row < old.len() implies (hunk_base_covers(cs, row)
                || equal_op_covers(ops, i, row)) by {
                if row < oc2 {
                    assert(cs[0].base_start <= row < cs[0].base_end);
                    assert(hunk_base_covers(cs, row));
                } else {
                    if hunk_base_covers(cs2, row) {
                        let j = choose|j: int|
                            0 <= j < cs2.len() && (#[trigger] cs2[j]).base_start <= row
                                < cs2[j].base_end;
                        assert(cs[j + 1].base_start <= row < cs[j + 1].base_end);
                        assert(hunk_base_covers(cs, row));
                    }
                    if equal_op_covers(ops, i + 1, row) {
                        let k = choose|k: int|
                            i + 1 <= k < ops.len() && (#[trigger] ops[k]).kind is Equal
                                && ops[k].old_start <= row < ops[k].old_end;
                        assert(equal_op_covers(ops, i, row));
                    }
                }
            }
            assert forall|row: int| !(hunk_base_covers(cs, row) && equal_op_covers(
                ops,
                i,
                row,
            )) by {
                if hunk_base_covers(cs, row) && equal_op_covers(ops, i, row) {
                    let k = choose|k: int|
                        i <= k < ops.len() && (#[trigger] ops[k]).kind is Equal && ops[k].old_start
                            <= row < ops[k].old_end;
                    assert(k > i);
                    crate::diff::lemma_ops_bounds(old, new, ops, i + 1, oc2, nc2);
                    assert(oc2 <= ops[k].old_start);
                    let j = choose|j: int|
                        0 <= j < cs.len() && (#[trigger] cs[j]).base_start <= row
                            < cs[j].base_end;
                    if j == 0 {
                        assert(row < oc2);
                        assert(false);
                    } else {
                        assert(cs[j] == cs2[j - 1]);
                        assert(hunk_base_covers(cs2, row));
                        assert(equal_op_covers(ops, i + 1, row));
                        assert(false);
                    }
                }
            }
        }
    }
}

/// Coverage: the base ranges of the hunks of a two-way comparison, together
/// with the old ranges of its `Equal` operations, partition the old line
/// range `[0, old.len())` — every old row lies in exactly one of them, the
/// hunks are in base order, and no two hunks overlap.
pub proof fn lemma_two_way_coverage(old: Seq<Seq<char>>, new: Seq<Seq<char>>)
    requires
        old.len() <= MAX_LINES,
        new.len() <= MAX_LINES,
    ensures
        forall|row: int|
            0 <= row < old.len() ==> (hunk_base_covers(two_way_hunk_views(old, new), row)
                || equal_op_covers(checked_ops(old, new), 0, row)),
        forall|row: int|
            !(hunk_base_covers(two_way_hunk_views(old, new), row) && equal_op_covers(
                checked_ops(old, new),
                0,
                row,
            )),
        forall|j1: int, j2: int|
            0 <= j1 < j2 < two_way_hunk_views(old, new).len() ==> (#[trigger] two_way_hunk_views(
                old,
                new,
            )[j1]).base_end <= (#[trigger] two_way_hunk_views(old, new)[j2]).base_start,
        forall|j: int|
            0 <= j < two_way_hunk_views(old, new).len() ==> 0 <= (#[trigger] two_way_hunk_views(
                old,
                new,
            )[j]).base_start && two_way_hunk_views(old, new)[j].base_start <= two_way_hunk_views(
                old,
                new,
            )[j].base_end && two_way_hunk_views(old, new)[j].base_end <= old.len(),
{
    let ops = checked_ops(old, new);
    crate::diff::lemma_checked_ops_wf(old, new);
    lemma_hunk_partition_from(old, new, ops, None, 0, 0, 0);
    assert(ops.skip(0) =~= ops);
}

/// The hunks of a two-way comparison of `old` against `new`.
pub open spec fn two_way_hunk_views(old: Seq<Seq<char>>, new: Seq<Seq<char>>) -> Seq<HunkView> {
    classify_spec(checked_ops(old, new), new, None)
}

/// The hunks of one side of a three-way comparison against the base.
pub open spec fn side_hunk_views(base: Seq<Seq<char>>, source: Seq<Seq<char>>, side: Side) -> Seq<
    HunkView,
> {
    classify_spec(checked_ops(base, source), source, Some(side))
}

/// Compares `old` against `new` line by line and returns the classified
/// hunks, in row order, each `Pending` and without a side tag. Identical
/// inputs yield no hunks at all.
pub fn compute_two_way(old: &Vec<String>, new: &Vec<String>) -> (r: Vec<Hunk>)
    requires
        old@.len() <= MAX_LINES,
        new@.len() <= MAX_LINES,
    ensures
        hunk_views(r@) == two_way_hunk_views(views_of(old@), views_of(new@)),
        views_of(old@) == views_of(new@) ==> r@.len() == 0,
{
    let ghost ov = views_of(old@);
    let ghost nv = views_of(new@);
    let ops = diff_lines(old, new);
    proof {
        crate::diff::lemma_ops_bounds(ov, nv, ops@, 0, 0, 0);
        assert(nv.len() == new@.len());
        if ov == nv {
            let ops0 = checked_ops(ov, nv);
            if ov.len() == 0 {
                assert(classify_spec(ops0, nv, None) == Seq::<HunkView>::empty());
            } else {
                assert(ops0 == seq![crate::diff::full_equal_op(ov.len() as int)]);
                assert(ops0.first().kind is Equal);
                assert(ops0.drop_first() =~= Seq::<DiffOp>::empty());
                assert(classify_spec(ops0.drop_first(), nv, None) == Seq::<HunkView>::empty());
                assert(classify_spec(ops0, nv, None) == Seq::<HunkView>::empty());
            }
        }
    }
    let r = classify_hunks(&ops, new, None);
    proof {
        assert(hunk_views(r@).len() == r@.len());
    }
    r
}

/// Compares `theirs` and `ours` independently against `base` and returns
/// the two classified hunk lists, side-tagged, each hunk `Pending`.
pub fn compute_three_way(base: &Vec<String>, theirs: &Vec<String>, ours: &Vec<String>) -> (r: (
    Vec<Hunk>,
    Vec<Hunk>,
))
    requires
        base@.len() <= MAX_LINES,
        theirs@.len() <= MAX_LINES,
        ours@.len() <= MAX_LINES,
    ensures
        hunk_views(r.0@) == side_hunk_views(views_of(base@), views_of(theirs@), Side::Theirs),
        hunk_views(r.1@) == side_hunk_views(views_of(base@), views_of(ours@), Side::Ours),
{
    let ghost bv = views_of(base@);
    let theirs_ops = diff_lines(base, theirs);
    proof {
        crate::diff::lemma_ops_bounds(bv, views_of(theirs@), theirs_ops@, 0, 0, 0);
    }
    let theirs_hunks = classify_hunks(&theirs_ops, theirs, Some(Side::Theirs));
    let ours_ops = diff_lines(base, ours);
    proof {
        crate::diff::lemma_ops_bounds(bv, views_of(ours@), ours_ops@, 0, 0, 0);
    }
    let ours_hunks = classify_hunks(&ours_ops, ours, Some(Side::Ours));
    (theirs_hunks, ours_hunks)
}

} // verus!
