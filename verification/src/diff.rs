//! Line differ: computes an ordered sequence of edit operations between two
//! line sequences, such that replaying the operations transforms the old
//! sequence into the new one.
//!
//! The raw operations come from an outside diff routine; everything it
//! returns is validated here before any other component relies on it, so the
//! well-formedness guarantees below hold for every input.

use vstd::prelude::*;

verus! {

/// Upper bound on the number of lines a comparison accepts, so that row
/// numbers fit in `u32` and line-count deltas fit in `i32`.
pub const MAX_LINES: usize = 0x7fff_ffff;

/// The kind of one edit operation.
#[derive(Clone, Copy, PartialEq, Eq, Structural, Debug)]
pub enum OpKind {
    /// The two ranges hold the same lines.
    Equal,
    /// The old range was removed; the new range is empty.
    Delete,
    /// The new range was inserted; the old range is empty.
    Insert,
    /// The old range was replaced by the new range.
    Replace,
}

/// One edit operation over half-open line-index ranges in the old and the
/// new sequence. Operations are emitted in order: each starts where the
/// previous one ended, in both coordinate spaces.
#[derive(Clone, Copy, PartialEq, Eq, Structural, Debug)]
pub struct DiffOp {
    pub kind: OpKind,
    pub old_start: u32,
    pub old_end: u32,
    pub new_start: u32,
    pub new_end: u32,
}

/// An edit operation as the outside diff routine reports it, before
/// validation: raw `usize` ranges in both sequences.
#[derive(Clone, Copy, Debug)]
pub struct RawOp {
    pub kind: OpKind,
    pub old_start: usize,
    pub old_end: usize,
    pub new_start: usize,
    pub new_end: usize,
}

/// The character sequences of a sequence of lines.
pub open spec fn views_of(lines: Seq<String>) -> Seq<Seq<char>> {
    lines.map_values(|s: String| s@)
}

/// What `similar::capture_diff_slices` returns with the Myers algorithm for
/// the given line sequences. The routine is a pure function of its two
/// inputs, so the result can be named.
pub uninterp spec fn similar_line_ops(old: Seq<Seq<char>>, new: Seq<Seq<char>>) -> Seq<RawOp>;

/// Relies on `similar::capture_diff_slices` (Myers algorithm): it computes
/// the edit operations between the two line slices, a function of the line
/// contents alone.
#[verifier::external_body]
fn similar_diff(old: &Vec<String>, new: &Vec<String>) -> (r: Vec<RawOp>)
    ensures
        r@ == similar_line_ops(views_of(old@), views_of(new@)),
{
    let o: Vec<&str> = old.iter().map(|s| s.as_str()).collect();
    let n: Vec<&str> = new.iter().map(|s| s.as_str()).collect();
    let ops = similar::capture_diff_slices(similar::Algorithm::Myers, &o, &n);
    ops.into_iter().map(|op| {
        let (tag, old_range, new_range) = op.as_tag_tuple();
        RawOp {
            kind: match tag {
                similar::DiffTag::Equal => OpKind::Equal,
                similar::DiffTag::Delete => OpKind::Delete,
                similar::DiffTag::Insert => OpKind::Insert,
                similar::DiffTag::Replace => OpKind::Replace,
            },
            old_start: old_range.start, old_end: old_range.end, new_start: new_range.start, new_end: new_range.end,
        }
    }).collect()
}

/// Whether the two line sequences hold the same lines.
fn lines_equal(a: &Vec<String>, b: &Vec<String>) -> (r: bool)
    ensures
        r == (views_of(a@) == views_of(b@)),
{
    if a.len() != b.len() {
        proof {
            assert(views_of(a@).len() == a@.len());
            assert(views_of(b@).len() == b@.len());
        }
        return false;
    }
    let n = a.len();
    let mut i: usize = 0;
    while i < n
        invariant
            n == a@.len() == b@.len(),
            i <= n,
            forall|k: int| 0 <= k < i ==> a@[k]@ == b@[k]@,
        decreases n - i,
    {
        if !(a[i] == b[i]) {
            proof {
                assert(views_of(a@)[i as int] != views_of(b@)[i as int]);
            }
            return false;
        }
        i = i + 1;
    }
    proof {
        assert(views_of(a@) =~~= views_of(b@));
    }
    true
}

/// One operation is well formed at cursor positions `oc` (old) and `nc`
/// (new): it starts at the cursors, stays in bounds, and its ranges fit its
/// kind. An `Equal` operation relates ranges that hold the same lines.
pub open spec fn op_wf_at(
    old: Seq<Seq<char>>,
    new: Seq<Seq<char>>,
    op: DiffOp,
    oc: int,
    nc: int,
) -> bool {
    &&& op.old_start == oc
    &&& op.new_start == nc
    &&& op.old_start <= op.old_end
    &&& op.old_end <= old.len()
    &&& op.new_start <= op.new_end
    &&& op.new_end <= new.len()
    &&& match op.kind {
        OpKind::Equal => {
            &&& op.old_end - op.old_start == op.new_end - op.new_start
            &&& op.old_end > op.old_start
            &&& forall|j: int|
                op.old_start <= j < op.old_end ==> old[j] == new[j - op.old_start + op.new_start]
        },
        OpKind::Delete => op.old_end > op.old_start && op.new_end == op.new_start,
        OpKind::Insert => op.old_end == op.old_start && op.new_end > op.new_start,
        OpKind::Replace => op.old_end > op.old_start && op.new_end > op.new_start,
    }
}

/// The operations from index `i` on are well formed starting at cursors
/// `oc` and `nc`, and end exactly at the ends of both sequences.
pub open spec fn ops_wf_from(
    old: Seq<Seq<char>>,
    new: Seq<Seq<char>>,
    ops: Seq<DiffOp>,
    i: int,
    oc: int,
    nc: int,
) -> bool
    decreases ops.len() - i,
    when 0 <= i <= ops.len()
{
    if i == ops.len() {
        oc == old.len() && nc == new.len()
    } else {
        &&& op_wf_at(old, new, ops[i], oc, nc)
        &&& ops_wf_from(old, new, ops, i + 1, ops[i].old_end as int, ops[i].new_end as int)
    }
}

/// The operation list partitions both sequences in order, from the start of
/// each to its end, with `Equal` operations relating equal lines.
pub open spec fn ops_wf(old: Seq<Seq<char>>, new: Seq<Seq<char>>, ops: Seq<DiffOp>) -> bool {
    ops_wf_from(old, new, ops, 0, 0, 0)
}

/// Every index of every raw operation is at most `MAX_LINES`.
pub open spec fn raw_fits(raw: Seq<RawOp>) -> bool {
    forall|i: int|
        0 <= i < raw.len() ==> {
            &&& (#[trigger] raw[i]).old_start <= MAX_LINES
            &&& raw[i].old_end <= MAX_LINES
            &&& raw[i].new_start <= MAX_LINES
            &&& raw[i].new_end <= MAX_LINES
        }
}

/// A raw operation with its indices narrowed to `u32`.
pub open spec fn op_of_raw(r: RawOp) -> DiffOp {
    DiffOp {
        kind: r.kind,
        old_start: r.old_start as u32,
        old_end: r.old_end as u32,
        new_start: r.new_start as u32,
        new_end: r.new_end as u32,
    }
}

/// The raw operations, narrowed pointwise.
pub open spec fn ops_of_raw(raw: Seq<RawOp>) -> Seq<DiffOp> {
    raw.map_values(|r: RawOp| op_of_raw(r))
}

/// Narrows raw operations to `u32` ranges; `None` when an index exceeds
/// `MAX_LINES`.
fn convert_raw(raw: &Vec<RawOp>) -> (r: Option<Vec<DiffOp>>)
    ensures
        r is Some <==> raw_fits(raw@),
        r is Some ==> r.unwrap()@ == ops_of_raw(raw@),
{
    let mut out: Vec<DiffOp> = Vec::new();
    let n = raw.len();
    let mut i: usize = 0;
    while i < n
        invariant
            n == raw@.len(),
            i <= n,
            forall|k: int|
                0 <= k < i ==> {
                    &&& (#[trigger] raw@[k]).old_start <= MAX_LINES
                    &&& raw@[k].old_end <= MAX_LINES
                    &&& raw@[k].new_start <= MAX_LINES
                    &&& raw@[k].new_end <= MAX_LINES
                },
            out@ =~= ops_of_raw(raw@.take(i as int)),
        decreases n - i,
    {
        let op = raw[i];
        if op.old_start > MAX_LINES || op.old_end > MAX_LINES || op.new_start > MAX_LINES
            || op.new_end > MAX_LINES {
            return None;
        }
        out.push(DiffOp {
            kind: op.kind,
            old_start: op.old_start as u32,
            old_end: op.old_end as u32,
            new_start: op.new_start as u32,
            new_end: op.new_end as u32,
        });
        i = i + 1;
        proof {
            assert(out@ =~= ops_of_raw(raw@.take(i as int)));
        }
    }
    proof {
        assert(raw@.take(n as int) =~= raw@);
    }
    Some(out)
}

/// Whether the lines `old[os..oe]` equal the lines of `new` starting at `ns`.
fn equal_range(old: &Vec<String>, new: &Vec<String>, os: u32, oe: u32, ns: u32) -> (r: bool)
    requires
        os <= oe,
        oe <= old@.len(),
        ns + (oe - os) <= new@.len(),
        new@.len() <= MAX_LINES,
    ensures
        r == (forall|j: int|
            os <= j < oe ==> views_of(old@)[j] == views_of(new@)[j - os + ns]),
{
    let mut j: u32 = os;
    while j < oe
        invariant
            os <= j <= oe,
            oe <= old@.len(),
            ns + (oe - os) <= new@.len(),
            new@.len() <= MAX_LINES,
            forall|k: int| os <= k < j ==> views_of(old@)[k] == views_of(new@)[k - os + ns],
        decreases oe - j,
    {
        let nj = ns + (j - os);
        if !(old[j as usize] == new[nj as usize]) {
            proof {
                assert(views_of(old@)[j as int] == old@[j as int]@);
                assert(views_of(new@)[nj as int] == new@[nj as int]@);
            }
            return false;
        }
        proof {
            assert(views_of(old@)[j as int] == old@[j as int]@);
            assert(views_of(new@)[nj as int] == new@[nj as int]@);
        }
        j = j + 1;
    }
    true
}

/// Whether the operation list is well formed for the two line sequences.
fn check_wf(old: &Vec<String>, new: &Vec<String>, ops: &Vec<DiffOp>) -> (b: bool)
    requires
        old@.len() <= MAX_LINES,
        new@.len() <= MAX_LINES,
    ensures
        b == ops_wf(views_of(old@), views_of(new@), ops@),
{
    let ghost ov = views_of(old@);
    let ghost nv = views_of(new@);
    proof {
        assert(ov.len() == old@.len());
        assert(nv.len() == new@.len());
    }
    let n = ops.len();
    let mut i: usize = 0;
    let mut oc: u32 = 0;
    let mut nc: u32 = 0;
    while i < n
        invariant
            n == ops@.len(),
            i <= n,
            old@.len() <= MAX_LINES,
            new@.len() <= MAX_LINES,
            oc <= old@.len(),
            nc <= new@.len(),
            ov == views_of(old@),
            nv == views_of(new@),
            ov.len() == old@.len(),
            nv.len() == new@.len(),
            ops_wf(ov, nv, ops@) == ops_wf_from(ov, nv, ops@, i as int, oc as int, nc as int),
        decreases n - i,
    {
        let op = ops[i];
        let structure_ok = op.old_start == oc && op.new_start == nc && op.old_start <= op.old_end
            && op.old_end as usize <= old.len() && op.new_start <= op.new_end
            && op.new_end as usize <= new.len();
        if !structure_ok {
            return false;
        }
        let kind_ok = match op.kind {
            OpKind::Equal => {
                op.old_end - op.old_start == op.new_end - op.new_start && op.old_end > op.old_start
                    && equal_range(old, new, op.old_start, op.old_end, op.new_start)
            },
            OpKind::Delete => op.old_end > op.old_start && op.new_end == op.new_start,
            OpKind::Insert => op.old_end == op.old_start && op.new_end > op.new_start,
            OpKind::Replace => op.old_end > op.old_start && op.new_end > op.new_start,
        };
        if !kind_ok {
            return false;
        }
        oc = op.old_end;
        nc = op.new_end;
        i = i + 1;
    }
    oc as usize == old.len() && nc as usize == new.len()
}

/// The single `Equal` operation that spans two equal sequences of `len`
/// lines.
pub open spec fn full_equal_op(len: int) -> DiffOp {
    DiffOp {
        kind: OpKind::Equal,
        old_start: 0,
        old_end: len as u32,
        new_start: 0,
        new_end: len as u32,
    }
}

/// The one-operation list used when the outside routine's answer fails
/// validation: the whole old range is replaced by the whole new range
/// (or plainly inserted or deleted when one side is empty).
pub open spec fn fallback_ops(old: Seq<Seq<char>>, new: Seq<Seq<char>>) -> Seq<DiffOp> {
    if old.len() == 0 {
        seq![DiffOp {
            kind: OpKind::Insert,
            old_start: 0,
            old_end: 0,
            new_start: 0,
            new_end: new.len() as u32,
        }]
    } else if new.len() == 0 {
        seq![DiffOp {
            kind: OpKind::Delete,
            old_start: 0,
            old_end: old.len() as u32,
            new_start: 0,
            new_end: 0,
        }]
    } else {
        seq![DiffOp {
            kind: OpKind::Replace,
            old_start: 0,
            old_end: old.len() as u32,
            new_start: 0,
            new_end: new.len() as u32,
        }]
    }
}

/// What the line differ returns: a single `Equal` operation (or nothing)
/// when the inputs hold the same lines; otherwise the outside routine's
/// operations when they validate, and `fallback_ops` when they do not.
pub open spec fn checked_ops(old: Seq<Seq<char>>, new: Seq<Seq<char>>) -> Seq<DiffOp> {
    if old == new {
        if old.len() == 0 {
            Seq::<DiffOp>::empty()
        } else {
            seq![full_equal_op(old.len() as int)]
        }
    } else {
        let raw = similar_line_ops(old, new);
        if raw_fits(raw) && ops_wf(old, new, ops_of_raw(raw)) {
            ops_of_raw(raw)
        } else {
            fallback_ops(old, new)
        }
    }
}

/// Computes the ordered edit operations that transform `old` into `new`,
/// line by line. Identical inputs give a single `Equal` operation spanning
/// everything (none at all when both are empty); the result is always a
/// well-formed partition of both sequences.
pub fn diff_lines(old: &Vec<String>, new: &Vec<String>) -> (r: Vec<DiffOp>)
    requires
        old@.len() <= MAX_LINES,
        new@.len() <= MAX_LINES,
    ensures
        r@ == checked_ops(views_of(old@), views_of(new@)),
        ops_wf(views_of(old@), views_of(new@), r@),
{
    let ghost ov = views_of(old@);
    let ghost nv = views_of(new@);
    proof {
        assert(ov.len() == old@.len());
        assert(nv.len() == new@.len());
    }
    if lines_equal(old, new) {
        if old.len() == 0 {
            let r: Vec<DiffOp> = Vec::new();
            proof {
                assert(r@ =~= checked_ops(ov, nv));
            }
            r
        } else {
            let len = old.len() as u32;
            let op = DiffOp { kind: OpKind::Equal, old_start: 0, old_end: len, new_start: 0, new_end: len };
            let mut r: Vec<DiffOp> = Vec::new();
            r.push(op);
            proof {
                assert(r@ =~= checked_ops(ov, nv));
                assert(op_wf_at(ov, nv, op, 0, 0)) by {
                    assert(forall|j: int| 0 <= j < ov.len() ==> ov[j] == nv[j]);
                }
                assert(ops_wf_from(ov, nv, r@, 1, len as int, len as int));
            }
            r
        }
    } else {
        let raw = similar_diff(old, new);
        let converted = convert_raw(&raw);
        if let Some(ops) = converted {
            if check_wf(old, new, &ops) {
                return ops;
            }
            proof {
                assert(checked_ops(ov, nv) == fallback_ops(ov, nv));
            }
        } else {
            proof {
                assert(checked_ops(ov, nv) == fallback_ops(ov, nv));
            }
        }
        let op = if old.len() == 0 {
            DiffOp {
                kind: OpKind::Insert,
                old_start: 0,
                old_end: 0,
                new_start: 0,
                new_end: new.len() as u32,
            }
        } else if new.len() == 0 {
            DiffOp {
                kind: OpKind::Delete,
                old_start: 0,
                old_end: old.len() as u32,
                new_start: 0,
                new_end: 0,
            }
        } else {
            DiffOp {
                kind: OpKind::Replace,
                old_start: 0,
                old_end: old.len() as u32,
                new_start: 0,
                new_end: new.len() as u32,
            }
        };
        let mut r: Vec<DiffOp> = Vec::new();
        r.push(op);
        proof {
            if old@.len() == 0 && new@.len() == 0 {
                assert(ov =~~= nv);
                assert(false);
            }
            assert(r@ =~= fallback_ops(ov, nv));
            assert(ops_wf_from(ov, nv, r@, 1, op.old_end as int, op.new_end as int));
        }
        r
    }
}

/// Taking views commutes with taking a subrange.
pub proof fn lemma_views_subrange(s: Seq<String>, a: int, b: int)
    requires
        0 <= a <= b <= s.len(),
    ensures
        views_of(s.subrange(a, b)) == views_of(s).subrange(a, b),
{
    assert(views_of(s.subrange(a, b)) =~= views_of(s).subrange(a, b));
}

/// Taking views commutes with concatenation.
pub proof fn lemma_views_concat(a: Seq<String>, b: Seq<String>)
    ensures
        views_of(a + b) == views_of(a) + views_of(b),
{
    assert(views_of(a + b) =~= views_of(a) + views_of(b));
}

/// The checked operation list is well formed, whatever the outside routine
/// returned.
pub proof fn lemma_checked_ops_wf(old: Seq<Seq<char>>, new: Seq<Seq<char>>)
    requires
        old.len() <= MAX_LINES,
        new.len() <= MAX_LINES,
    ensures
        ops_wf(old, new, checked_ops(old, new)),
{
    let ops = checked_ops(old, new);
    if old == new {
        if old.len() == 0 {
            assert(ops_wf_from(old, new, ops, 0, 0, 0));
        } else {
            let op = full_equal_op(old.len() as int);
            assert(ops[0] == op);
            assert(op_wf_at(old, new, op, 0, 0)) by {
                assert(forall|j: int| 0 <= j < old.len() ==> old[j] == new[j]);
            }
            assert(ops_wf_from(old, new, ops, 1, op.old_end as int, op.new_end as int));
        }
    } else {
        let raw = similar_line_ops(old, new);
        if raw_fits(raw) && ops_wf(old, new, ops_of_raw(raw)) {
        } else {
            if old.len() == 0 && new.len() == 0 {
                assert(old =~~= new);
                assert(false);
            }
            let op = ops[0];
            assert(ops_wf_from(old, new, ops, 1, op.old_end as int, op.new_end as int));
        }
    }
}

/// A well-formed operation list is no longer than the two sequences
/// together: every operation advances at least one cursor.
pub proof fn lemma_ops_len_bound(
    old: Seq<Seq<char>>,
    new: Seq<Seq<char>>,
    ops: Seq<DiffOp>,
    i: int,
    oc: int,
    nc: int,
)
    requires
        0 <= i <= ops.len(),
        ops_wf_from(old, new, ops, i, oc, nc),
    ensures
        ops.len() - i <= (old.len() - oc) + (new.len() - nc),
    decreases ops.len() - i,
{
    if i < ops.len() {
        lemma_ops_len_bound(old, new, ops, i + 1, ops[i].old_end as int, ops[i].new_end as int);
    }
}

/// The operation's old-side range contains `row`.
pub open spec fn op_covers_old(op: DiffOp, row: int) -> bool {
    op.old_start <= row < op.old_end
}

/// Some operation at or after index `i` contains `row` in its old range.
pub open spec fn some_op_covers_old(ops: Seq<DiffOp>, i: int, row: int) -> bool {
    exists|k: int| i <= k < ops.len() && #[trigger] op_covers_old(ops[k], row)
}

/// Some operation at or after index `i` contains `row` in its new range.
pub open spec fn some_op_covers_new(ops: Seq<DiffOp>, i: int, row: int) -> bool {
    exists|k: int| i <= k < ops.len() && #[trigger] op_covers_new(ops[k], row)
}

/// The operation's new-side range contains `row`.
pub open spec fn op_covers_new(op: DiffOp, row: int) -> bool {
    op.new_start <= row < op.new_end
}

/// Every operation from `i` on lies at or after the cursors, within bounds.
pub proof fn lemma_ops_bounds(
    old: Seq<Seq<char>>,
    new: Seq<Seq<char>>,
    ops: Seq<DiffOp>,
    i: int,
    oc: int,
    nc: int,
)
    requires
        0 <= i <= ops.len(),
        ops_wf_from(old, new, ops, i, oc, nc),
    ensures
        forall|k: int|
            i <= k < ops.len() ==> {
                &&& oc <= (#[trigger] ops[k]).old_start <= ops[k].old_end <= old.len()
                &&& nc <= ops[k].new_start <= ops[k].new_end <= new.len()
            },
        oc <= old.len(),
        nc <= new.len(),
    decreases ops.len() - i,
{
    if i < ops.len() {
        lemma_ops_bounds(old, new, ops, i + 1, ops[i].old_end as int, ops[i].new_end as int);
    }
}

/// Distinct operations occupy disjoint, ordered ranges on both sides.
pub proof fn lemma_ops_disjoint(
    old: Seq<Seq<char>>,
    new: Seq<Seq<char>>,
    ops: Seq<DiffOp>,
    i: int,
    oc: int,
    nc: int,
)
    requires
        0 <= i <= ops.len(),
        ops_wf_from(old, new, ops, i, oc, nc),
    ensures
        forall|k1: int, k2: int|
            i <= k1 < k2 < ops.len() ==> (#[trigger] ops[k1]).old_end <= (#[trigger] ops[k2]).old_start
                && ops[k1].new_end <= ops[k2].new_start,
    decreases ops.len() - i,
{
    if i < ops.len() {
        lemma_ops_bounds(old, new, ops, i + 1, ops[i].old_end as int, ops[i].new_end as int);
        lemma_ops_disjoint(old, new, ops, i + 1, ops[i].old_end as int, ops[i].new_end as int);
    }
}

/// Every row at or after the cursors is inside some operation's range.
pub proof fn lemma_ops_cover(
    old: Seq<Seq<char>>,
    new: Seq<Seq<char>>,
    ops: Seq<DiffOp>,
    i: int,
    oc: int,
    nc: int,
)
    requires
        0 <= i <= ops.len(),
        ops_wf_from(old, new, ops, i, oc, nc),
    ensures
        forall|row: int| oc <= row < old.len() ==> #[trigger] some_op_covers_old(ops, i, row),
        forall|row: int| nc <= row < new.len() ==> #[trigger] some_op_covers_new(ops, i, row),
    decreases ops.len() - i,
{
    if i < ops.len() {
        lemma_ops_cover(old, new, ops, i + 1, ops[i].old_end as int, ops[i].new_end as int);
        assert forall|row: int| oc <= row < old.len() implies #[trigger] some_op_covers_old(
            ops,
            i,
            row,
        ) by {
            if row < ops[i].old_end {
                assert(op_covers_old(ops[i], row));
            } else {
                assert(some_op_covers_old(ops, i + 1, row));
                let k = choose|k: int|
                    i + 1 <= k < ops.len() && #[trigger] op_covers_old(ops[k], row);
                assert(op_covers_old(ops[k], row));
            }
        }
        assert forall|row: int| nc <= row < new.len() implies #[trigger] some_op_covers_new(
            ops,
            i,
            row,
        ) by {
            if row < ops[i].new_end {
                assert(op_covers_new(ops[i], row));
            } else {
                assert(some_op_covers_new(ops, i + 1, row));
                let k = choose|k: int|
                    i + 1 <= k < ops.len() && #[trigger] op_covers_new(ops[k], row);
                assert(op_covers_new(ops[k], row));
            }
        }
    }
}

/// Coverage: a well-formed operation list partitions the old line range
/// `[0, old.len())` — every row lies in some operation's old range, and the
/// old ranges of distinct operations are disjoint and in order. The same
/// holds of the new line range.
pub proof fn lemma_coverage_partition(old: Seq<Seq<char>>, new: Seq<Seq<char>>, ops: Seq<DiffOp>)
    requires
        ops_wf(old, new, ops),
    ensures
        forall|row: int| 0 <= row < old.len() ==> #[trigger] some_op_covers_old(ops, 0, row),
        forall|row: int| 0 <= row < new.len() ==> #[trigger] some_op_covers_new(ops, 0, row),
        forall|k1: int, k2: int|
            0 <= k1 < k2 < ops.len() ==> (#[trigger] ops[k1]).old_end <= (#[trigger] ops[k2]).old_start
                && ops[k1].new_end <= ops[k2].new_start,
        forall|k: int|
            0 <= k < ops.len() ==> {
                &&& 0 <= (#[trigger] ops[k]).old_start <= ops[k].old_end <= old.len()
                &&& 0 <= ops[k].new_start <= ops[k].new_end <= new.len()
            },
{
    lemma_ops_bounds(old, new, ops, 0, 0, 0);
    lemma_ops_disjoint(old, new, ops, 0, 0, 0);
    lemma_ops_cover(old, new, ops, 0, 0, 0);
}

} // verus!
