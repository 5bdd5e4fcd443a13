//! Applying hunks to the base line buffer: the single-hunk accept edit of
//! the merge flow, and the full replay that rebuilds the new text from the
//! old one.

use vstd::prelude::*;
use crate::diff::{lemma_views_concat, lemma_views_subrange, views_of};
use crate::hunks::{Hunk, HunkKind, HunkStatus, HunkView};

verus! {

/// Why a hunk could not be applied.
#[derive(Clone, Copy, PartialEq, Eq, Structural, Debug)]
pub enum ApplyError {
    /// The hunk's base range runs backwards (start after end).
    InvalidRange,
    /// The hunk has already been accepted or ignored.
    NotPending,
    /// The hunk's base range does not fit the buffer as it now stands.
    StaleRange,
    /// Applying the hunk would grow the buffer past the line bound the
    /// crate accepts: a capacity limit, not a correctness failure.
    TooLarge,
}

/// The buffer with `base[start..end]` replaced by `text`.
pub open spec fn splice_view(
    base: Seq<Seq<char>>,
    start: int,
    end: int,
    text: Seq<Seq<char>>,
) -> Seq<Seq<char>> {
    base.subrange(0, start) + text + base.subrange(end, base.len() as int)
}

/// What accepting one hunk does to the base buffer: its base range is
/// replaced by its text, except that a `Deleted` hunk is a no-op (accepting
/// it means accepting that the side removed those lines; the base keeps
/// them).
pub open spec fn apply_hunk_view(base: Seq<Seq<char>>, h: HunkView) -> Seq<Seq<char>> {
    if h.kind is Deleted {
        base
    } else {
        splice_view(base, h.base_start as int, h.base_end as int, h.text)
    }
}

/// The hunk with its status set to `Accepted` and all else unchanged.
pub open spec fn accepted_view(h: HunkView) -> HunkView {
    HunkView { status: HunkStatus::Accepted, ..h }
}

/// Builds the buffer with `base[start..end]` replaced by the lines of
/// `text`.
pub(crate) fn splice_lines(base: &Vec<String>, start: usize, end: usize, text: &Vec<String>) -> (r: Vec<
    String,
>)
    requires
        start <= end,
        end <= base@.len(),
    ensures
        r@ == base@.subrange(0, start as int) + text@ + base@.subrange(
            end as int,
            base@.len() as int,
        ),
        views_of(r@) == splice_view(views_of(base@), start as int, end as int, views_of(text@)),
{
    let mut r: Vec<String> = Vec::new();
    let mut i: usize = 0;
    while i < start
        invariant
            i <= start <= end <= base@.len(),
            r@ =~= base@.subrange(0, i as int),
        decreases start - i,
    {
        r.push(base[i].clone());
        i = i + 1;
        proof {
            assert(r@ =~= base@.subrange(0, i as int));
        }
    }
    let mut j: usize = 0;
    while j < text.len()
        invariant
            start <= end <= base@.len(),
            j <= text@.len(),
            r@ =~= base@.subrange(0, start as int) + text@.subrange(0, j as int),
        decreases text@.len() - j,
    {
        r.push(text[j].clone());
        j = j + 1;
        proof {
            assert(r@ =~= base@.subrange(0, start as int) + text@.subrange(0, j as int));
        }
    }
    let mut k: usize = end;
    while k < base.len()
        invariant
            start <= end <= k <= base@.len(),
            r@ =~= base@.subrange(0, start as int) + text@ + base@.subrange(end as int, k as int),
        decreases base@.len() - k,
    {
        r.push(base[k].clone());
        k = k + 1;
        proof {
            assert(r@ =~= base@.subrange(0, start as int) + text@ + base@.subrange(
                end as int,
                k as int,
            ));
        }
    }
    proof {
        assert(r@ == base@.subrange(0, start as int) + text@ + base@.subrange(
            end as int,
            base@.len() as int,
        ));
        lemma_views_concat(base@.subrange(0, start as int) + text@, base@.subrange(
            end as int,
            base@.len() as int,
        ));
        lemma_views_concat(base@.subrange(0, start as int), text@);
        lemma_views_subrange(base@, 0, start as int);
        lemma_views_subrange(base@, end as int, base@.len() as int);
        assert(views_of(r@) =~= splice_view(
            views_of(base@),
            start as int,
            end as int,
            views_of(text@),
        ));
    }
    r
}

/// Applies one `Pending` hunk to the base buffer and marks it `Accepted`:
/// the hunk's base range is replaced by its text (a no-op for a `Deleted`
/// hunk). Fails, leaving buffer and hunk untouched, when the hunk is not
/// `Pending`, when its base range runs backwards, or when that range no
/// longer fits the buffer; the edit is all-or-nothing.
pub fn apply_hunk(base: &mut Vec<String>, hunk: &mut Hunk) -> (r: Result<(), ApplyError>)
    ensures
        r is Ok <==> old(hunk).status is Pending && old(hunk).base_start <= old(hunk).base_end
            && old(hunk).base_end <= old(base)@.len(),
        r is Ok ==> views_of(final(base)@) == apply_hunk_view(views_of(old(base)@), old(hunk)@),
        r is Ok ==> final(hunk)@ == accepted_view(old(hunk)@),
        r is Err ==> final(base)@ == old(base)@ && *final(hunk) == *old(hunk),
        r == Err::<(), ApplyError>(ApplyError::NotPending) <==> !(old(hunk).status is Pending),
        r == Err::<(), ApplyError>(ApplyError::InvalidRange) <==> old(hunk).status is Pending
            && old(hunk).base_start > old(hunk).base_end,
        r == Err::<(), ApplyError>(ApplyError::StaleRange) <==> old(hunk).status is Pending
            && old(hunk).base_start <= old(hunk).base_end && old(hunk).base_end > old(
            base,
        )@.len(),
{
    match hunk.status {
        HunkStatus::Pending => {},
        _ => {
            return Err(ApplyError::NotPending);
        },
    }
    if hunk.base_start > hunk.base_end {
        return Err(ApplyError::InvalidRange);
    }
    if hunk.base_end as usize > base.len() {
        return Err(ApplyError::StaleRange);
    }
    match hunk.kind {
        HunkKind::Deleted => {},
        _ => {
            let nb = splice_lines(base, hunk.base_start as usize, hunk.base_end as usize, &hunk.text);
            *base = nb;
        },
    }
    hunk.status = HunkStatus::Accepted;
    Ok(())
}

/// The result of replaying a hunk list onto a buffer, front to back, with a
/// running offset: each hunk's base range, shifted by the offset, is
/// replaced by its text (deletions included, unlike the single-hunk accept
/// edit); the offset then grows by the hunk's net line delta. Fails on the
/// first hunk whose range runs backwards or does not fit the buffer.
pub open spec fn replay_result(base: Seq<Seq<char>>, hs: Seq<HunkView>, off: int) -> Result<
    Seq<Seq<char>>,
    ApplyError,
>
    decreases hs.len(),
{
    if hs.len() == 0 {
        Ok(base)
    } else {
        let h = hs.first();
        if h.base_start > h.base_end {
            Err(ApplyError::InvalidRange)
        } else if h.base_start + off < 0 || h.base_end + off > base.len() {
            Err(ApplyError::StaleRange)
        } else {
            replay_result(
                splice_view(base, h.base_start + off, h.base_end + off, h.text),
                hs.drop_first(),
                off + h.text.len() - (h.base_end - h.base_start),
            )
        }
    }
}

/// Copies a line buffer.
pub(crate) fn clone_lines(src: &Vec<String>) -> (r: Vec<String>)
    ensures
        r@ == src@,
{
    let mut r: Vec<String> = Vec::new();
    let mut i: usize = 0;
    while i < src.len()
        invariant
            i <= src@.len(),
            r@ =~= src@.subrange(0, i as int),
        decreases src@.len() - i,
    {
        r.push(src[i].clone());
        i = i + 1;
        proof {
            assert(r@ =~= src@.subrange(0, i as int));
        }
    }
    proof {
        assert(r@ =~= src@);
    }
    r
}

/// Replays a hunk list onto the base buffer, in order, adjusting each
/// hunk's base range by the net line delta of the hunks already replayed.
/// Unlike `apply_hunk` this really removes the lines of `Deleted` hunks: it
/// is the reconstruction that turns the old text into the new one. The edit
/// is all-or-nothing: on failure the buffer is untouched.
pub fn apply_hunks(base: &mut Vec<String>, hunks: &Vec<Hunk>) -> (r: Result<(), ApplyError>)
    ensures
        r is Ok <==> replay_result(views_of(old(base)@), crate::hunks::hunk_views(hunks@), 0)
            is Ok,
        r is Ok ==> Ok::<Seq<Seq<char>>, ApplyError>(views_of(final(base)@)) == replay_result(
            views_of(old(base)@),
            crate::hunks::hunk_views(hunks@),
            0,
        ),
        r is Err ==> final(base)@ == old(base)@,
        r matches Err(e) ==> replay_result(views_of(old(base)@), crate::hunks::hunk_views(hunks@), 0)
            == Err::<Seq<Seq<char>>, ApplyError>(e),
{
    let ghost all = crate::hunks::hunk_views(hunks@);
    let ghost target = replay_result(views_of(old(base)@), all, 0);
    let mut buf = clone_lines(base);
    let l0: usize = base.len();
    let n = hunks.len();
    let mut i: usize = 0;
    proof {
        assert(all.skip(0) =~= all);
    }
    while i < n
        invariant
            n == hunks@.len(),
            i <= n,
            l0 == old(base)@.len(),
            base@ == old(base)@,
            all == crate::hunks::hunk_views(hunks@),
            target == replay_result(views_of(old(base)@), all, 0),
            target == replay_result(views_of(buf@), all.skip(i as int), buf@.len() - l0),
        decreases n - i,
    {
        let ghost hvs = all.skip(i as int);
        let ghost off = buf@.len() - l0;
        let h = &hunks[i];
        proof {
            assert(all[i as int] == hunks@[i as int]@);
            assert(hvs.first() == h@);
            assert(hvs.drop_first() =~= all.skip(i as int + 1));
        }
        if h.base_start > h.base_end {
            proof {
                assert(replay_result(views_of(buf@), hvs, off) == Err::<Seq<Seq<char>>, ApplyError>(
                    ApplyError::InvalidRange,
                ));
            }
            return Err(ApplyError::InvalidRange);
        }
        let shifted_start = h.base_start as u128 + buf.len() as u128;
        if shifted_start < l0 as u128 || h.base_end as usize > l0 {
            proof {
                assert(shifted_start < l0 as u128 ==> h@.base_start + off < 0);
                assert(h.base_end as usize > l0 ==> h@.base_end + off > views_of(buf@).len());
                assert(replay_result(views_of(buf@), hvs, off) == Err::<Seq<Seq<char>>, ApplyError>(
                    ApplyError::StaleRange,
                ));
            }
            return Err(ApplyError::StaleRange);
        }
        proof {
            assert(h@.base_start + off >= 0);
            assert(h@.base_end + off <= buf@.len());
        }
        let start_abs = (h.base_start as u128 + buf.len() as u128 - l0 as u128) as usize;
        let end_abs = (h.base_end as u128 + buf.len() as u128 - l0 as u128) as usize;
        proof {
            assert(start_abs == h@.base_start + off);
            assert(end_abs == h@.base_end + off);
        }
        let nb = splice_lines(&buf, start_abs, end_abs, &h.text);
        buf = nb;
        i = i + 1;
        proof {
            assert(views_of(h.text@) == h@.text);
            assert(buf@.len() - l0 == off + h@.text.len() - (h@.base_end - h@.base_start));
            assert(target == replay_result(views_of(buf@), all.skip(i as int), buf@.len() - l0));
        }
    }
    proof {
        assert(all.skip(n as int) =~= Seq::<HunkView>::empty());
        assert(target == Ok::<Seq<Seq<char>>, ApplyError>(views_of(buf@)));
    }
    *base = buf;
    Ok(())
}

/// Replaying the hunks classified from the operations at index `i` on, onto
/// a buffer that holds the new lines before the cursors and the old lines
/// after them, yields the new lines.
proof fn lemma_round_trip_from(
    old: Seq<Seq<char>>,
    new: Seq<Seq<char>>,
    ops: Seq<crate::diff::DiffOp>,
    side: Option<crate::hunks::Side>,
    i: int,
    oc: int,
    nc: int,
)
    requires
        0 <= i <= ops.len(),
        0 <= oc <= old.len(),
        0 <= nc <= new.len(),
        crate::diff::ops_wf_from(old, new, ops, i, oc, nc),
    ensures
        replay_result(
            new.take(nc) + old.skip(oc),
            crate::hunks::classify_spec(ops.skip(i), new, side),
            nc - oc,
        ) == Ok::<Seq<Seq<char>>, ApplyError>(new),
    decreases ops.len() - i,
{
    let buf = new.take(nc) + old.skip(oc);
    let hs = crate::hunks::classify_spec(ops.skip(i), new, side);
    if i == ops.len() {
        assert(ops.skip(i) =~= Seq::<crate::diff::DiffOp>::empty());
        assert(hs.len() == 0);
        assert(buf =~= new);
    } else {
        let op = ops[i];
        let oc2 = op.old_end as int;
        let nc2 = op.new_end as int;
        assert(crate::diff::op_wf_at(old, new, op, oc, nc));
        assert(ops.skip(i)[0] == op);
        assert(ops.skip(i).drop_first() =~= ops.skip(i + 1));
        lemma_round_trip_from(old, new, ops, side, i + 1, oc2, nc2);
        let buf2 = new.take(nc2) + old.skip(oc2);
        let hs2 = crate::hunks::classify_spec(ops.skip(i + 1), new, side);
        if op.kind is Equal {
            assert(hs == hs2);
            assert(nc2 - nc == oc2 - oc);
            assert forall|k: int| 0 <= k < buf.len() implies buf[k] == buf2[k] by {
                if k < nc {
                    assert(buf[k] == new[k]);
                    assert(buf2[k] == new[k]);
                } else if k < nc2 {
                    let j = oc + (k - nc);
                    assert(old[j] == new[j - op.old_start + op.new_start]);
                    assert(buf[k] == old.skip(oc)[k - nc]);
                    assert(buf2[k] == new[k]);
                } else {
                    assert(buf[k] == old[oc + (k - nc)]);
                    assert(buf2[k] == old[oc2 + (k - nc2)]);
                }
            }
            assert(buf =~= buf2);
            assert(replay_result(buf, hs, nc - oc) == Ok::<Seq<Seq<char>>, ApplyError>(new));
        } else {
            let h = crate::hunks::hunk_of_op(op, new, side);
            crate::hunks::lemma_classify_push(Seq::<crate::diff::DiffOp>::empty(), op, new, side);
            assert(hs == seq![h] + hs2) by {
                assert(ops.skip(i).first() == op);
            }
            assert(hs.len() == 1 + hs2.len());
            assert(hs.first() == h);
            assert(hs.drop_first() =~= hs2);
            let off = nc - oc;
            assert(h.base_start == op.old_start && h.base_end == op.old_end);
            assert(h.base_start + off == nc);
            assert(buf.len() == nc + (old.len() - oc));
            assert(h.base_end + off == oc2 + nc - oc);
            assert(h.base_end + off <= buf.len());
            assert(h.text == new.subrange(op.new_start as int, op.new_end as int));
            assert(h.text.len() == nc2 - nc);
            let spliced = splice_view(buf, nc, oc2 + nc - oc, h.text);
            let e = oc2 + nc - oc;
            assert(spliced.len() == nc + (nc2 - nc) + (buf.len() - e));
            assert(buf2.len() == nc2 + (old.len() - oc2));
            assert forall|k: int| 0 <= k < spliced.len() implies spliced[k] == buf2[k] by {
                if k < nc {
                    assert(spliced[k] == buf.subrange(0, nc)[k]);
                    assert(buf[k] == new[k]);
                    assert(buf2[k] == new[k]);
                } else if k < nc2 {
                    assert(spliced[k] == h.text[k - nc]);
                    assert(h.text[k - nc] == new[nc + (k - nc)]);
                    assert(buf2[k] == new[k]);
                } else {
                    assert(spliced[k] == buf.subrange(e, buf.len() as int)[k - nc2]);
                    assert(buf.subrange(e, buf.len() as int)[k - nc2] == buf[e + (k - nc2)]);
                    assert(e + (k - nc2) >= nc);
                    assert(buf[e + (k - nc2)] == old[oc + (e + (k - nc2) - nc)]);
                    assert(oc + (e + (k - nc2) - nc) == oc2 + (k - nc2));
                    assert(buf2[k] == old[oc2 + (k - nc2)]);
                }
            }
            assert(spliced =~= buf2);
            assert(off + h.text.len() - (h.base_end - h.base_start) == nc2 - oc2);
            assert(replay_result(buf, hs, nc - oc) == replay_result(buf2, hs2, nc2 - oc2));
        }
    }
}

/// Round trip: replaying every hunk classified from a well-formed operation
/// list onto the old lines, in order, rebuilds the new lines exactly.
pub proof fn lemma_round_trip(
    old: Seq<Seq<char>>,
    new: Seq<Seq<char>>,
    ops: Seq<crate::diff::DiffOp>,
    side: Option<crate::hunks::Side>,
)
    requires
        crate::diff::ops_wf(old, new, ops),
    ensures
        replay_result(old, crate::hunks::classify_spec(ops, new, side), 0) == Ok::<
            Seq<Seq<char>>,
            ApplyError,
        >(new),
{
    lemma_round_trip_from(old, new, ops, side, 0, 0, 0);
    assert(new.take(0) + old.skip(0) =~= old);
    assert(ops.skip(0) =~= ops);
}

/// Round trip at the interface: replaying the hunks of a two-way comparison
/// onto the old lines rebuilds the new lines exactly.
pub proof fn lemma_two_way_round_trip(old: Seq<Seq<char>>, new: Seq<Seq<char>>)
    requires
        old.len() <= crate::diff::MAX_LINES,
        new.len() <= crate::diff::MAX_LINES,
    ensures
        replay_result(old, crate::hunks::two_way_hunk_views(old, new), 0) == Ok::<
            Seq<Seq<char>>,
            ApplyError,
        >(new),
{
    crate::diff::lemma_checked_ops_wf(old, new);
    lemma_round_trip(old, new, crate::diff::checked_ops(old, new), None);
}

} // verus!
