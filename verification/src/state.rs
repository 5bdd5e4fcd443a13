//! Merge state machine: owns the three texts as line buffers and the two
//! hunk lists, tracks each hunk's accept/ignore transition, and recomputes
//! the hunks wholesale after every edit of the base text.

use vstd::prelude::*;
use crate::apply::{apply_hunk_view, clone_lines, splice_lines, ApplyError};
use crate::diff::{checked_ops, views_of, MAX_LINES};
use crate::hunks::{
    compute_three_way, hunk_views, lemma_classify_len, lemma_classify_pending,
    lemma_pending_views_id, pending_views, side_hunk_views, with_status, Hunk, HunkKind,
    HunkStatus, HunkView, Side,
};
use crate::nav::{any_pending, count_pending, has_pending, lemma_count_pending_bound,
    side_pending_count};

verus! {

/// The number of lines the base buffer has after one hunk is accepted.
pub open spec fn applied_len(base: Seq<Seq<char>>, h: HunkView) -> int {
    if h.kind is Deleted {
        base.len() as int
    } else {
        base.len() - (h.base_end - h.base_start) + h.text.len()
    }
}

/// What accepting the hunk returns: the errors of `apply_hunk`, in the same
/// order, plus the capacity limit on the edited buffer.
pub open spec fn accept_outcome(base: Seq<Seq<char>>, h: HunkView) -> Result<(), ApplyError> {
    if !(h.status is Pending) {
        Err(ApplyError::NotPending)
    } else if h.base_start > h.base_end {
        Err(ApplyError::InvalidRange)
    } else if h.base_end > base.len() {
        Err(ApplyError::StaleRange)
    } else if applied_len(base, h) > MAX_LINES {
        Err(ApplyError::TooLarge)
    } else {
        Ok(())
    }
}

/// The base buffer after accepting every pending hunk of the list in one
/// pass, front to back, with a running offset: each pending non-`Deleted`
/// hunk's base range, shifted by the offset, is replaced by its text, and
/// the offset grows by the hunk's net line delta; pending `Deleted` hunks
/// (whose accept is a no-op) and non-pending hunks are passed over. Fails
/// on the first hunk whose range runs backwards or does not fit, or whose
/// edit would grow the buffer past the line bound.
pub open spec fn accept_all_result(base: Seq<Seq<char>>, hs: Seq<HunkView>, off: int) -> Result<
    Seq<Seq<char>>,
    ApplyError,
>
    decreases hs.len(),
{
    if hs.len() == 0 {
        Ok(base)
    } else {
        let h = hs.first();
        if !(h.status is Pending) || h.kind is Deleted {
            accept_all_result(base, hs.drop_first(), off)
        } else if h.base_start > h.base_end {
            Err(ApplyError::InvalidRange)
        } else if h.base_start + off < 0 || h.base_end + off > base.len() {
            Err(ApplyError::StaleRange)
        } else if base.len() - (h.base_end - h.base_start) + h.text.len() > MAX_LINES {
            Err(ApplyError::TooLarge)
        } else {
            accept_all_result(
                crate::apply::splice_view(base, h.base_start + off, h.base_end + off, h.text),
                hs.drop_first(),
                off + h.text.len() - (h.base_end - h.base_start),
            )
        }
    }
}

/// A fresh comparison yields only pending hunks, so erasing statuses leaves
/// it unchanged.
proof fn lemma_fresh_side_pending(base: Seq<Seq<char>>, source: Seq<Seq<char>>, side: Side)
    ensures
        pending_views(side_hunk_views(base, source, side)) == side_hunk_views(base, source, side),
{
    lemma_classify_pending(checked_ops(base, source), source, Some(side));
    lemma_pending_views_id(side_hunk_views(base, source, side));
}

/// A hunk list that matches a comparison of bounded texts is itself
/// bounded.
proof fn lemma_side_len_bound(base: Seq<Seq<char>>, source: Seq<Seq<char>>, side: Side)
    requires
        base.len() <= MAX_LINES,
        source.len() <= MAX_LINES,
    ensures
        side_hunk_views(base, source, side).len() <= base.len() + source.len(),
{
    crate::diff::lemma_checked_ops_wf(base, source);
    crate::diff::lemma_ops_len_bound(base, source, checked_ops(base, source), 0, 0, 0);
    lemma_classify_len(checked_ops(base, source), source, Some(side));
}

/// The state of one three-way merge: the three texts, the hunks of each
/// side against the base, and whether the base pane is editable.
#[derive(Debug)]
pub struct MergeState {
    pub base: Vec<String>,
    pub theirs: Vec<String>,
    pub ours: Vec<String>,
    pub theirs_hunks: Vec<Hunk>,
    pub ours_hunks: Vec<Hunk>,
    /// Whether the base pane is editable (resolve view) or read-only.
    pub resolve_mode: bool,
}

impl MergeState {
    /// The texts are within the line bound, and each hunk list is, up to
    /// its recorded statuses, exactly what comparing the current texts
    /// yields.
    pub open spec fn wf(&self) -> bool {
        &&& self.base@.len() <= MAX_LINES
        &&& self.theirs@.len() <= MAX_LINES
        &&& self.ours@.len() <= MAX_LINES
        &&& pending_views(hunk_views(self.theirs_hunks@)) == side_hunk_views(
            views_of(self.base@),
            views_of(self.theirs@),
            Side::Theirs,
        )
        &&& pending_views(hunk_views(self.ours_hunks@)) == side_hunk_views(
            views_of(self.base@),
            views_of(self.ours@),
            Side::Ours,
        )
    }

    /// Starts a merge: compares both sides against the base and holds the
    /// fresh, all-pending hunk lists; the base pane starts read-only.
    pub fn new(base: Vec<String>, theirs: Vec<String>, ours: Vec<String>) -> (r: MergeState)
        requires
            base@.len() <= MAX_LINES,
            theirs@.len() <= MAX_LINES,
            ours@.len() <= MAX_LINES,
        ensures
            r.wf(),
            r.base@ == base@,
            r.theirs@ == theirs@,
            r.ours@ == ours@,
            hunk_views(r.theirs_hunks@) == side_hunk_views(
                views_of(base@),
                views_of(theirs@),
                Side::Theirs,
            ),
            hunk_views(r.ours_hunks@) == side_hunk_views(
                views_of(base@),
                views_of(ours@),
                Side::Ours,
            ),
            !r.resolve_mode,
    {
        let (theirs_hunks, ours_hunks) = compute_three_way(&base, &theirs, &ours);
        proof {
            lemma_fresh_side_pending(views_of(base@), views_of(theirs@), Side::Theirs);
            lemma_fresh_side_pending(views_of(base@), views_of(ours@), Side::Ours);
        }
        MergeState { base, theirs, ours, theirs_hunks, ours_hunks, resolve_mode: false }
    }

    /// Accepts one theirs hunk: replaces its base range in the base text by
    /// its lines (a no-op for a `Deleted` hunk), then recomputes both hunk
    /// lists from the edited text; every fresh hunk is `Pending` again.
    /// Fails, changing nothing, when the hunk is not `Pending`, its range
    /// runs backwards or no longer fits the buffer, or the edit would grow
    /// the buffer past the line bound.
    pub fn accept_theirs(&mut self, index: usize) -> (r: Result<(), ApplyError>)
        requires
            old(self).wf(),
            index < old(self).theirs_hunks@.len(),
        ensures
            final(self).wf(),
            r == accept_outcome(
                views_of(old(self).base@),
                old(self).theirs_hunks@[index as int]@,
            ),
            r is Ok ==> views_of(final(self).base@) == apply_hunk_view(
                views_of(old(self).base@),
                old(self).theirs_hunks@[index as int]@,
            ),
            r is Ok ==> hunk_views(final(self).theirs_hunks@) == side_hunk_views(
                views_of(final(self).base@),
                views_of(old(self).theirs@),
                Side::Theirs,
            ),
            r is Ok ==> hunk_views(final(self).ours_hunks@) == side_hunk_views(
                views_of(final(self).base@),
                views_of(old(self).ours@),
                Side::Ours,
            ),
            r is Err ==> *final(self) == *old(self),
            final(self).theirs@ == old(self).theirs@,
            final(self).ours@ == old(self).ours@,
            final(self).resolve_mode == old(self).resolve_mode,
    {
        let pending = match self.theirs_hunks[index].status {
            HunkStatus::Pending => true,
            _ => false,
        };
        if !pending {
            return Err(ApplyError::NotPending);
        }
        let bs = self.theirs_hunks[index].base_start;
        let be = self.theirs_hunks[index].base_end;
        if bs > be {
            return Err(ApplyError::InvalidRange);
        }
        if be as usize > self.base.len() {
            return Err(ApplyError::StaleRange);
        }
        let deleted = match self.theirs_hunks[index].kind {
            HunkKind::Deleted => true,
            _ => false,
        };
        if !deleted {
            let keep = self.base.len() - (be - bs) as usize;
            let text_len = self.theirs_hunks[index].text.len();
            if keep as u128 + text_len as u128 > MAX_LINES as u128 {
                return Err(ApplyError::TooLarge);
            }
            let nb = splice_lines(
                &self.base,
                bs as usize,
                be as usize,
                &self.theirs_hunks[index].text,
            );
            self.base = nb;
        }
        let (theirs_hunks, ours_hunks) = compute_three_way(&self.base, &self.theirs, &self.ours);
        self.theirs_hunks = theirs_hunks;
        self.ours_hunks = ours_hunks;
        proof {
            let bv = views_of(self.base@);
            lemma_fresh_side_pending(bv, views_of(self.theirs@), Side::Theirs);
            lemma_fresh_side_pending(bv, views_of(self.ours@), Side::Ours);
        }
        Ok(())
    }

    /// Accepts one ours hunk; see `accept_theirs`.
    pub fn accept_ours(&mut self, index: usize) -> (r: Result<(), ApplyError>)
        requires
            old(self).wf(),
            index < old(self).ours_hunks@.len(),
        ensures
            final(self).wf(),
            r == accept_outcome(views_of(old(self).base@), old(self).ours_hunks@[index as int]@),
            r is Ok ==> views_of(final(self).base@) == apply_hunk_view(
                views_of(old(self).base@),
                old(self).ours_hunks@[index as int]@,
            ),
            r is Ok ==> hunk_views(final(self).theirs_hunks@) == side_hunk_views(
                views_of(final(self).base@),
                views_of(old(self).theirs@),
                Side::Theirs,
            ),
            r is Ok ==> hunk_views(final(self).ours_hunks@) == side_hunk_views(
                views_of(final(self).base@),
                views_of(old(self).ours@),
                Side::Ours,
            ),
            r is Err ==> *final(self) == *old(self),
            final(self).theirs@ == old(self).theirs@,
            final(self).ours@ == old(self).ours@,
            final(self).resolve_mode == old(self).resolve_mode,
    {
        let pending = match self.ours_hunks[index].status {
            HunkStatus::Pending => true,
            _ => false,
        };
        if !pending {
            return Err(ApplyError::NotPending);
        }
        let bs = self.ours_hunks[index].base_start;
        let be = self.ours_hunks[index].base_end;
        if bs > be {
            return Err(ApplyError::InvalidRange);
        }
        if be as usize > self.base.len() {
            return Err(ApplyError::StaleRange);
        }
        let deleted = match self.ours_hunks[index].kind {
            HunkKind::Deleted => true,
            _ => false,
        };
        if !deleted {
            let keep = self.base.len() - (be - bs) as usize;
            let text_len = self.ours_hunks[index].text.len();
            if keep as u128 + text_len as u128 > MAX_LINES as u128 {
                return Err(ApplyError::TooLarge);
            }
            let nb = splice_lines(
                &self.base,
                bs as usize,
                be as usize,
                &self.ours_hunks[index].text,
            );
            self.base = nb;
        }
        let (theirs_hunks, ours_hunks) = compute_three_way(&self.base, &self.theirs, &self.ours);
        self.theirs_hunks = theirs_hunks;
        self.ours_hunks = ours_hunks;
        proof {
            let bv = views_of(self.base@);
            lemma_fresh_side_pending(bv, views_of(self.theirs@), Side::Theirs);
            lemma_fresh_side_pending(bv, views_of(self.ours@), Side::Ours);
        }
        Ok(())
    }

    /// Ignores one theirs hunk: its status becomes `Ignored` and nothing
    /// else changes; no text is edited. Fails when the hunk is not
    /// `Pending`.
    pub fn ignore_theirs(&mut self, index: usize) -> (r: Result<(), ApplyError>)
        requires
            old(self).wf(),
            index < old(self).theirs_hunks@.len(),
        ensures
            final(self).wf(),
            r is Ok <==> old(self).theirs_hunks@[index as int].status is Pending,
            r is Err ==> r == Err::<(), ApplyError>(ApplyError::NotPending) && *final(self)
                == *old(self),
            r is Ok ==> hunk_views(final(self).theirs_hunks@) == hunk_views(
                old(self).theirs_hunks@,
            ).update(index as int, with_status(old(self).theirs_hunks@[index as int]@, HunkStatus::Ignored)),
            final(self).base@ == old(self).base@,
            final(self).theirs@ == old(self).theirs@,
            final(self).ours@ == old(self).ours@,
            final(self).ours_hunks@ == old(self).ours_hunks@,
            final(self).resolve_mode == old(self).resolve_mode,
    {
        let pending = match self.theirs_hunks[index].status {
            HunkStatus::Pending => true,
            _ => false,
        };
        if !pending {
            return Err(ApplyError::NotPending);
        }
        let ghost hs0 = hunk_views(self.theirs_hunks@);
        let h = self.theirs_hunks.remove(index);
        let h2 = Hunk { status: HunkStatus::Ignored, ..h };
        self.theirs_hunks.insert(index, h2);
        proof {
            assert(self.theirs_hunks@ =~= old(self).theirs_hunks@.update(index as int, h2));
            assert(h2@ == with_status(old(self).theirs_hunks@[index as int]@, HunkStatus::Ignored));
            assert(hunk_views(self.theirs_hunks@) =~= hs0.update(index as int, h2@));
            assert(pending_views(hunk_views(self.theirs_hunks@)) =~= pending_views(hs0));
        }
        Ok(())
    }

    /// Ignores one ours hunk; see `ignore_theirs`.
    pub fn ignore_ours(&mut self, index: usize) -> (r: Result<(), ApplyError>)
        requires
            old(self).wf(),
            index < old(self).ours_hunks@.len(),
        ensures
            final(self).wf(),
            r is Ok <==> old(self).ours_hunks@[index as int].status is Pending,
            r is Err ==> r == Err::<(), ApplyError>(ApplyError::NotPending) && *final(self)
                == *old(self),
            r is Ok ==> hunk_views(final(self).ours_hunks@) == hunk_views(
                old(self).ours_hunks@,
            ).update(index as int, with_status(old(self).ours_hunks@[index as int]@, HunkStatus::Ignored)),
            final(self).base@ == old(self).base@,
            final(self).theirs@ == old(self).theirs@,
            final(self).ours@ == old(self).ours@,
            final(self).theirs_hunks@ == old(self).theirs_hunks@,
            final(self).resolve_mode == old(self).resolve_mode,
    {
        let pending = match self.ours_hunks[index].status {
            HunkStatus::Pending => true,
            _ => false,
        };
        if !pending {
            return Err(ApplyError::NotPending);
        }
        let ghost hs0 = hunk_views(self.ours_hunks@);
        let h = self.ours_hunks.remove(index);
        let h2 = Hunk { status: HunkStatus::Ignored, ..h };
        self.ours_hunks.insert(index, h2);
        proof {
            assert(self.ours_hunks@ =~= old(self).ours_hunks@.update(index as int, h2));
            assert(h2@ == with_status(old(self).ours_hunks@[index as int]@, HunkStatus::Ignored));
            assert(hunk_views(self.ours_hunks@) =~= hs0.update(index as int, h2@));
            assert(pending_views(hunk_views(self.ours_hunks@)) =~= pending_views(hs0));
        }
        Ok(())
    }

    /// Accepts every pending theirs hunk in one pass: each one's base
    /// range, shifted by the net line delta of the hunks already applied,
    /// is replaced by its text (pending `Deleted` hunks are no-ops, and
    /// non-pending hunks are passed over), and both hunk lists are then
    /// recomputed from the edited text; every fresh hunk is `Pending`
    /// again. The edit is all-or-nothing: on failure nothing changes.
    pub fn accept_all_theirs(&mut self) -> (r: Result<(), ApplyError>)
        requires
            old(self).wf(),
        ensures
            final(self).wf(),
            r is Ok <==> accept_all_result(
                views_of(old(self).base@),
                hunk_views(old(self).theirs_hunks@),
                0,
            ) is Ok,
            r is Ok ==> Ok::<Seq<Seq<char>>, ApplyError>(views_of(final(self).base@))
                == accept_all_result(
                views_of(old(self).base@),
                hunk_views(old(self).theirs_hunks@),
                0,
            ),
            r is Ok ==> hunk_views(final(self).theirs_hunks@) == side_hunk_views(
                views_of(final(self).base@),
                views_of(old(self).theirs@),
                Side::Theirs,
            ),
            r is Ok ==> hunk_views(final(self).ours_hunks@) == side_hunk_views(
                views_of(final(self).base@),
                views_of(old(self).ours@),
                Side::Ours,
            ),
            r matches Err(e) ==> accept_all_result(
                views_of(old(self).base@),
                hunk_views(old(self).theirs_hunks@),
                0,
            ) == Err::<Seq<Seq<char>>, ApplyError>(e),
            r is Err ==> *final(self) == *old(self),
            final(self).theirs@ == old(self).theirs@,
            final(self).ours@ == old(self).ours@,
            final(self).resolve_mode == old(self).resolve_mode,
    {
        let ghost all = hunk_views(self.theirs_hunks@);
        let ghost target = accept_all_result(views_of(self.base@), all, 0);
        let mut buf = clone_lines(&self.base);
        let l0: usize = self.base.len();
        let n = self.theirs_hunks.len();
        let mut i: usize = 0;
        proof {
            assert(all.skip(0) =~= all);
        }
        while i < n
            invariant
                n == self.theirs_hunks@.len(),
                i <= n,
                l0 == old(self).base@.len(),
                *self == *old(self),
                old(self).wf(),
                all == hunk_views(self.theirs_hunks@),
                buf@.len() <= MAX_LINES,
                target == accept_all_result(views_of(old(self).base@), all, 0),
                target == accept_all_result(views_of(buf@), all.skip(i as int), buf@.len() - l0),
            decreases n - i,
        {
            let ghost hvs = all.skip(i as int);
            let ghost off = buf@.len() - l0;
            let h = &self.theirs_hunks[i];
            proof {
                assert(all[i as int] == self.theirs_hunks@[i as int]@);
                assert(hvs.first() == h@);
                assert(hvs.drop_first() =~= all.skip(i as int + 1));
            }
            let pending = match h.status {
                HunkStatus::Pending => true,
                _ => false,
            };
            let deleted = match h.kind {
                HunkKind::Deleted => true,
                _ => false,
            };
            if pending && !deleted {
                if h.base_start > h.base_end {
                    proof {
                        assert(accept_all_result(views_of(buf@), hvs, off) == Err::<
                            Seq<Seq<char>>,
                            ApplyError,
                        >(ApplyError::InvalidRange));
                    }
                    return Err(ApplyError::InvalidRange);
                }
                let shifted_start = h.base_start as u128 + buf.len() as u128;
                if shifted_start < l0 as u128 || h.base_end as usize > l0 {
                    proof {
                        assert(shifted_start < l0 as u128 ==> h@.base_start + off < 0);
                        assert(h.base_end as usize > l0 ==> h@.base_end + off > views_of(
                            buf@,
                        ).len());
                        assert(accept_all_result(views_of(buf@), hvs, off) == Err::<
                            Seq<Seq<char>>,
                            ApplyError,
                        >(ApplyError::StaleRange));
                    }
                    return Err(ApplyError::StaleRange);
                }
                proof {
                    assert(h@.base_start + off >= 0);
                    assert(h@.base_end + off <= buf@.len());
                }
                let start_abs = (h.base_start as u128 + buf.len() as u128 - l0 as u128) as usize;
                let end_abs = (h.base_end as u128 + buf.len() as u128 - l0 as u128) as usize;
                proof {
                    assert(start_abs == h@.base_start + off);
                    assert(end_abs == h@.base_end + off);
                }
                let keep = buf.len() - (end_abs - start_abs);
                if keep as u128 + h.text.len() as u128 > MAX_LINES as u128 {
                    proof {
                        assert(accept_all_result(views_of(buf@), hvs, off) == Err::<
                            Seq<Seq<char>>,
                            ApplyError,
                        >(ApplyError::TooLarge));
                    }
                    return Err(ApplyError::TooLarge);
                }
                let nb = splice_lines(&buf, start_abs, end_abs, &h.text);
                buf = nb;
                proof {
                    assert(views_of(h.text@) == h@.text);
                    assert(buf@.len() - l0 == off + h@.text.len() - (h@.base_end - h@.base_start));
                }
            }
            i = i + 1;
            proof {
                assert(target == accept_all_result(
                    views_of(buf@),
                    all.skip(i as int),
                    buf@.len() - l0,
                ));
            }
        }
        proof {
            assert(all.skip(n as int) =~= Seq::<HunkView>::empty());
            assert(target == Ok::<Seq<Seq<char>>, ApplyError>(views_of(buf@)));
        }
        self.base = buf;
        let (theirs_hunks, ours_hunks) = compute_three_way(&self.base, &self.theirs, &self.ours);
        self.theirs_hunks = theirs_hunks;
        self.ours_hunks = ours_hunks;
        proof {
            let bv = views_of(self.base@);
            lemma_fresh_side_pending(bv, views_of(self.theirs@), Side::Theirs);
            lemma_fresh_side_pending(bv, views_of(self.ours@), Side::Ours);
        }
        Ok(())
    }

    /// Accepts every pending ours hunk in one pass; see `accept_all_theirs`.
    pub fn accept_all_ours(&mut self) -> (r: Result<(), ApplyError>)
        requires
            old(self).wf(),
        ensures
            final(self).wf(),
            r is Ok <==> accept_all_result(
                views_of(old(self).base@),
                hunk_views(old(self).ours_hunks@),
                0,
            ) is Ok,
            r is Ok ==> Ok::<Seq<Seq<char>>, ApplyError>(views_of(final(self).base@))
                == accept_all_result(
                views_of(old(self).base@),
                hunk_views(old(self).ours_hunks@),
                0,
            ),
            r is Ok ==> hunk_views(final(self).theirs_hunks@) == side_hunk_views(
                views_of(final(self).base@),
                views_of(old(self).theirs@),
                Side::Theirs,
            ),
            r is Ok ==> hunk_views(final(self).ours_hunks@) == side_hunk_views(
                views_of(final(self).base@),
                views_of(old(self).ours@),
                Side::Ours,
            ),
            r matches Err(e) ==> accept_all_result(
                views_of(old(self).base@),
                hunk_views(old(self).ours_hunks@),
                0,
            ) == Err::<Seq<Seq<char>>, ApplyError>(e),
            r is Err ==> *final(self) == *old(self),
            final(self).theirs@ == old(self).theirs@,
            final(self).ours@ == old(self).ours@,
            final(self).resolve_mode == old(self).resolve_mode,
    {
        let ghost all = hunk_views(self.ours_hunks@);
        let ghost target = accept_all_result(views_of(self.base@), all, 0);
        let mut buf = clone_lines(&self.base);
        let l0: usize = self.base.len();
        let n = self.ours_hunks.len();
        let mut i: usize = 0;
        proof {
            assert(all.skip(0) =~= all);
        }
        while i < n
            invariant
                n == self.ours_hunks@.len(),
                i <= n,
                l0 == old(self).base@.len(),
                *self == *old(self),
                old(self).wf(),
                all == hunk_views(self.ours_hunks@),
                buf@.len() <= MAX_LINES,
                target == accept_all_result(views_of(old(self).base@), all, 0),
                target == accept_all_result(views_of(buf@), all.skip(i as int), buf@.len() - l0),
            decreases n - i,
        {
            let ghost hvs = all.skip(i as int);
            let ghost off = buf@.len() - l0;
            let h = &self.ours_hunks[i];
            proof {
                assert(all[i as int] == self.ours_hunks@[i as int]@);
                assert(hvs.first() == h@);
                assert(hvs.drop_first() =~= all.skip(i as int + 1));
            }
            let pending = match h.status {
                HunkStatus::Pending => true,
                _ => false,
            };
            let deleted = match h.kind {
                HunkKind::Deleted => true,
                _ => false,
            };
            if pending && !deleted {
                if h.base_start > h.base_end {
                    proof {
                        assert(accept_all_result(views_of(buf@), hvs, off) == Err::<
                            Seq<Seq<char>>,
                            ApplyError,
                        >(ApplyError::InvalidRange));
                    }
                    return Err(ApplyError::InvalidRange);
                }
                let shifted_start = h.base_start as u128 + buf.len() as u128;
                if shifted_start < l0 as u128 || h.base_end as usize > l0 {
                    proof {
                        assert(shifted_start < l0 as u128 ==> h@.base_start + off < 0);
                        assert(h.base_end as usize > l0 ==> h@.base_end + off > views_of(
                            buf@,
                        ).len());
                        assert(accept_all_result(views_of(buf@), hvs, off) == Err::<
                            Seq<Seq<char>>,
                            ApplyError,
                        >(ApplyError::StaleRange));
                    }
                    return Err(ApplyError::StaleRange);
                }
                proof {
                    assert(h@.base_start + off >= 0);
                    assert(h@.base_end + off <= buf@.len());
                }
                let start_abs = (h.base_start as u128 + buf.len() as u128 - l0 as u128) as usize;
                let end_abs = (h.base_end as u128 + buf.len() as u128 - l0 as u128) as usize;
                proof {
                    assert(start_abs == h@.base_start + off);
                    assert(end_abs == h@.base_end + off);
                }
                let keep = buf.len() - (end_abs - start_abs);
                if keep as u128 + h.text.len() as u128 > MAX_LINES as u128 {
                    proof {
                        assert(accept_all_result(views_of(buf@), hvs, off) == Err::<
                            Seq<Seq<char>>,
                            ApplyError,
                        >(ApplyError::TooLarge));
                    }
                    return Err(ApplyError::TooLarge);
                }
                let nb = splice_lines(&buf, start_abs, end_abs, &h.text);
                buf = nb;
                proof {
                    assert(views_of(h.text@) == h@.text);
                    assert(buf@.len() - l0 == off + h@.text.len() - (h@.base_end - h@.base_start));
                }
            }
            i = i + 1;
            proof {
                assert(target == accept_all_result(
                    views_of(buf@),
                    all.skip(i as int),
                    buf@.len() - l0,
                ));
            }
        }
        proof {
            assert(all.skip(n as int) =~= Seq::<HunkView>::empty());
            assert(target == Ok::<Seq<Seq<char>>, ApplyError>(views_of(buf@)));
        }
        self.base = buf;
        let (theirs_hunks, ours_hunks) = compute_three_way(&self.base, &self.theirs, &self.ours);
        self.theirs_hunks = theirs_hunks;
        self.ours_hunks = ours_hunks;
        proof {
            let bv = views_of(self.base@);
            lemma_fresh_side_pending(bv, views_of(self.theirs@), Side::Theirs);
            lemma_fresh_side_pending(bv, views_of(self.ours@), Side::Ours);
        }
        Ok(())
    }


    /// Whether any theirs hunk is still pending.
    pub fn has_pending_theirs(&self) -> (r: bool)
        ensures
            r == has_pending(hunk_views(self.theirs_hunks@)),
    {
        any_pending(&self.theirs_hunks)
    }

    /// Whether any ours hunk is still pending.
    pub fn has_pending_ours(&self) -> (r: bool)
        ensures
            r == has_pending(hunk_views(self.ours_hunks@)),
    {
        any_pending(&self.ours_hunks)
    }

    /// Whether every hunk of both sides has been accepted or ignored.
    pub fn all_hunks_processed(&self) -> (r: bool)
        ensures
            r == (!has_pending(hunk_views(self.theirs_hunks@)) && !has_pending(
                hunk_views(self.ours_hunks@),
            )),
    {
        !any_pending(&self.theirs_hunks) && !any_pending(&self.ours_hunks)
    }

    /// Whether the merge may be marked resolved: permitted exactly when
    /// every hunk in both lists is no longer pending. A check, not a
    /// mutation.
    pub fn mark_as_resolved(&self) -> (r: bool)
        ensures
            r == (!has_pending(hunk_views(self.theirs_hunks@)) && !has_pending(
                hunk_views(self.ours_hunks@),
            )),
    {
        self.all_hunks_processed()
    }

    /// How many hunks of both sides are still pending.
    pub fn pending_diff_count(&self) -> (r: u64)
        requires
            self.wf(),
        ensures
            r as int == count_pending(hunk_views(self.theirs_hunks@)) + count_pending(
                hunk_views(self.ours_hunks@),
            ),
    {
        let a = side_pending_count(&self.theirs_hunks);
        let b = side_pending_count(&self.ours_hunks);
        proof {
            let tv = hunk_views(self.theirs_hunks@);
            let ov = hunk_views(self.ours_hunks@);
            lemma_count_pending_bound(tv);
            lemma_count_pending_bound(ov);
            assert(pending_views(tv).len() == tv.len());
            assert(pending_views(ov).len() == ov.len());
            lemma_side_len_bound(views_of(self.base@), views_of(self.theirs@), Side::Theirs);
            lemma_side_len_bound(views_of(self.base@), views_of(self.ours@), Side::Ours);
        }
        a as u64 + b as u64
    }

    /// Switches between the read-only view and the resolve view, in which
    /// the base pane is editable.
    pub fn toggle_resolve_mode(&mut self)
        ensures
            final(self).resolve_mode == !old(self).resolve_mode,
            final(self).base@ == old(self).base@,
            final(self).theirs@ == old(self).theirs@,
            final(self).ours@ == old(self).ours@,
            final(self).theirs_hunks@ == old(self).theirs_hunks@,
            final(self).ours_hunks@ == old(self).ours_hunks@,
            old(self).wf() ==> final(self).wf(),
    {
        self.resolve_mode = !self.resolve_mode;
    }
}

} // verus!
