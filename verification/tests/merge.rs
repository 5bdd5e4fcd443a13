use merge_align::align::{update_alignment, PadTarget};
use merge_align::apply::ApplyError;
use merge_align::hunks::{compute_three_way, Hunk, HunkKind, HunkStatus, Side};
use merge_align::mapper::CoordinateMapper;
use merge_align::nav::{merge_navigation_state, merge_navigation_target};
use merge_align::regions::merge_regions;
use merge_align::state::MergeState;

fn lines(s: &str) -> Vec<String> {
    s.lines().map(|x| x.to_string()).collect()
}

fn pending_hunk(side: Side, kind: HunkKind, src: (u32, u32), base: (u32, u32)) -> Hunk {
    Hunk {
        side: Some(side),
        kind,
        source_start: src.0,
        source_end: src.1,
        base_start: base.0,
        base_end: base.1,
        text: Vec::new(),
        status: HunkStatus::Pending,
    }
}

#[test]
fn three_way_tags_sides() {
    let base = lines("1\n2\n3");
    let theirs = lines("1\nT\n3");
    let ours = lines("1\n2\n3\nO");
    let (th, oh) = compute_three_way(&base, &theirs, &ours);
    assert_eq!(th.len(), 1);
    assert_eq!(th[0].side, Some(Side::Theirs));
    assert_eq!(th[0].kind, HunkKind::Modified);
    assert_eq!((th[0].base_start, th[0].base_end), (1, 2));
    assert_eq!(th[0].text, vec!["T".to_string()]);
    assert_eq!(oh.len(), 1);
    assert_eq!(oh[0].side, Some(Side::Ours));
    assert_eq!(oh[0].kind, HunkKind::Added);
    assert_eq!((oh[0].base_start, oh[0].base_end), (3, 3));
    assert_eq!((oh[0].source_start, oh[0].source_end), (3, 4));
}

#[test]
fn scenario_two_disjoint_regions_with_trailing_base_padding() {
    let base = lines("1\n2\n3");
    let theirs = lines("1\nT\n3");
    let ours = lines("1\n2\n3\nO");
    let (th, oh) = compute_three_way(&base, &theirs, &ours);
    let regions = merge_regions(&th, &oh);
    assert_eq!(regions.len(), 2, "theirs row 1 and the trailing ours addition stay apart");
    assert_eq!((regions[0].base_start, regions[0].base_end), (1, 2));
    assert_eq!(regions[0].theirs_ranges, vec![(1, 2)]);
    assert!(regions[0].ours_ranges.is_empty());
    assert_eq!((regions[1].base_start, regions[1].base_end), (3, 3));
    assert_eq!(regions[1].ours_ranges, vec![(3, 4)]);
    assert!(regions[1].theirs_ranges.is_empty());

    let (_, pads, _) = update_alignment(&th, &oh);
    let pads = pads.expect("regions computed by the crate are well formed");
    // The first region is balanced (one line in every space); the trailing
    // region needs one padding line in the theirs and the base space, the
    // base one tagged with the ours side it stands for.
    assert_eq!(pads.len(), 2);
    assert_eq!(pads[0].target, PadTarget::Theirs);
    assert_eq!(pads[0].insertion_row, 3);
    assert_eq!(pads[0].line_count, 1);
    assert_eq!(pads[1].target, PadTarget::Base);
    assert_eq!(pads[1].insertion_row, 3);
    assert_eq!(pads[1].line_count, 1);
    assert_eq!(pads[1].origin, Some(Side::Ours));
}

#[test]
fn alignment_balances_every_space() {
    let base = lines("a\nb\nc\nd");
    let theirs = lines("a\nT1\nT2\nT3\nd");
    let ours = lines("a\nd");
    let (th, oh) = compute_three_way(&base, &theirs, &ours);
    let (regions, pads, _) = update_alignment(&th, &oh);
    let pads = pads.expect("regions computed by the crate are well formed");
    // One overlapping region over base rows 1..3; counts: base 2, theirs 3,
    // ours 0; everything is padded up to 3.
    assert_eq!(regions.len(), 1);
    let base_count = regions[0].base_end - regions[0].base_start;
    let theirs_count: u32 = regions[0].theirs_ranges.iter().map(|r| r.1 - r.0).sum();
    let ours_count: u32 = regions[0].ours_ranges.iter().map(|r| r.1 - r.0).sum();
    let max = base_count.max(theirs_count).max(ours_count);
    let mut total_base = base_count;
    let mut total_theirs = theirs_count;
    let mut total_ours = ours_count;
    for p in &pads {
        match p.target {
            PadTarget::Base => total_base += p.line_count,
            PadTarget::Theirs => total_theirs += p.line_count,
            PadTarget::Ours => total_ours += p.line_count,
            _ => panic!("two-way targets cannot appear in a merge plan"),
        }
    }
    assert_eq!(total_base, max);
    assert_eq!(total_theirs, max);
    assert_eq!(total_ours, max);
}

#[test]
fn touching_regions_merge_and_tie_breaks_by_end() {
    // Two events share base_start 1; the shorter sorts first, and the
    // touching pair merges into one region.
    let th = vec![pending_hunk(Side::Theirs, HunkKind::Modified, (1, 3), (1, 3))];
    let oh = vec![pending_hunk(Side::Ours, HunkKind::Added, (1, 2), (1, 1))];
    let regions = merge_regions(&th, &oh);
    assert_eq!(regions.len(), 1);
    assert_eq!((regions[0].base_start, regions[0].base_end), (1, 3));
    // The ours event (1,1) sorts before the theirs event (1,3).
    assert_eq!(regions[0].ours_ranges, vec![(1, 2)]);
    assert_eq!(regions[0].theirs_ranges, vec![(1, 3)]);

    // Exact adjacency (an event starting where the region ends) merges too.
    let th = vec![pending_hunk(Side::Theirs, HunkKind::Modified, (0, 2), (0, 2))];
    let oh = vec![pending_hunk(Side::Ours, HunkKind::Modified, (2, 4), (2, 4))];
    let regions = merge_regions(&th, &oh);
    assert_eq!(regions.len(), 1);
    assert_eq!((regions[0].base_start, regions[0].base_end), (0, 4));
}

#[test]
fn non_pending_hunks_take_no_part_in_regions() {
    let mut h = pending_hunk(Side::Theirs, HunkKind::Modified, (0, 1), (0, 1));
    h.status = HunkStatus::Ignored;
    let th = vec![h];
    let oh: Vec<Hunk> = Vec::new();
    let regions = merge_regions(&th, &oh);
    assert!(regions.is_empty());
}

#[test]
fn mapper_shifts_rows_by_earlier_deltas() {
    // A pending insertion of two lines at base row 1 shifts later rows down.
    let hunks = vec![pending_hunk(Side::Theirs, HunkKind::Added, (1, 3), (1, 1))];
    let m = CoordinateMapper::from_pending_hunks(&hunks);
    assert_eq!(m.offsets.len(), 1);
    assert_eq!(m.offsets[0].base_row, 1);
    assert_eq!(m.offsets[0].delta, 2);
    assert_eq!(m.map(0), 0);
    assert_eq!(m.map(1), 3);
    assert_eq!(m.map(5), 7);
}

#[test]
fn mapper_clamps_at_zero() {
    // A three-line deletion at base row 2: the rows inside it map below the
    // row just before it (the monotonicity law excludes such offsets).
    let hunks = vec![pending_hunk(Side::Theirs, HunkKind::Deleted, (2, 2), (2, 5))];
    let m = CoordinateMapper::from_pending_hunks(&hunks);
    assert_eq!(m.offsets[0].delta, -3);
    assert_eq!(m.map(1), 1);
    assert_eq!(m.map(2), 0);
    assert_eq!(m.map(5), 2);
}

#[test]
fn mapper_is_monotone_for_single_line_deltas() {
    let hunks = vec![
        pending_hunk(Side::Ours, HunkKind::Deleted, (1, 1), (1, 2)),
        pending_hunk(Side::Ours, HunkKind::Added, (3, 5), (4, 4)),
    ];
    let m = CoordinateMapper::from_pending_hunks(&hunks);
    let mut last = m.map(0);
    for row in 1..10u32 {
        let v = m.map(row);
        assert!(v >= last, "map must not decrease when no row loses more than one line");
        last = v;
    }
}

#[test]
fn mapper_sorts_offsets_by_base_row() {
    let hunks = vec![
        pending_hunk(Side::Theirs, HunkKind::Added, (9, 10), (7, 7)),
        pending_hunk(Side::Theirs, HunkKind::Added, (1, 2), (0, 0)),
    ];
    let m = CoordinateMapper::from_pending_hunks(&hunks);
    assert_eq!(m.offsets.len(), 2);
    assert_eq!(m.offsets[0].base_row, 0);
    assert_eq!(m.offsets[1].base_row, 7);
}

#[test]
fn merge_highlights_cover_sources_and_base() {
    let base = lines("1\n2\n3");
    let theirs = lines("1\nT\n3");
    let ours = lines("1\n2\n3\nO");
    let (th, oh) = compute_three_way(&base, &theirs, &ours);
    let (_, _, spans) = update_alignment(&th, &oh);
    assert_eq!(spans.len(), 3);
    assert_eq!(spans[0].space, PadTarget::Theirs);
    assert_eq!((spans[0].start, spans[0].end), (1, 2));
    assert_eq!(spans[0].origin, Some(Side::Theirs));
    assert_eq!(spans[1].space, PadTarget::Ours);
    assert_eq!((spans[1].start, spans[1].end), (3, 4));
    assert_eq!(spans[1].origin, Some(Side::Ours));
    assert_eq!(spans[2].space, PadTarget::Base);
    assert_eq!((spans[2].start, spans[2].end), (1, 2));
    assert_eq!(spans[2].origin, Some(Side::Theirs));
}

#[test]
fn merge_navigation_walks_pending_rows() {
    let base = lines("1\n2\n3");
    let theirs = lines("1\nT\n3");
    let ours = lines("1\n2\n3\nO");
    let (th, oh) = compute_three_way(&base, &theirs, &ours);
    // Pending base rows: 1 (theirs) and 3 (ours).
    assert_eq!(merge_navigation_target(&th, &oh, 0, true), Some(1));
    assert_eq!(merge_navigation_target(&th, &oh, 1, true), Some(3));
    assert_eq!(merge_navigation_target(&th, &oh, 3, true), Some(1), "forward wraps to the first");
    assert_eq!(merge_navigation_target(&th, &oh, 3, false), Some(1));
    assert_eq!(merge_navigation_target(&th, &oh, 0, false), Some(3), "backward wraps to the last");
    let (prev, next) = merge_navigation_state(&th, &oh, 2);
    assert!(prev && next);
    let (prev, next) = merge_navigation_state(&th, &oh, 0);
    assert!(!prev && next);
}

#[test]
fn state_accept_edits_base_and_recomputes() {
    let st_base = lines("1\n2\n3");
    let theirs = lines("1\nT\n3");
    let ours = lines("1\n2\n3\nO");
    let mut st = MergeState::new(st_base, theirs, ours);
    assert_eq!(st.theirs_hunks.len(), 1);
    assert_eq!(st.ours_hunks.len(), 1);
    assert_eq!(st.pending_diff_count(), 2);

    assert_eq!(st.accept_theirs(0), Ok(()));
    assert_eq!(st.base, lines("1\nT\n3"));
    // Fresh hunks against the edited base: theirs now matches; ours differs
    // at the replaced row and by its trailing addition.
    assert!(st.theirs_hunks.is_empty());
    assert_eq!(st.ours_hunks.len(), 2);
    assert_eq!(st.pending_diff_count(), 2);
}

#[test]
fn state_ignore_is_terminal_for_that_hunk() {
    let base = lines("1\n2\n3");
    let theirs = lines("1\nT\n3");
    let ours = lines("1\n2\n3");
    let mut st = MergeState::new(base, theirs, ours);
    assert!(st.has_pending_theirs());
    assert!(!st.has_pending_ours());
    assert!(!st.mark_as_resolved());

    assert_eq!(st.ignore_theirs(0), Ok(()));
    assert_eq!(st.theirs_hunks[0].status, HunkStatus::Ignored);
    assert_eq!(st.base, lines("1\n2\n3"), "ignoring edits no text");
    assert_eq!(st.ignore_theirs(0), Err(ApplyError::NotPending));
    assert_eq!(st.accept_theirs(0), Err(ApplyError::NotPending));
    assert!(st.all_hunks_processed());
    assert!(st.mark_as_resolved());
    assert_eq!(st.pending_diff_count(), 0);
}

#[test]
fn state_accept_all_applies_every_pending_hunk() {
    let base = lines("1\n2\n3");
    let theirs = lines("1\nT\nT2\n3\nX");
    let ours = lines("1\n2\n3");
    let mut st = MergeState::new(base, theirs, ours);
    assert_eq!(st.theirs_hunks.len(), 2);
    assert_eq!(st.accept_all_theirs(), Ok(()));
    // Both pending hunks reached the base, the second at its shifted row.
    assert_eq!(st.base, lines("1\nT\nT2\n3\nX"));
    assert!(st.theirs_hunks.is_empty());
    assert!(!st.ours_hunks.is_empty());
}

#[test]
fn state_accept_all_resolves_matching_sides() {
    let base = lines("1\n2\n3");
    let theirs = lines("1\nT\n3");
    let ours = lines("1\nT\n3");
    let mut st = MergeState::new(base, theirs, ours);
    assert_eq!(st.accept_all_theirs(), Ok(()));
    assert_eq!(st.base, lines("1\nT\n3"));
    // The ours side asked for the same change, so nothing is left pending.
    assert!(st.theirs_hunks.is_empty());
    assert!(st.ours_hunks.is_empty());
    assert!(st.all_hunks_processed());
    assert!(st.mark_as_resolved());
}

#[test]
fn state_accept_all_passes_over_deletions_and_non_pending() {
    let base = lines("1\n2\n3");
    let theirs = lines("1\n3\nX");
    let ours = lines("1\n2\n3");
    let mut st = MergeState::new(base, theirs, ours);
    // A deletion of row 1 and an addition after row 2.
    assert_eq!(st.theirs_hunks.len(), 2);
    assert_eq!(st.accept_all_theirs(), Ok(()));
    // The addition reached the base; the Deleted-kind accept is a no-op, so
    // the recomputation re-surfaces that difference as pending.
    assert_eq!(st.base, lines("1\n2\n3\nX"));
    assert_eq!(st.theirs_hunks.len(), 1);
    assert_eq!(st.theirs_hunks[0].kind, HunkKind::Deleted);
    assert_eq!(st.theirs_hunks[0].status, HunkStatus::Pending);
}

#[test]
fn state_toggle_resolve_mode_flips_only_the_mode() {
    let mut st = MergeState::new(lines("a"), lines("a"), lines("a"));
    assert!(!st.resolve_mode);
    st.toggle_resolve_mode();
    assert!(st.resolve_mode);
    st.toggle_resolve_mode();
    assert!(!st.resolve_mode);
}

#[test]
fn state_accepting_a_deletion_resurfaces_it() {
    // Accepting a Deleted-kind hunk is a no-op on the base text, so the
    // following recomputation re-surfaces the difference as a new pending
    // hunk.
    let base = lines("1\n2\n3");
    let theirs = lines("1\n3");
    let ours = lines("1\n2\n3");
    let mut st = MergeState::new(base, theirs, ours);
    assert_eq!(st.theirs_hunks[0].kind, HunkKind::Deleted);
    assert_eq!(st.accept_theirs(0), Ok(()));
    assert_eq!(st.base, lines("1\n2\n3"));
    assert_eq!(st.theirs_hunks.len(), 1);
    assert_eq!(st.theirs_hunks[0].status, HunkStatus::Pending);
}
