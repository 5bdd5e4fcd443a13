use merge_align::align::{plan_two_way_alignment, two_way_highlights, PadTarget};
use merge_align::apply::{apply_hunk, apply_hunks, ApplyError};
use merge_align::diff::{diff_lines, OpKind};
use merge_align::hunks::{compute_two_way, Hunk, HunkKind, HunkStatus};
use merge_align::nav::{two_way_navigation_state, two_way_navigation_target, visible_hunks};

fn lines(s: &str) -> Vec<String> {
    s.lines().map(|x| x.to_string()).collect()
}

fn check_ops_partition(old: &Vec<String>, new: &Vec<String>) {
    let ops = diff_lines(old, new);
    let mut oc: u32 = 0;
    let mut nc: u32 = 0;
    for op in &ops {
        assert_eq!(op.old_start, oc, "old ranges must be contiguous");
        assert_eq!(op.new_start, nc, "new ranges must be contiguous");
        assert!(op.old_start <= op.old_end);
        assert!(op.new_start <= op.new_end);
        oc = op.old_end;
        nc = op.new_end;
    }
    assert_eq!(oc as usize, old.len(), "old ranges must reach the end");
    assert_eq!(nc as usize, new.len(), "new ranges must reach the end");
}

#[test]
fn idempotence_yields_no_hunks() {
    for text in ["", "a", "a\nb\nc", "x\nx\nx", "one\ntwo\nthree\nfour"] {
        let t = lines(text);
        let hunks = compute_two_way(&t, &t);
        assert!(hunks.is_empty(), "equal inputs must produce zero hunks");
    }
}

#[test]
fn identical_inputs_give_one_equal_op() {
    let t = lines("a\nb\nc");
    let ops = diff_lines(&t, &t);
    assert_eq!(ops.len(), 1);
    assert_eq!(ops[0].kind, OpKind::Equal);
    assert_eq!((ops[0].old_start, ops[0].old_end), (0, 3));
    assert_eq!((ops[0].new_start, ops[0].new_end), (0, 3));
}

#[test]
fn scenario_modified_middle_line() {
    let old = lines("a\nb\nc");
    let new = lines("a\nX\nc");
    let hunks = compute_two_way(&old, &new);
    assert_eq!(hunks.len(), 1);
    let h = &hunks[0];
    assert_eq!(h.kind, HunkKind::Modified);
    assert_eq!((h.base_start, h.base_end), (1, 2));
    assert_eq!((h.source_start, h.source_end), (1, 2));
    assert_eq!(h.text, vec!["X".to_string()]);
    assert_eq!(h.status, HunkStatus::Pending);
    assert_eq!(h.side, None);
}

#[test]
fn scenario_added_trailing_line() {
    let old = lines("a\nb");
    let new = lines("a\nb\nc");
    let hunks = compute_two_way(&old, &new);
    assert_eq!(hunks.len(), 1);
    let h = &hunks[0];
    assert_eq!(h.kind, HunkKind::Added);
    assert_eq!((h.base_start, h.base_end), (2, 2));
    assert_eq!((h.source_start, h.source_end), (2, 3));
    assert_eq!(h.text, vec!["c".to_string()]);
}

#[test]
fn deleted_lines_have_empty_source_range() {
    let old = lines("a\nb\nc");
    let new = lines("a");
    let hunks = compute_two_way(&old, &new);
    assert_eq!(hunks.len(), 1);
    let h = &hunks[0];
    assert_eq!(h.kind, HunkKind::Deleted);
    assert_eq!((h.base_start, h.base_end), (1, 3));
    assert_eq!((h.source_start, h.source_end), (1, 1));
    assert!(h.text.is_empty());
}

#[test]
fn empty_old_is_all_insert() {
    let old = lines("");
    let new = lines("a\nb");
    let hunks = compute_two_way(&old, &new);
    assert_eq!(hunks.len(), 1);
    assert_eq!(hunks[0].kind, HunkKind::Added);
    assert_eq!((hunks[0].base_start, hunks[0].base_end), (0, 0));
    assert_eq!((hunks[0].source_start, hunks[0].source_end), (0, 2));
}

#[test]
fn empty_new_is_all_delete() {
    let old = lines("a\nb");
    let new = lines("");
    let hunks = compute_two_way(&old, &new);
    assert_eq!(hunks.len(), 1);
    assert_eq!(hunks[0].kind, HunkKind::Deleted);
    assert_eq!((hunks[0].base_start, hunks[0].base_end), (0, 2));
}

#[test]
fn round_trip_rebuilds_new_text() {
    let cases = [
        ("a\nb\nc", "a\nX\nc"),
        ("a\nb\nc\nd", "a\nd"),
        ("a\nd", "a\nb\nc\nd"),
        ("", "x\ny"),
        ("x\ny", ""),
        ("one\ntwo\nthree", "zero\none\n2\nthree\nfour"),
        ("a\nb\na\nb", "b\na\nb\na"),
    ] ;
    for (o, n) in cases {
        let old = lines(o);
        let new = lines(n);
        let hunks = compute_two_way(&old, &new);
        let mut buf = old.clone();
        let r = apply_hunks(&mut buf, &hunks);
        assert!(r.is_ok(), "replay must succeed for {o:?} -> {n:?}");
        assert_eq!(buf, new, "replay must rebuild the new text for {o:?} -> {n:?}");
    }
}

#[test]
fn coverage_partitions_both_line_ranges() {
    for (o, n) in [
        ("a\nb\nc", "a\nX\nc"),
        ("a\nb\nc\nd\ne", "a\nc\nz\ne"),
        ("", "a"),
        ("a", ""),
        ("same", "same"),
    ] {
        check_ops_partition(&lines(o), &lines(n));
    }
}

#[test]
fn apply_hunk_accepts_then_refuses() {
    // A Deleted-kind hunk, applied twice: the second call must fail because
    // the status is no longer Pending.
    let old = lines("a\nb");
    let new = lines("a");
    let mut hunks = compute_two_way(&old, &new);
    assert_eq!(hunks[0].kind, HunkKind::Deleted);
    let mut base = old.clone();
    assert_eq!(apply_hunk(&mut base, &mut hunks[0]), Ok(()));
    assert_eq!(hunks[0].status, HunkStatus::Accepted);
    // Deleted-kind accept is a no-op on the base text.
    assert_eq!(base, old);
    assert_eq!(apply_hunk(&mut base, &mut hunks[0]), Err(ApplyError::NotPending));
}

#[test]
fn apply_hunk_replaces_base_range() {
    let old = lines("a\nb\nc");
    let new = lines("a\nX\nY\nc");
    let mut hunks = compute_two_way(&old, &new);
    assert_eq!(hunks.len(), 1);
    let mut base = old.clone();
    assert_eq!(apply_hunk(&mut base, &mut hunks[0]), Ok(()));
    assert_eq!(base, lines("a\nX\nY\nc"));
}

#[test]
fn apply_hunk_rejects_backwards_range() {
    let mut base = lines("a\nb");
    let mut h = Hunk {
        side: None,
        kind: HunkKind::Modified,
        source_start: 0,
        source_end: 1,
        base_start: 2,
        base_end: 1,
        text: vec!["x".to_string()],
        status: HunkStatus::Pending,
    };
    assert_eq!(apply_hunk(&mut base, &mut h), Err(ApplyError::InvalidRange));
    assert_eq!(base, lines("a\nb"));
    assert_eq!(h.status, HunkStatus::Pending);
}

#[test]
fn apply_hunk_rejects_stale_range() {
    let mut base = lines("a\nb");
    let mut h = Hunk {
        side: None,
        kind: HunkKind::Modified,
        source_start: 0,
        source_end: 1,
        base_start: 1,
        base_end: 5,
        text: vec!["x".to_string()],
        status: HunkStatus::Pending,
    };
    assert_eq!(apply_hunk(&mut base, &mut h), Err(ApplyError::StaleRange));
    assert_eq!(base, lines("a\nb"));
}

#[test]
fn two_way_padding_balances_sides() {
    // A deletion pads the new side; an addition pads the old side.
    let old = lines("a\nb\nc\nd");
    let new = lines("a\nd");
    let hunks = compute_two_way(&old, &new);
    let pads = plan_two_way_alignment(&hunks);
    assert_eq!(pads.len(), 1);
    assert_eq!(pads[0].target, PadTarget::New);
    assert_eq!(pads[0].insertion_row, 1);
    assert_eq!(pads[0].line_count, 2);

    let hunks = compute_two_way(&new, &old);
    let pads = plan_two_way_alignment(&hunks);
    assert_eq!(pads.len(), 1);
    assert_eq!(pads[0].target, PadTarget::Old);
    assert_eq!(pads[0].insertion_row, 1);
    assert_eq!(pads[0].line_count, 2);
}

#[test]
fn two_way_modified_pads_shorter_side() {
    let old = lines("a\nb\nc");
    let new = lines("a\nX\nY\nZ\nc");
    let hunks = compute_two_way(&old, &new);
    assert_eq!(hunks.len(), 1);
    assert_eq!(hunks[0].kind, HunkKind::Modified);
    let pads = plan_two_way_alignment(&hunks);
    assert_eq!(pads.len(), 1);
    assert_eq!(pads[0].target, PadTarget::Old);
    // After the old side's changed range.
    assert_eq!(pads[0].insertion_row, 2);
    assert_eq!(pads[0].line_count, 2);
}

#[test]
fn two_way_highlights_mark_both_sides() {
    let old = lines("a\nb\nc");
    let new = lines("a\nX\nc");
    let hunks = compute_two_way(&old, &new);
    let spans = two_way_highlights(&hunks);
    assert_eq!(spans.len(), 2);
    assert_eq!(spans[0].space, PadTarget::Old);
    assert_eq!((spans[0].start, spans[0].end), (1, 2));
    assert_eq!(spans[0].kind, HunkKind::Modified);
    assert_eq!(spans[1].space, PadTarget::New);
    assert_eq!((spans[1].start, spans[1].end), (1, 2));
}

#[test]
fn navigation_state_sees_hunks_around_cursor() {
    let old = lines("a\nb\nc\nd\ne");
    let new = lines("a\nX\nc\nd\nY");
    let hunks = compute_two_way(&old, &new);
    assert_eq!(hunks.len(), 2);
    let (prev, next) = two_way_navigation_state(&hunks, 2);
    assert!(prev);
    assert!(next);
    let (prev, next) = two_way_navigation_state(&hunks, 0);
    assert!(!prev);
    assert!(next);
    let (prev, next) = two_way_navigation_state(&hunks, 10);
    assert!(prev);
    assert!(!next);
}

#[test]
fn navigation_target_wraps_around() {
    let old = lines("a\nb\nc\nd\ne");
    let new = lines("a\nX\nc\nd\nY");
    let hunks = compute_two_way(&old, &new);
    // Hunks start at source rows 1 and 4.
    assert_eq!(two_way_navigation_target(&hunks, 1, true), Some(4));
    assert_eq!(two_way_navigation_target(&hunks, 4, true), Some(1));
    assert_eq!(two_way_navigation_target(&hunks, 4, false), Some(1));
    assert_eq!(two_way_navigation_target(&hunks, 1, false), Some(4));
    let none: Vec<Hunk> = Vec::new();
    assert_eq!(two_way_navigation_target(&none, 0, true), None);
}

#[test]
fn visible_hunks_filters_by_row_window() {
    let old = lines("a\nb\nc\nd\ne\nf\ng\nh");
    let new = lines("A\nb\nc\nd\ne\nf\ng\nH");
    let hunks = compute_two_way(&old, &new);
    assert_eq!(hunks.len(), 2);
    // Hunks at source rows 0..1 and 7..8.
    assert_eq!(visible_hunks(&hunks, 0, 3), vec![0]);
    assert_eq!(visible_hunks(&hunks, 5, 10), vec![1]);
    assert_eq!(visible_hunks(&hunks, 0, 10), vec![0, 1]);
    assert_eq!(visible_hunks(&hunks, 2, 6), Vec::<usize>::new());
}
