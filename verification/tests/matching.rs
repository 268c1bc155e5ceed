use transit::extract::{find_additions_and_deletions, DiffLine, DiffOrigin, FoundState};
use transit::moves::{compare, compare_all, compare_commits, find_moves, CommitPair};

fn line(
    origin: DiffOrigin,
    content: &str,
    old_path: &str,
    new_path: &str,
    old_lineno: Option<u32>,
    new_lineno: Option<u32>,
) -> DiffLine {
    DiffLine {
        origin,
        content: String::from(content),
        old_path: String::from(old_path),
        new_path: String::from(new_path),
        old_lineno,
        new_lineno,
    }
}

fn context(old_path: &str, new_path: &str) -> DiffLine {
    line(DiffOrigin::Context, "ctx\n", old_path, new_path, None, None)
}

#[test]
fn extractor_groups_contiguous_runs() {
    let lines = vec![
        line(DiffOrigin::Addition, "one\n", "f.txt", "f.txt", None, Some(10)),
        line(DiffOrigin::Addition, "two\n", "f.txt", "f.txt", None, Some(11)),
        context("f.txt", "f.txt"),
        line(DiffOrigin::Deletion, "gone\n", "f.txt", "f.txt", Some(20), None),
    ];
    let founds = find_additions_and_deletions(&lines);
    assert_eq!(founds.len(), 2);
    assert_eq!(founds[0].state, FoundState::Added);
    assert_eq!(founds[0].filename, "f.txt");
    assert_eq!(founds[0].start_position, 10);
    assert_eq!(founds[0].line_count, 2);
    assert_eq!(founds[0].key, "one\ntwo");
    assert_eq!(founds[1].state, FoundState::Deleted);
    assert_eq!(founds[1].start_position, 20);
    assert_eq!(founds[1].line_count, 1);
    assert_eq!(founds[1].key, "gone");
}

#[test]
fn extractor_flushes_on_run_change_without_context() {
    let lines = vec![
        line(DiffOrigin::Deletion, "old\n", "f.txt", "f.txt", Some(5), None),
        line(DiffOrigin::Addition, "new\n", "f.txt", "f.txt", None, Some(5)),
    ];
    let founds = find_additions_and_deletions(&lines);
    assert_eq!(founds.len(), 2);
    assert_eq!(founds[0].state, FoundState::Deleted);
    assert_eq!(founds[0].key, "old");
    assert_eq!(founds[1].state, FoundState::Added);
    assert_eq!(founds[1].key, "new");
}

#[test]
fn extractor_stops_on_missing_line_number() {
    let lines = vec![
        line(DiffOrigin::Addition, "kept\n", "f.txt", "f.txt", None, Some(3)),
        context("f.txt", "f.txt"),
        line(DiffOrigin::Addition, "anchorless\n", "f.txt", "f.txt", None, None),
        line(DiffOrigin::Addition, "ignored\n", "f.txt", "f.txt", None, Some(9)),
    ];
    let founds = find_additions_and_deletions(&lines);
    // The flushed block stays; the run that could not be anchored is dropped.
    assert_eq!(founds.len(), 1);
    assert_eq!(founds[0].key, "kept");
}

#[test]
fn rename_invariant_move_detected_across_files() {
    let lines = vec![
        line(
            DiffOrigin::Deletion,
            "let x = 1; return x + 1;\n",
            "A.rs",
            "A.rs",
            Some(3),
            None,
        ),
        context("A.rs", "A.rs"),
        line(
            DiffOrigin::Addition,
            "let y = 1; return y + 1;\n",
            "B.rs",
            "B.rs",
            None,
            Some(7),
        ),
        context("B.rs", "B.rs"),
    ];
    let founds = find_additions_and_deletions(&lines);
    assert_eq!(founds.len(), 2);
    assert_eq!(founds[0].key, founds[1].key);
    let moves = find_moves(&founds);
    assert_eq!(moves.len(), 1);
    assert_eq!(moves[0].old_filename, "A.rs");
    assert_eq!(moves[0].new_filename, "B.rs");
    assert_eq!(moves[0].origin_line, 3);
    assert_eq!(moves[0].destination_line, 7);
    assert_eq!(moves[0].num_lines, 1);
}

#[test]
fn no_false_move_for_distinct_content() {
    let lines = vec![
        line(DiffOrigin::Deletion, "alpha\n", "f.txt", "f.txt", Some(1), None),
        line(DiffOrigin::Addition, "omega\n", "f.txt", "f.txt", None, Some(1)),
    ];
    let founds = find_additions_and_deletions(&lines);
    let moves = find_moves(&founds);
    assert_eq!(moves.len(), 0);
}

#[test]
fn whitespace_only_blocks_never_match() {
    let lines = vec![
        line(DiffOrigin::Deletion, "   \n", "f.txt", "f.txt", Some(1), None),
        line(DiffOrigin::Addition, "  \t\n", "f.txt", "f.txt", None, Some(4)),
    ];
    let founds = find_additions_and_deletions(&lines);
    assert_eq!(founds.len(), 2);
    assert_eq!(founds[0].key, "");
    assert_eq!(founds[1].key, "");
    let moves = find_moves(&founds);
    assert_eq!(moves.len(), 0);
}

#[test]
fn net_line_accounting_subtracts_moves() {
    // One 3-line addition and one 3-line deletion that match as a move.
    let lines = vec![
        line(DiffOrigin::Deletion, "a\n", "f.txt", "f.txt", Some(10), None),
        line(DiffOrigin::Deletion, "b\n", "f.txt", "f.txt", Some(11), None),
        line(DiffOrigin::Deletion, "c\n", "f.txt", "f.txt", Some(12), None),
        context("f.txt", "f.txt"),
        line(DiffOrigin::Addition, "a\n", "f.txt", "f.txt", None, Some(40)),
        line(DiffOrigin::Addition, "b\n", "f.txt", "f.txt", None, Some(41)),
        line(DiffOrigin::Addition, "c\n", "f.txt", "f.txt", None, Some(42)),
    ];
    let c = compare(&lines);
    assert_eq!(c.moves.len(), 1);
    assert_eq!(c.moves[0].num_lines, 3);
    assert_eq!(c.added_lines, 0);
    assert_eq!(c.deleted_lines, 0);
}

#[test]
fn net_line_accounting_counts_unmatched_addition() {
    let lines = vec![
        line(DiffOrigin::Addition, "first\n", "f.txt", "f.txt", None, Some(1)),
        line(DiffOrigin::Addition, "second\n", "f.txt", "f.txt", None, Some(2)),
    ];
    let c = compare(&lines);
    assert_eq!(c.moves.len(), 0);
    assert_eq!(c.added_lines, 2);
    assert_eq!(c.deleted_lines, 0);
}

#[test]
fn ambiguous_match_discards_all_moves() {
    // A clean move first, then two distinct addition blocks that
    // canonicalize to the same non-empty key: everything is discarded.
    let lines = vec![
        line(DiffOrigin::Deletion, "moved\n", "f.txt", "f.txt", Some(1), None),
        context("f.txt", "f.txt"),
        line(DiffOrigin::Addition, "moved\n", "f.txt", "f.txt", None, Some(8)),
        context("f.txt", "f.txt"),
        line(DiffOrigin::Addition, "dup   one\n", "f.txt", "f.txt", None, Some(20)),
        context("f.txt", "f.txt"),
        line(DiffOrigin::Addition, "dup  one\n", "f.txt", "f.txt", None, Some(30)),
    ];
    let founds = find_additions_and_deletions(&lines);
    // The two duplicate blocks differ in raw text but both collapse their
    // whitespace runs away, so their canonical keys coincide.
    assert_eq!(founds[2].key, founds[3].key);
    assert_ne!(founds[2].key, "");
    let moves = find_moves(&founds);
    assert_eq!(moves.len(), 0);
}

#[test]
fn compare_commits_carries_ids_and_times() {
    let pair = CommitPair {
        old: String::from("1111aaaa"),
        old_time: 1000,
        new: String::from("2222bbbb"),
        new_time: 2000,
        lines: vec![
            line(DiffOrigin::Addition, "added\n", "f.txt", "f.txt", None, Some(1)),
        ],
    };
    let out = compare_commits(&pair);
    assert_eq!(out.old, "1111aaaa");
    assert_eq!(out.old_time, 1000);
    assert_eq!(out.new, "2222bbbb");
    assert_eq!(out.new_time, 2000);
    assert_eq!(out.outputs.len(), 0);
    assert_eq!(out.added_lines, 1);
    assert_eq!(out.deleted_lines, 0);
}

#[test]
fn compare_all_preserves_pair_order() {
    let mk = |id: &str, t: i64, text: &str| CommitPair {
        old: String::from(id),
        old_time: t,
        new: String::from(id),
        new_time: t,
        lines: vec![line(DiffOrigin::Addition, text, "f.txt", "f.txt", None, Some(1))],
    };
    let pairs = vec![mk("aa", 1, "x\n"), mk("bb", 2, "y\n"), mk("cc", 3, "z\n")];
    let outs = compare_all(&pairs);
    assert_eq!(outs.len(), 3);
    assert_eq!(outs[0].old, "aa");
    assert_eq!(outs[1].old, "bb");
    assert_eq!(outs[2].old, "cc");
    assert_eq!(outs[0].added_lines, 1);
}
