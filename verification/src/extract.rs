//! Reduction of a unified-diff line stream to contiguous blocks.
//!
//! Each diff line carries an origin (addition, deletion, or context), its
//! text, the delta's two file paths, and, for addition or deletion lines, a
//! line number in the new or old file.  A three-state machine gathers
//! maximal runs of same-origin lines into [`Found`] blocks, canonicalizing
//! each run's text with the strategy chosen from the delta's extensions.
//! A run-opening line that lacks its line number stops extraction for the
//! stream: blocks already flushed are kept, the open run is dropped.

use vstd::prelude::*;

use crate::keys::{apply_key_format, format_key_spec, key_format_spec, key_of, which_key_format};

verus! {

/// Whether a block holds added or deleted lines.
#[derive(Clone, Copy, Debug, PartialEq, Eq, Structural)]
pub enum FoundState {
    Added,
    Deleted,
}

/// The origin of one diff line.
#[derive(Clone, Copy, Debug, PartialEq, Eq, Structural)]
pub enum DiffOrigin {
    /// A line present only in the new file.
    Addition,
    /// A line present only in the old file.
    Deletion,
    /// A context line, hunk header, or anything else.
    Context,
}

/// One line of a diff, as handed in by the diff provider.
pub struct DiffLine {
    /// The line's classification.
    pub origin: DiffOrigin,
    /// The raw text of the line.
    pub content: String,
    /// The owning delta's old file path.
    pub old_path: String,
    /// The owning delta's new file path.
    pub new_path: String,
    /// The 1-based line number in the old file, for deletion lines.
    pub old_lineno: Option<u32>,
    /// The 1-based line number in the new file, for addition lines.
    pub new_lineno: Option<u32>,
}

/// Mathematical model of a [`DiffLine`].
#[verifier::ext_equal]
pub struct DiffLineView {
    pub origin: DiffOrigin,
    pub content: Seq<char>,
    pub old_path: Seq<char>,
    pub new_path: Seq<char>,
    pub old_lineno: Option<u32>,
    pub new_lineno: Option<u32>,
}

impl View for DiffLine {
    type V = DiffLineView;

    open spec fn view(&self) -> DiffLineView {
        DiffLineView {
            origin: self.origin,
            content: self.content@,
            old_path: self.old_path@,
            new_path: self.new_path@,
            old_lineno: self.old_lineno,
            new_lineno: self.new_lineno,
        }
    }
}

/// A maximal contiguous run of added or deleted lines, with its canonical
/// content key.  An empty key marks content that canonicalized to nothing;
/// such blocks are excluded from matching.
pub struct Found {
    /// The file the run belongs to: the new file for additions, the old
    /// file for deletions.
    pub filename: String,
    /// The canonical key of the run's text.
    pub key: String,
    /// Whether the run was added or deleted.
    pub state: FoundState,
    /// The 1-based line number where the run starts.
    pub start_position: u32,
    /// How many lines the run spans.
    pub line_count: u32,
}

/// Mathematical model of a [`Found`].
#[verifier::ext_equal]
pub struct FoundView {
    pub filename: Seq<char>,
    pub key: Seq<char>,
    pub state: FoundState,
    pub start_position: int,
    pub line_count: int,
}

impl View for Found {
    type V = FoundView;

    open spec fn view(&self) -> FoundView {
        FoundView {
            filename: self.filename@,
            key: self.key@,
            state: self.state,
            start_position: self.start_position as int,
            line_count: self.line_count as int,
        }
    }
}

/// The views of a sequence of diff lines.
pub open spec fn line_views(s: Seq<DiffLine>) -> Seq<DiffLineView> {
    s.map_values(|l: DiffLine| l@)
}

/// The views of a sequence of blocks.
pub open spec fn found_views(s: Seq<Found>) -> Seq<FoundView> {
    s.map_values(|f: Found| f@)
}

/// The extractor's states.
#[derive(Clone, Copy)]
pub enum RunState {
    /// Not inside a run.
    Other,
    /// Gathering an addition run.
    Addition,
    /// Gathering a deletion run.
    Deletion,
}

/// The extractor's accumulator: the machine state, the gathered added and
/// deleted text, the open run's position and length, the paths of the last
/// line seen, the blocks flushed so far, and whether extraction stopped.
#[verifier::ext_equal]
pub struct ExtractAcc {
    pub state: RunState,
    pub added: Seq<char>,
    pub deleted: Seq<char>,
    pub line_count: int,
    pub start_position: int,
    pub cur_old_path: Seq<char>,
    pub cur_new_path: Seq<char>,
    pub founds: Seq<FoundView>,
    pub stopped: bool,
}

/// The accumulator before any line is consumed.
pub open spec fn extract_init() -> ExtractAcc {
    ExtractAcc {
        state: RunState::Other,
        added: Seq::empty(),
        deleted: Seq::empty(),
        line_count: 0,
        start_position: 0,
        cur_old_path: Seq::empty(),
        cur_new_path: Seq::empty(),
        founds: Seq::empty(),
        stopped: false,
    }
}

/// One line of extraction.  An addition line that interrupts a deletion run
/// flushes the deletion block and opens an addition run (and symmetrically);
/// a context line flushes whichever run is open; a run-opening line without
/// its line number stops extraction.
pub open spec fn extract_step(a: ExtractAcc, l: DiffLineView) -> ExtractAcc {
    if a.stopped {
        a
    } else {
        let fmt = key_format_spec(l.old_path, l.new_path);
        let b = ExtractAcc { cur_old_path: l.old_path, cur_new_path: l.new_path, ..a };
        match l.origin {
            DiffOrigin::Addition => {
                let b = ExtractAcc { added: b.added + l.content, ..b };
                match a.state {
                    RunState::Deletion => {
                        let f = FoundView {
                            filename: l.old_path,
                            key: key_of(fmt, a.deleted),
                            state: FoundState::Deleted,
                            start_position: a.start_position,
                            line_count: a.line_count,
                        };
                        let b = ExtractAcc {
                            deleted: Seq::empty(),
                            line_count: 0,
                            founds: b.founds.push(f),
                            ..b
                        };
                        match l.new_lineno {
                            Option::Some(n) => ExtractAcc {
                                state: RunState::Addition,
                                start_position: n as int,
                                ..b
                            },
                            Option::None => ExtractAcc { stopped: true, ..b },
                        }
                    },
                    RunState::Addition => ExtractAcc { line_count: a.line_count + 1, ..b },
                    RunState::Other => {
                        let b = ExtractAcc { line_count: 1, ..b };
                        match l.new_lineno {
                            Option::Some(n) => ExtractAcc {
                                state: RunState::Addition,
                                start_position: n as int,
                                ..b
                            },
                            Option::None => ExtractAcc { stopped: true, ..b },
                        }
                    },
                }
            },
            DiffOrigin::Deletion => {
                let b = ExtractAcc { deleted: b.deleted + l.content, ..b };
                match a.state {
                    RunState::Addition => {
                        let f = FoundView {
                            filename: l.new_path,
                            key: key_of(fmt, a.added),
                            state: FoundState::Added,
                            start_position: a.start_position,
                            line_count: a.line_count,
                        };
                        let b = ExtractAcc {
                            added: Seq::empty(),
                            line_count: 0,
                            founds: b.founds.push(f),
                            ..b
                        };
                        match l.old_lineno {
                            Option::Some(n) => ExtractAcc {
                                state: RunState::Deletion,
                                start_position: n as int,
                                ..b
                            },
                            Option::None => ExtractAcc { stopped: true, ..b },
                        }
                    },
                    RunState::Deletion => ExtractAcc { line_count: a.line_count + 1, ..b },
                    RunState::Other => {
                        let b = ExtractAcc { line_count: 1, ..b };
                        match l.old_lineno {
                            Option::Some(n) => ExtractAcc {
                                state: RunState::Deletion,
                                start_position: n as int,
                                ..b
                            },
                            Option::None => ExtractAcc { stopped: true, ..b },
                        }
                    },
                }
            },
            DiffOrigin::Context => {
                match a.state {
                    RunState::Addition => ExtractAcc {
                        state: RunState::Other,
                        added: Seq::empty(),
                        founds: b.founds.push(
                            FoundView {
                                filename: l.new_path,
                                key: key_of(fmt, a.added),
                                state: FoundState::Added,
                                start_position: a.start_position,
                                line_count: a.line_count,
                            },
                        ),
                        ..b
                    },
                    RunState::Deletion => ExtractAcc {
                        state: RunState::Other,
                        deleted: Seq::empty(),
                        founds: b.founds.push(
                            FoundView {
                                filename: l.old_path,
                                key: key_of(fmt, a.deleted),
                                state: FoundState::Deleted,
                                start_position: a.start_position,
                                line_count: a.line_count,
                            },
                        ),
                        ..b
                    },
                    RunState::Other => ExtractAcc { state: RunState::Other, ..b },
                }
            },
        }
    }
}

/// The accumulator after consuming all of `lines`.
pub open spec fn extract_run(lines: Seq<DiffLineView>) -> ExtractAcc
    decreases lines.len(),
{
    if lines.len() == 0 {
        extract_init()
    } else {
        extract_step(extract_run(lines.drop_last()), lines.last())
    }
}

/// The end-of-stream flush: an open run with non-empty gathered text
/// becomes one last block, keyed with the generic canonicalizer.
pub open spec fn extract_finish(a: ExtractAcc) -> Seq<FoundView> {
    match a.state {
        RunState::Addition => {
            if a.added.len() > 0 {
                a.founds.push(
                    FoundView {
                        filename: a.cur_new_path,
                        key: format_key_spec(a.added),
                        state: FoundState::Added,
                        start_position: a.start_position,
                        line_count: a.line_count,
                    },
                )
            } else {
                a.founds
            }
        },
        RunState::Deletion => {
            if a.deleted.len() > 0 {
                a.founds.push(
                    FoundView {
                        filename: a.cur_old_path,
                        key: format_key_spec(a.deleted),
                        state: FoundState::Deleted,
                        start_position: a.start_position,
                        line_count: a.line_count,
                    },
                )
            } else {
                a.founds
            }
        },
        RunState::Other => a.founds,
    }
}

/// The blocks extracted from a diff line stream.
pub open spec fn extract_spec(lines: Seq<DiffLineView>) -> Seq<FoundView> {
    extract_finish(extract_run(lines))
}

/// Reduces `lines` to its sequence of addition and deletion blocks, in
/// stream order, each keyed by the canonicalizer its delta's extensions
/// select.
pub fn find_additions_and_deletions(lines: &Vec<DiffLine>) -> (r: Vec<Found>)
    requires
        lines@.len() <= u32::MAX,
    ensures
        found_views(r@) == extract_spec(line_views(lines@)),
{
    let ghost lvs = line_views(lines@);
    let n = lines.len();
    let mut founds: Vec<Found> = Vec::new();
    let mut state = RunState::Other;
    let mut added = String::new();
    let mut deleted = String::new();
    let mut line_count: u32 = 0;
    let mut start_position: u32 = 0;
    let mut cur_old_path = String::new();
    let mut cur_new_path = String::new();
    let mut stopped = false;
    let mut i: usize = 0;
    proof {
        assert(lvs.take(0) =~= Seq::<DiffLineView>::empty());
        assert(found_views(founds@) =~= Seq::<FoundView>::empty());
    }
    while i < n
        invariant
            i <= n,
            n == lines@.len(),
            n <= u32::MAX,
            lvs == line_views(lines@),
            ({
                let a = extract_run(lvs.take(i as int));
                &&& stopped == a.stopped
                &&& state == a.state
                &&& added@ == a.added
                &&& deleted@ == a.deleted
                &&& line_count as int == a.line_count
                &&& 0 <= a.line_count <= i
                &&& start_position as int == a.start_position
                &&& cur_old_path@ == a.cur_old_path
                &&& cur_new_path@ == a.cur_new_path
                &&& found_views(founds@) == a.founds
            }),
        decreases n - i,
    {
        let ghost a = extract_run(lvs.take(i as int));
        let ghost lv = lvs[i as int];
        proof {
            assert(lvs.take(i + 1).drop_last() =~= lvs.take(i as int));
            assert(lvs.take(i + 1).last() == lv);
        }
        let ghost b = extract_step(a, lv);
        if !stopped {
            let line = &lines[i];
            proof {
                assert(line@ == lv);
            }
            cur_old_path = line.old_path.clone();
            cur_new_path = line.new_path.clone();
            let fmt = which_key_format(&line.old_path, &line.new_path);
            match line.origin {
                DiffOrigin::Addition => {
                    added.append(line.content.as_str());
                    match state {
                        RunState::Deletion => {
                            let key = apply_key_format(fmt, deleted);
                            founds.push(
                                Found {
                                    filename: line.old_path.clone(),
                                    key,
                                    state: FoundState::Deleted,
                                    start_position,
                                    line_count,
                                },
                            );
                            deleted = String::new();
                            line_count = 0;
                            match line.new_lineno {
                                Option::Some(lineno) => {
                                    start_position = lineno;
                                    state = RunState::Addition;
                                },
                                Option::None => {
                                    stopped = true;
                                },
                            }
                        },
                        RunState::Addition => {
                            line_count = line_count + 1;
                        },
                        RunState::Other => {
                            line_count = 1;
                            match line.new_lineno {
                                Option::Some(lineno) => {
                                    start_position = lineno;
                                    state = RunState::Addition;
                                },
                                Option::None => {
                                    stopped = true;
                                },
                            }
                        },
                    }
                },
                DiffOrigin::Deletion => {
                    deleted.append(line.content.as_str());
                    match state {
                        RunState::Addition => {
                            let key = apply_key_format(fmt, added);
                            founds.push(
                                Found {
                                    filename: line.new_path.clone(),
                                    key,
                                    state: FoundState::Added,
                                    start_position,
                                    line_count,
                                },
                            );
                            added = String::new();
                            line_count = 0;
                            match line.old_lineno {
                                Option::Some(lineno) => {
                                    start_position = lineno;
                                    state = RunState::Deletion;
                                },
                                Option::None => {
                                    stopped = true;
                                },
                            }
                        },
                        RunState::Deletion => {
                            line_count = line_count + 1;
                        },
                        RunState::Other => {
                            line_count = 1;
                            match line.old_lineno {
                                Option::Some(lineno) => {
                                    start_position = lineno;
                                    state = RunState::Deletion;
                                },
                                Option::None => {
                                    stopped = true;
                                },
                            }
                        },
                    }
                },
                DiffOrigin::Context => {
                    match state {
                        RunState::Addition => {
                            let key = apply_key_format(fmt, added);
                            founds.push(
                                Found {
                                    filename: line.new_path.clone(),
                                    key,
                                    state: FoundState::Added,
                                    start_position,
                                    line_count,
                                },
                            );
                            added = String::new();
                            state = RunState::Other;
                        },
                        RunState::Deletion => {
                            let key = apply_key_format(fmt, deleted);
                            founds.push(
                                Found {
                                    filename: line.old_path.clone(),
                                    key,
                                    state: FoundState::Deleted,
                                    start_position,
                                    line_count,
                                },
                            );
                            deleted = String::new();
                            state = RunState::Other;
                        },
                        RunState::Other => {},
                    }
                },
            }
            proof {
                assert(found_views(founds@) =~= b.founds);
            }
        }
        i = i + 1;
    }
    proof {
        assert(lvs.take(n as int) =~= lvs);
    }
    let ghost fin = extract_run(lvs);
    match state {
        RunState::Addition => {
            if !added.as_str().is_empty() {
                let key = crate::keys::format_key(added);
                founds.push(
                    Found {
                        filename: cur_new_path,
                        key,
                        state: FoundState::Added,
                        start_position,
                        line_count,
                    },
                );
            }
        },
        RunState::Deletion => {
            if !deleted.as_str().is_empty() {
                let key = crate::keys::format_key(deleted);
                founds.push(
                    Found {
                        filename: cur_old_path,
                        key,
                        state: FoundState::Deleted,
                        start_position,
                        line_count,
                    },
                );
            }
        },
        RunState::Other => {},
    }
    proof {
        assert(found_views(founds@) =~= extract_spec(lvs));
    }
    founds
}

/// The open run's contribution to the line total: nothing while no run is
/// open, since a stale count is never flushed from the idle state.
pub open spec fn live_count(a: ExtractAcc) -> int {
    match a.state {
        RunState::Other => 0,
        RunState::Addition => a.line_count,
        RunState::Deletion => a.line_count,
    }
}

/// The total of the blocks' line counts.
pub open spec fn sum_counts(fs: Seq<FoundView>) -> int
    decreases fs.len(),
{
    if fs.len() == 0 {
        0
    } else {
        sum_counts(fs.drop_last()) + fs.last().line_count
    }
}

#[verifier::rlimit(50)]
proof fn lemma_extract_run_counts(lines: Seq<DiffLineView>)
    ensures
        ({
            let a = extract_run(lines);
            &&& 0 <= a.line_count
            &&& forall|k: int| 0 <= k < a.founds.len() ==> 0 <= (#[trigger] a.founds[k]).line_count
            &&& sum_counts(a.founds) + live_count(a) <= lines.len()
        }),
    decreases lines.len(),
{
    if lines.len() > 0 {
        lemma_extract_run_counts(lines.drop_last());
        let a = extract_run(lines.drop_last());
        let b = extract_step(a, lines.last());
        assert forall|x: FoundView|
            sum_counts(a.founds.push(x)) == sum_counts(a.founds) + x.line_count by {
            assert(a.founds.push(x).drop_last() =~= a.founds);
        }
        assert forall|k: int| 0 <= k < b.founds.len() implies 0 <= (
        #[trigger] b.founds[k]).line_count by {
            if k < a.founds.len() {
                assert(b.founds[k] == a.founds[k]);
            }
        }
        assert(extract_run(lines) == b);
        assert(sum_counts(b.founds) + live_count(b) <= lines.len());
    }
}

/// Every extracted block has a non-negative line count, and together the
/// blocks cover no more lines than the stream holds.
pub proof fn lemma_extract_counts(lines: Seq<DiffLineView>)
    ensures
        forall|k: int|
            0 <= k < extract_spec(lines).len() ==> 0 <= (#[trigger] extract_spec(
                lines,
            )[k]).line_count,
        sum_counts(extract_spec(lines)) <= lines.len(),
{
    lemma_extract_run_counts(lines);
    let a = extract_run(lines);
    let r = extract_spec(lines);
    assert forall|x: FoundView| sum_counts(a.founds.push(x)) == sum_counts(a.founds)
        + x.line_count by {
        assert(a.founds.push(x).drop_last() =~= a.founds);
    }
    assert forall|k: int| 0 <= k < r.len() implies 0 <= (#[trigger] r[k]).line_count by {
        if k < a.founds.len() {
            assert(r[k] == a.founds[k]);
        }
    }
}

} // verus!
