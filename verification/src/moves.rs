//! Pairing of addition and deletion blocks into move records.
//!
//! The matcher walks the extracted blocks in order, keeping at most one
//! pending block per canonical key.  A block whose key is already pending
//! with the opposite state completes a move: the deletion side supplies the
//! origin, the addition side the destination, and the pair is consumed.  A
//! block whose key is pending with the *same* state is an ambiguity signal:
//! matching for the whole comparison is abandoned and an empty move list
//! returned, discarding any moves already found.  Blocks with an empty key
//! never participate.

use vstd::prelude::*;

use crate::extract::{
    extract_spec, find_additions_and_deletions, found_views, line_views, sum_counts, DiffLine,
    DiffLineView, Found, FoundState, FoundView,
};
use crate::text::str_eq;

verus! {

/// One detected move.  The origin side always describes the deletion, the
/// destination side always the addition, whichever was discovered first.
pub struct Output {
    /// The file the block was deleted from.
    pub old_filename: String,
    /// The file the block was added to.
    pub new_filename: String,
    /// The 1-based first line of the deleted block in the old file.
    pub origin_line: u32,
    /// The 1-based first line of the added block in the new file.
    pub destination_line: u32,
    /// How many lines the move spans.
    pub num_lines: u32,
}

/// Mathematical model of an [`Output`].
#[verifier::ext_equal]
pub struct OutputView {
    pub old_filename: Seq<char>,
    pub new_filename: Seq<char>,
    pub origin_line: int,
    pub destination_line: int,
    pub num_lines: int,
}

impl View for Output {
    type V = OutputView;

    open spec fn view(&self) -> OutputView {
        OutputView {
            old_filename: self.old_filename@,
            new_filename: self.new_filename@,
            origin_line: self.origin_line as int,
            destination_line: self.destination_line as int,
            num_lines: self.num_lines as int,
        }
    }
}

/// The views of a sequence of move records.
pub open spec fn output_views(s: Seq<Output>) -> Seq<OutputView> {
    s.map_values(|o: Output| o@)
}

/// The move record of a pending block `q` and the current block `f`, whose
/// states differ: the deletion side gives the origin, the addition side the
/// destination, and the current block gives the length.
pub open spec fn make_output(q: FoundView, f: FoundView) -> OutputView {
    if f.state == FoundState::Added {
        OutputView {
            old_filename: q.filename,
            new_filename: f.filename,
            origin_line: q.start_position,
            destination_line: f.start_position,
            num_lines: f.line_count,
        }
    } else {
        OutputView {
            old_filename: f.filename,
            new_filename: q.filename,
            origin_line: f.start_position,
            destination_line: q.start_position,
            num_lines: f.line_count,
        }
    }
}

/// The matcher's accumulator: the pending block per key, the moves found so
/// far, and whether an ambiguity aborted the comparison.
#[verifier::ext_equal]
pub struct ScanAcc {
    pub pending: Map<Seq<char>, FoundView>,
    pub moves: Seq<OutputView>,
    pub aborted: bool,
}

/// The accumulator before any block is considered.
pub open spec fn scan_init() -> ScanAcc {
    ScanAcc { pending: Map::empty(), moves: Seq::empty(), aborted: false }
}

/// One block of matching.
pub open spec fn scan_step(a: ScanAcc, f: FoundView) -> ScanAcc {
    if a.aborted {
        a
    } else if f.key.len() == 0 {
        a
    } else if a.pending.contains_key(f.key) {
        let q = a.pending[f.key];
        if q.state == f.state {
            ScanAcc { aborted: true, ..a }
        } else {
            ScanAcc {
                pending: a.pending.remove(f.key),
                moves: a.moves.push(make_output(q, f)),
                aborted: false,
            }
        }
    } else {
        ScanAcc { pending: a.pending.insert(f.key, f), ..a }
    }
}

/// The accumulator after considering all of `blocks`.
pub open spec fn scan_run(blocks: Seq<FoundView>) -> ScanAcc
    decreases blocks.len(),
{
    if blocks.len() == 0 {
        scan_init()
    } else {
        scan_step(scan_run(blocks.drop_last()), blocks.last())
    }
}

/// The moves of a block sequence: what the scan found, or nothing at all
/// when an ambiguity aborted it.
pub open spec fn find_moves_spec(blocks: Seq<FoundView>) -> Seq<OutputView> {
    let a = scan_run(blocks);
    if a.aborted {
        Seq::empty()
    } else {
        a.moves
    }
}

/// The key-to-block map described by indices `idxs` into `fv`; later
/// entries win.
pub open spec fn pending_map(fv: Seq<FoundView>, idxs: Seq<usize>) -> Map<Seq<char>, FoundView>
    decreases idxs.len(),
{
    if idxs.len() == 0 {
        Map::empty()
    } else {
        pending_map(fv, idxs.drop_last()).insert(
            fv[idxs.last() as int].key,
            fv[idxs.last() as int],
        )
    }
}

/// All indices are in bounds and no two name the same key.
pub open spec fn pending_ok(fv: Seq<FoundView>, idxs: Seq<usize>) -> bool {
    &&& forall|k: int| 0 <= k < idxs.len() ==> (#[trigger] idxs[k]) < fv.len()
    &&& forall|a: int, b: int|
        0 <= a < b < idxs.len() ==> fv[idxs[a] as int].key != fv[idxs[b] as int].key
}

proof fn lemma_pending_map_contains(fv: Seq<FoundView>, idxs: Seq<usize>, key: Seq<char>)
    requires
        pending_ok(fv, idxs),
    ensures
        pending_map(fv, idxs).contains_key(key) <==> exists|k: int|
            0 <= k < idxs.len() && fv[idxs[k] as int].key == key,
    decreases idxs.len(),
{
    if idxs.len() > 0 {
        assert(pending_ok(fv, idxs.drop_last()));
        lemma_pending_map_contains(fv, idxs.drop_last(), key);
        if fv[idxs.last() as int].key == key {
            assert(fv[idxs[idxs.len() - 1] as int].key == key);
        } else {
            if pending_map(fv, idxs).contains_key(key) {
                let k = choose|k: int|
                    0 <= k < idxs.drop_last().len() && fv[idxs.drop_last()[k] as int].key == key;
                assert(fv[idxs[k] as int].key == key);
            }
            if exists|k: int| 0 <= k < idxs.len() && fv[idxs[k] as int].key == key {
                let k = choose|k: int| 0 <= k < idxs.len() && fv[idxs[k] as int].key == key;
                assert(fv[idxs.drop_last()[k] as int].key == key);
            }
        }
    }
}

proof fn lemma_pending_map_value(fv: Seq<FoundView>, idxs: Seq<usize>, k: int)
    requires
        pending_ok(fv, idxs),
        0 <= k < idxs.len(),
    ensures
        pending_map(fv, idxs).contains_key(fv[idxs[k] as int].key),
        pending_map(fv, idxs)[fv[idxs[k] as int].key] == fv[idxs[k] as int],
    decreases idxs.len(),
{
    if k < idxs.len() - 1 {
        assert(pending_ok(fv, idxs.drop_last()));
        assert(idxs.drop_last()[k] == idxs[k]);
        lemma_pending_map_value(fv, idxs.drop_last(), k);
        assert(fv[idxs.last() as int].key != fv[idxs[k] as int].key);
    }
}

proof fn lemma_pending_map_remove(fv: Seq<FoundView>, idxs: Seq<usize>, k: int)
    requires
        pending_ok(fv, idxs),
        0 <= k < idxs.len(),
    ensures
        pending_map(fv, idxs.remove(k)) == pending_map(fv, idxs).remove(fv[idxs[k] as int].key),
    decreases idxs.len(),
{
    let key = fv[idxs[k] as int].key;
    if k == idxs.len() - 1 {
        assert(idxs.remove(k) =~= idxs.drop_last());
        assert(pending_ok(fv, idxs.drop_last()));
        lemma_pending_map_contains(fv, idxs.drop_last(), key);
        assert(!pending_map(fv, idxs.drop_last()).contains_key(key));
        assert(pending_map(fv, idxs.remove(k)) =~= pending_map(fv, idxs).remove(key));
    } else {
        assert(pending_ok(fv, idxs.drop_last()));
        assert(idxs.drop_last()[k] == idxs[k]);
        lemma_pending_map_remove(fv, idxs.drop_last(), k);
        assert(idxs.remove(k).drop_last() =~= idxs.drop_last().remove(k));
        assert(idxs.remove(k).last() == idxs.last());
        assert(fv[idxs.last() as int].key != key);
        assert(pending_map(fv, idxs.remove(k)) =~= pending_map(fv, idxs).remove(key));
    }
}

fn find_pending(founds: &Vec<Found>, pending: &Vec<usize>, key: &String) -> (r: Option<usize>)
    requires
        forall|k: int| 0 <= k < pending@.len() ==> (#[trigger] pending@[k]) < founds@.len(),
    ensures
        match r {
            Option::Some(j) => j < pending@.len() && founds@[pending@[j as int] as int].key@
                == key@,
            Option::None => forall|k: int|
                0 <= k < pending@.len() ==> founds@[(#[trigger] pending@[k]) as int].key@ != key@,
        },
{
    let mut j: usize = 0;
    while j < pending.len()
        invariant
            j <= pending@.len(),
            forall|k: int| 0 <= k < pending@.len() ==> (#[trigger] pending@[k]) < founds@.len(),
            forall|k: int|
                0 <= k < j ==> founds@[(#[trigger] pending@[k]) as int].key@ != key@,
        decreases pending@.len() - j,
    {
        let idx = pending[j];
        if str_eq(founds[idx].key.as_str(), key.as_str()) {
            return Option::Some(j);
        }
        j = j + 1;
    }
    Option::None
}

proof fn lemma_scan_aborted_stays(blocks: Seq<FoundView>, m: int)
    requires
        0 <= m <= blocks.len(),
        scan_run(blocks.take(m)).aborted,
    ensures
        scan_run(blocks).aborted,
    decreases blocks.len() - m,
{
    if m == blocks.len() {
        assert(blocks.take(m) =~= blocks);
    } else {
        assert(blocks.take(m + 1).drop_last() =~= blocks.take(m));
        assert(blocks.take(m + 1).last() == blocks[m]);
        lemma_scan_aborted_stays(blocks, m + 1);
    }
}

/// Pairs blocks whose canonical keys coincide across opposite states into
/// move records, in discovery order.  A key is matched at most once.  Two
/// same-state blocks with the same non-empty key abort the whole
/// comparison: the result is then empty, whatever was already found.
pub fn find_moves(founds: &Vec<Found>) -> (r: Vec<Output>)
    ensures
        output_views(r@) == find_moves_spec(found_views(founds@)),
{
    let ghost fv = found_views(founds@);
    let mut moves: Vec<Output> = Vec::new();
    let mut pending: Vec<usize> = Vec::new();
    let mut i: usize = 0;
    proof {
        assert(fv.take(0) =~= Seq::<FoundView>::empty());
        assert(output_views(moves@) =~= Seq::<OutputView>::empty());
    }
    while i < founds.len()
        invariant
            i <= founds@.len(),
            fv == found_views(founds@),
            pending_ok(fv, pending@),
            forall|k: int| 0 <= k < pending@.len() ==> (#[trigger] pending@[k]) < i,
            ({
                let a = scan_run(fv.take(i as int));
                &&& !a.aborted
                &&& pending_map(fv, pending@) == a.pending
                &&& output_views(moves@) == a.moves
            }),
        decreases founds@.len() - i,
    {
        let ghost a = scan_run(fv.take(i as int));
        proof {
            assert(fv.take(i + 1).drop_last() =~= fv.take(i as int));
            assert(fv.take(i + 1).last() == fv[i as int]);
        }
        let f = &founds[i];
        if !f.key.as_str().is_empty() {
            let hit = find_pending(founds, &pending, &f.key);
            match hit {
                Option::Some(j) => {
                    proof {
                        lemma_pending_map_value(fv, pending@, j as int);
                    }
                    let qi = pending[j];
                    let q = &founds[qi];
                    if q.state == f.state {
                        proof {
                            assert(scan_run(fv.take(i + 1)).aborted);
                            lemma_scan_aborted_stays(fv, i + 1);
                        }
                        return Vec::new();
                    }
                    let out = match f.state {
                        FoundState::Added => Output {
                            old_filename: q.filename.clone(),
                            new_filename: f.filename.clone(),
                            origin_line: q.start_position,
                            destination_line: f.start_position,
                            num_lines: f.line_count,
                        },
                        FoundState::Deleted => Output {
                            old_filename: f.filename.clone(),
                            new_filename: q.filename.clone(),
                            origin_line: f.start_position,
                            destination_line: q.start_position,
                            num_lines: f.line_count,
                        },
                    };
                    moves.push(out);
                    proof {
                        lemma_pending_map_remove(fv, pending@, j as int);
                    }
                    let ghost oldp = pending@;
                    pending.remove(j);
                    proof {
                        assert(output_views(moves@) =~= scan_run(fv.take(i + 1)).moves);
                        assert(forall|k: int|
                            0 <= k < pending@.len() ==> pending@[k] == if k < j as int {
                                oldp[k]
                            } else {
                                oldp[k + 1]
                            });
                        assert(pending_ok(fv, pending@));
                        assert(forall|k: int| 0 <= k < pending@.len() ==> (#[trigger] pending@[k]) < i + 1);
                    }
                },
                Option::None => {
                    proof {
                        lemma_pending_map_contains(fv, pending@, fv[i as int].key);
                        assert(!a.pending.contains_key(fv[i as int].key));
                    }
                    let ghost oldp = pending@;
                    pending.push(i);
                    proof {
                        assert(pending@.drop_last() =~= oldp);
                        assert(pending_map(fv, pending@) == pending_map(fv, oldp).insert(
                            fv[i as int].key,
                            fv[i as int],
                        ));
                        assert(pending_map(fv, pending@) =~= scan_run(fv.take(i + 1)).pending);
                    }
                },
            }
        }
        i = i + 1;
    }
    proof {
        assert(fv.take(founds@.len() as int) =~= fv);
    }
    moves
}

/// The total line count of the blocks in state `st`.
pub open spec fn total_lines(fs: Seq<FoundView>, st: FoundState) -> int
    decreases fs.len(),
{
    if fs.len() == 0 {
        0
    } else {
        total_lines(fs.drop_last(), st) + if fs.last().state == st {
            fs.last().line_count
        } else {
            0
        }
    }
}

/// The total line count of a sequence of moves.
pub open spec fn total_moved(ms: Seq<OutputView>) -> int
    decreases ms.len(),
{
    if ms.len() == 0 {
        0
    } else {
        total_moved(ms.drop_last()) + ms.last().num_lines
    }
}

/// A line total net of the lines that moves account for; a moved line is
/// not also counted as an addition or deletion, and the total never goes
/// below zero.
pub open spec fn net_lines(total: int, moved: int) -> int {
    if total >= moved {
        total - moved
    } else {
        0
    }
}

proof fn lemma_sum_counts_nonneg(fs: Seq<FoundView>)
    requires
        forall|k: int| 0 <= k < fs.len() ==> 0 <= (#[trigger] fs[k]).line_count,
    ensures
        0 <= sum_counts(fs),
    decreases fs.len(),
{
    if fs.len() > 0 {
        assert(forall|k: int| 0 <= k < fs.drop_last().len() ==> fs.drop_last()[k] == fs[k]);
        lemma_sum_counts_nonneg(fs.drop_last());
    }
}

proof fn lemma_sum_counts_prefix(fs: Seq<FoundView>, k: int)
    requires
        0 <= k <= fs.len(),
        forall|m: int| 0 <= m < fs.len() ==> 0 <= (#[trigger] fs[m]).line_count,
    ensures
        sum_counts(fs.take(k)) <= sum_counts(fs),
    decreases fs.len(),
{
    if k == fs.len() {
        assert(fs.take(k) =~= fs);
    } else {
        assert(forall|m: int| 0 <= m < fs.drop_last().len() ==> fs.drop_last()[m] == fs[m]);
        assert(fs.take(k) =~= fs.drop_last().take(k));
        lemma_sum_counts_prefix(fs.drop_last(), k);
    }
}

proof fn lemma_total_lines_le_sum(fs: Seq<FoundView>, st: FoundState)
    requires
        forall|k: int| 0 <= k < fs.len() ==> 0 <= (#[trigger] fs[k]).line_count,
    ensures
        0 <= total_lines(fs, st) <= sum_counts(fs),
    decreases fs.len(),
{
    if fs.len() > 0 {
        assert(forall|k: int| 0 <= k < fs.drop_last().len() ==> fs.drop_last()[k] == fs[k]);
        lemma_total_lines_le_sum(fs.drop_last(), st);
    }
}

proof fn lemma_scan_moved(blocks: Seq<FoundView>)
    requires
        forall|k: int| 0 <= k < blocks.len() ==> 0 <= (#[trigger] blocks[k]).line_count,
    ensures
        forall|k: int|
            0 <= k < scan_run(blocks).moves.len() ==> 0 <= (#[trigger] scan_run(
                blocks,
            ).moves[k]).num_lines,
        total_moved(scan_run(blocks).moves) <= sum_counts(blocks),
    decreases blocks.len(),
{
    if blocks.len() > 0 {
        assert(forall|k: int|
            0 <= k < blocks.drop_last().len() ==> blocks.drop_last()[k] == blocks[k]);
        lemma_scan_moved(blocks.drop_last());
        let a = scan_run(blocks.drop_last());
        let b = scan_step(a, blocks.last());
        assert forall|x: OutputView| total_moved(a.moves.push(x)) == total_moved(a.moves)
            + x.num_lines by {
            assert(a.moves.push(x).drop_last() =~= a.moves);
        }
        assert forall|k: int| 0 <= k < b.moves.len() implies 0 <= (
        #[trigger] b.moves[k]).num_lines by {
            if k < a.moves.len() {
                assert(b.moves[k] == a.moves[k]);
            }
        }
        assert(scan_run(blocks) == b);
        assert(total_moved(b.moves) <= sum_counts(blocks));
    }
}

proof fn lemma_total_moved_prefix(ms: Seq<OutputView>, k: int)
    requires
        0 <= k <= ms.len(),
        forall|m: int| 0 <= m < ms.len() ==> 0 <= (#[trigger] ms[m]).num_lines,
    ensures
        total_moved(ms.take(k)) <= total_moved(ms),
        0 <= total_moved(ms.take(k)),
    decreases ms.len(),
{
    if ms.len() == 0 {
        assert(ms.take(k) =~= ms);
    } else if k == ms.len() {
        assert(ms.take(k) =~= ms);
        assert(forall|m: int| 0 <= m < ms.drop_last().len() ==> ms.drop_last()[m] == ms[m]);
        lemma_total_moved_prefix(ms.drop_last(), k - 1);
    } else {
        assert(forall|m: int| 0 <= m < ms.drop_last().len() ==> ms.drop_last()[m] == ms[m]);
        assert(ms.take(k) =~= ms.drop_last().take(k));
        lemma_total_moved_prefix(ms.drop_last(), k);
    }
}

/// The result of comparing one diff: the moves found, and the addition and
/// deletion line totals net of moved lines.
pub struct Comparison {
    /// The detected moves, in discovery order.
    pub moves: Vec<Output>,
    /// Added lines not accounted for by a move.
    pub added_lines: u32,
    /// Deleted lines not accounted for by a move.
    pub deleted_lines: u32,
}

/// Compares the two sides of one diff: extracts the addition and deletion
/// blocks of `lines`, pairs them into moves, and accounts for the remaining
/// added and deleted lines.  A moved line counts neither as an addition nor
/// as a deletion.
pub fn compare(lines: &Vec<DiffLine>) -> (r: Comparison)
    requires
        lines@.len() <= u32::MAX,
    ensures
        ({
            let blocks = extract_spec(line_views(lines@));
            let mvs = find_moves_spec(blocks);
            &&& output_views(r.moves@) == mvs
            &&& r.added_lines as int == net_lines(
                total_lines(blocks, FoundState::Added),
                total_moved(mvs),
            )
            &&& r.deleted_lines as int == net_lines(
                total_lines(blocks, FoundState::Deleted),
                total_moved(mvs),
            )
        }),
{
    let ghost lvs = line_views(lines@);
    let founds = find_additions_and_deletions(lines);
    let ghost blocks = extract_spec(lvs);
    proof {
        crate::extract::lemma_extract_counts(lvs);
        lemma_sum_counts_nonneg(blocks);
    }
    let moves = find_moves(&founds);
    let ghost mvs = find_moves_spec(blocks);
    let mut adds: u32 = 0;
    let mut dels: u32 = 0;
    let mut k: usize = 0;
    proof {
        assert(blocks.take(0) =~= Seq::<FoundView>::empty());
    }
    while k < founds.len()
        invariant
            k <= founds@.len(),
            blocks == found_views(founds@),
            blocks == extract_spec(lvs),
            sum_counts(blocks) <= lvs.len(),
            lvs.len() <= u32::MAX,
            forall|m: int| 0 <= m < blocks.len() ==> 0 <= (#[trigger] blocks[m]).line_count,
            adds as int == total_lines(blocks.take(k as int), FoundState::Added),
            dels as int == total_lines(blocks.take(k as int), FoundState::Deleted),
        decreases founds@.len() - k,
    {
        proof {
            assert(blocks.take(k + 1).drop_last() =~= blocks.take(k as int));
            assert(blocks.take(k + 1).last() == blocks[k as int]);
            assert(forall|m: int|
                0 <= m < blocks.take(k + 1).len() ==> blocks.take(k + 1)[m] == blocks[m]);
            lemma_total_lines_le_sum(blocks.take(k + 1), FoundState::Added);
            lemma_total_lines_le_sum(blocks.take(k + 1), FoundState::Deleted);
            lemma_sum_counts_prefix(blocks, k + 1);
        }
        let f = &founds[k];
        match f.state {
            FoundState::Added => {
                adds = adds + f.line_count;
            },
            FoundState::Deleted => {
                dels = dels + f.line_count;
            },
        }
        k = k + 1;
    }
    proof {
        assert(blocks.take(founds@.len() as int) =~= blocks);
    }
    let mut moved: u32 = 0;
    let mut m: usize = 0;
    proof {
        assert(mvs.take(0) =~= Seq::<OutputView>::empty());
        if scan_run(blocks).aborted {
            assert(mvs =~= Seq::<OutputView>::empty());
        } else {
            lemma_scan_moved(blocks);
        }
        assert(total_moved(mvs) <= sum_counts(blocks));
        assert(forall|j: int| 0 <= j < mvs.len() ==> 0 <= (#[trigger] mvs[j]).num_lines);
    }
    while m < moves.len()
        invariant
            m <= moves@.len(),
            output_views(moves@) == mvs,
            total_moved(mvs) <= sum_counts(blocks),
            sum_counts(blocks) <= lvs.len(),
            lvs.len() <= u32::MAX,
            forall|j: int| 0 <= j < mvs.len() ==> 0 <= (#[trigger] mvs[j]).num_lines,
            moved as int == total_moved(mvs.take(m as int)),
        decreases moves@.len() - m,
    {
        proof {
            assert(mvs.take(m + 1).drop_last() =~= mvs.take(m as int));
            assert(mvs.take(m + 1).last() == mvs[m as int]);
            lemma_total_moved_prefix(mvs, m + 1);
        }
        moved = moved + moves[m].num_lines;
        m = m + 1;
    }
    proof {
        assert(mvs.take(moves@.len() as int) =~= mvs);
    }
    let added_lines = if adds >= moved {
        adds - moved
    } else {
        0
    };
    let deleted_lines = if dels >= moved {
        dels - moved
    } else {
        0
    };
    Comparison { moves, added_lines, deleted_lines }
}

/// The comparison result of one commit pair: the two revision identifiers
/// with their timestamps, the moves found between them, and the net added
/// and deleted line totals.
pub struct OutputSet {
    /// The old revision's identifier.
    pub old: String,
    /// The old revision's timestamp, in seconds from the epoch.
    pub old_time: i64,
    /// The new revision's identifier.
    pub new: String,
    /// The new revision's timestamp, in seconds from the epoch.
    pub new_time: i64,
    /// The moves detected between the two revisions.
    pub outputs: Vec<Output>,
    /// Added lines not accounted for by a move.
    pub added_lines: u32,
    /// Deleted lines not accounted for by a move.
    pub deleted_lines: u32,
}

/// Mathematical model of an [`OutputSet`].
#[verifier::ext_equal]
pub struct OutputSetView {
    pub old: Seq<char>,
    pub old_time: int,
    pub new: Seq<char>,
    pub new_time: int,
    pub outputs: Seq<OutputView>,
    pub added_lines: int,
    pub deleted_lines: int,
}

impl View for OutputSet {
    type V = OutputSetView;

    open spec fn view(&self) -> OutputSetView {
        OutputSetView {
            old: self.old@,
            old_time: self.old_time as int,
            new: self.new@,
            new_time: self.new_time as int,
            outputs: output_views(self.outputs@),
            added_lines: self.added_lines as int,
            deleted_lines: self.deleted_lines as int,
        }
    }
}

/// The comparison result owed for a commit pair with the given identifiers,
/// timestamps and diff lines.
pub open spec fn output_set_spec(
    old: Seq<char>,
    old_time: int,
    new: Seq<char>,
    new_time: int,
    lines: Seq<DiffLineView>,
) -> OutputSetView {
    let blocks = extract_spec(lines);
    let mvs = find_moves_spec(blocks);
    OutputSetView {
        old,
        old_time,
        new,
        new_time,
        outputs: mvs,
        added_lines: net_lines(total_lines(blocks, FoundState::Added), total_moved(mvs)),
        deleted_lines: net_lines(total_lines(blocks, FoundState::Deleted), total_moved(mvs)),
    }
}

/// One commit pair handed in for comparison: the two revision identifiers,
/// their timestamps, and the diff lines between their trees.
pub struct CommitPair {
    /// The old revision's identifier.
    pub old: String,
    /// The old revision's timestamp, in seconds from the epoch.
    pub old_time: i64,
    /// The new revision's identifier.
    pub new: String,
    /// The new revision's timestamp, in seconds from the epoch.
    pub new_time: i64,
    /// The diff lines between the two revisions' trees.
    pub lines: Vec<DiffLine>,
}

/// Mathematical model of a [`CommitPair`].
#[verifier::ext_equal]
pub struct CommitPairView {
    pub old: Seq<char>,
    pub old_time: int,
    pub new: Seq<char>,
    pub new_time: int,
    pub lines: Seq<DiffLineView>,
}

impl View for CommitPair {
    type V = CommitPairView;

    open spec fn view(&self) -> CommitPairView {
        CommitPairView {
            old: self.old@,
            old_time: self.old_time as int,
            new: self.new@,
            new_time: self.new_time as int,
            lines: line_views(self.lines@),
        }
    }
}

/// Compares one commit pair and wraps the result with the pair's
/// identifiers and timestamps.
pub fn compare_commits(pair: &CommitPair) -> (r: OutputSet)
    requires
        pair.lines@.len() <= u32::MAX,
    ensures
        r@ == output_set_spec(pair@.old, pair@.old_time, pair@.new, pair@.new_time, pair@.lines),
{
    let c = compare(&pair.lines);
    let r = OutputSet {
        old: pair.old.clone(),
        old_time: pair.old_time,
        new: pair.new.clone(),
        new_time: pair.new_time,
        outputs: c.moves,
        added_lines: c.added_lines,
        deleted_lines: c.deleted_lines,
    };
    proof {
        assert(r@ =~= output_set_spec(
            pair@.old,
            pair@.old_time,
            pair@.new,
            pair@.new_time,
            pair@.lines,
        ));
    }
    r
}

/// Compares an ordered sequence of commit pairs, returning one result per
/// pair in the input order.
pub fn compare_all(pairs: &Vec<CommitPair>) -> (r: Vec<OutputSet>)
    requires
        forall|k: int| 0 <= k < pairs@.len() ==> (#[trigger] pairs@[k]).lines@.len() <= u32::MAX,
    ensures
        r@.len() == pairs@.len(),
        forall|k: int|
            0 <= k < pairs@.len() ==> (#[trigger] r@[k])@ == output_set_spec(
                pairs@[k]@.old,
                pairs@[k]@.old_time,
                pairs@[k]@.new,
                pairs@[k]@.new_time,
                pairs@[k]@.lines,
            ),
{
    let mut out: Vec<OutputSet> = Vec::new();
    let mut k: usize = 0;
    while k < pairs.len()
        invariant
            k <= pairs@.len(),
            out@.len() == k,
            forall|j: int|
                0 <= j < pairs@.len() ==> (#[trigger] pairs@[j]).lines@.len() <= u32::MAX,
            forall|j: int|
                0 <= j < k ==> (#[trigger] out@[j])@ == output_set_spec(
                    pairs@[j]@.old,
                    pairs@[j]@.old_time,
                    pairs@[j]@.new,
                    pairs@[j]@.new_time,
                    pairs@[j]@.lines,
                ),
        decreases pairs@.len() - k,
    {
        let o = compare_commits(&pairs[k]);
        out.push(o);
        k = k + 1;
    }
    out
}

proof fn lemma_scan_distinct(blocks: Seq<FoundView>)
    requires
        forall|i: int, j: int|
            0 <= i < j < blocks.len() && (#[trigger] blocks[i]).key.len() > 0 ==> blocks[i].key
                != (#[trigger] blocks[j]).key,
    ensures
        ({
            let a = scan_run(blocks);
            &&& !a.aborted
            &&& a.moves == Seq::<OutputView>::empty()
            &&& forall|key: Seq<char>|
                #[trigger] a.pending.contains_key(key) ==> exists|i: int|
                    0 <= i < blocks.len() && (#[trigger] blocks[i]).key == key
        }),
    decreases blocks.len(),
{
    if blocks.len() > 0 {
        assert(forall|k: int|
            0 <= k < blocks.drop_last().len() ==> blocks.drop_last()[k] == blocks[k]);
        lemma_scan_distinct(blocks.drop_last());
        let a = scan_run(blocks.drop_last());
        let b = scan_run(blocks);
        let f = blocks.last();
        if f.key.len() > 0 && a.pending.contains_key(f.key) {
            let i = choose|i: int|
                0 <= i < blocks.drop_last().len() && (#[trigger] blocks.drop_last()[i]).key
                    == f.key;
            assert(blocks[i].key == blocks[blocks.len() - 1].key);
            assert(false);
        }
        assert forall|key: Seq<char>| #[trigger] b.pending.contains_key(key) implies exists|i: int|
            0 <= i < blocks.len() && (#[trigger] blocks[i]).key == key by {
            if f.key.len() > 0 && key == f.key {
                assert(blocks[blocks.len() - 1].key == key);
            } else {
                assert(a.pending.contains_key(key));
                let i = choose|i: int|
                    0 <= i < blocks.drop_last().len() && (#[trigger] blocks.drop_last()[i]).key
                        == key;
                assert(blocks[i].key == key);
            }
        }
    }
}

/// No false move: where no two blocks share a non-empty canonical key, the
/// matcher reports no move at all.
pub proof fn lemma_no_false_move(blocks: Seq<FoundView>)
    requires
        forall|i: int, j: int|
            0 <= i < j < blocks.len() && (#[trigger] blocks[i]).key.len() > 0 ==> blocks[i].key
                != (#[trigger] blocks[j]).key,
    ensures
        find_moves_spec(blocks) == Seq::<OutputView>::empty(),
{
    lemma_scan_distinct(blocks);
}

proof fn lemma_scan_pending_from_blocks(blocks: Seq<FoundView>)
    ensures
        forall|key: Seq<char>|
            #[trigger] scan_run(blocks).pending.contains_key(key) ==> exists|e: int|
                0 <= e < blocks.len() && (#[trigger] blocks[e]).key == key && blocks[e]
                    == scan_run(blocks).pending[key],
    decreases blocks.len(),
{
    if blocks.len() > 0 {
        assert(forall|k: int|
            0 <= k < blocks.drop_last().len() ==> blocks.drop_last()[k] == blocks[k]);
        lemma_scan_pending_from_blocks(blocks.drop_last());
        let a = scan_run(blocks.drop_last());
        let b = scan_run(blocks);
        let f = blocks.last();
        assert forall|key: Seq<char>| #[trigger] b.pending.contains_key(key) implies exists|e: int|
            0 <= e < blocks.len() && (#[trigger] blocks[e]).key == key && blocks[e]
                == b.pending[key] by {
            if !a.aborted && f.key.len() > 0 && !a.pending.contains_key(f.key) && key == f.key {
                assert(blocks[blocks.len() - 1].key == key && blocks[blocks.len() - 1]
                    == b.pending[key]);
            } else {
                assert(a.pending.contains_key(key) && b.pending[key] == a.pending[key]);
                let e = choose|e: int|
                    0 <= e < blocks.drop_last().len() && (#[trigger] blocks.drop_last()[e]).key
                        == key && blocks.drop_last()[e] == a.pending[key];
                assert(blocks[e].key == key && blocks[e] == b.pending[key]);
            }
        }
    }
}

proof fn lemma_ambiguous_pending(blocks: Seq<FoundView>, i: int, m: int)
    requires
        0 <= i < blocks.len(),
        i < m <= blocks.len(),
        blocks[i].key.len() > 0,
        forall|k: int|
            0 <= k < blocks.len() ==> (#[trigger] blocks[k]).key != blocks[i].key || blocks[k].state
                == blocks[i].state,
    ensures
        ({
            let a = scan_run(blocks.take(m));
            a.aborted || (a.pending.contains_key(blocks[i].key) && a.pending[blocks[i].key].state
                == blocks[i].state)
        }),
    decreases m,
{
    let key = blocks[i].key;
    let st = blocks[i].state;
    assert(blocks.take(m).drop_last() =~= blocks.take(m - 1));
    assert(blocks.take(m).last() == blocks[m - 1]);
    if m == i + 1 {
        let a = scan_run(blocks.take(i));
        if !a.aborted {
            if a.pending.contains_key(key) {
                lemma_scan_pending_from_blocks(blocks.take(i));
                let e = choose|e: int|
                    0 <= e < blocks.take(i).len() && (#[trigger] blocks.take(i)[e]).key == key
                        && blocks.take(i)[e] == a.pending[key];
                assert(blocks[e].key == key);
                assert(a.pending[key].state == st);
            }
        }
    } else {
        lemma_ambiguous_pending(blocks, i, m - 1);
        let a = scan_run(blocks.take(m - 1));
        let f = blocks[m - 1];
        if !a.aborted && f.key == key {
            assert(f.state == st);
        }
    }
}

/// Ambiguity aborts the whole comparison: where two same-state blocks share
/// a non-empty canonical key and no opposite-state block carries that key,
/// the matcher returns nothing at all, whatever moves other keys produced.
pub proof fn lemma_ambiguous_abort(blocks: Seq<FoundView>, i: int, j: int)
    requires
        0 <= i < j < blocks.len(),
        blocks[i].key.len() > 0,
        blocks[j].key == blocks[i].key,
        blocks[j].state == blocks[i].state,
        forall|k: int|
            0 <= k < blocks.len() ==> (#[trigger] blocks[k]).key != blocks[i].key || blocks[k].state
                == blocks[i].state,
    ensures
        find_moves_spec(blocks) == Seq::<OutputView>::empty(),
{
    lemma_ambiguous_pending(blocks, i, j);
    assert(blocks.take(j + 1).drop_last() =~= blocks.take(j));
    assert(blocks.take(j + 1).last() == blocks[j]);
    assert(scan_run(blocks.take(j + 1)).aborted);
    lemma_scan_aborted_stays(blocks, j + 1);
}

} // verus!
