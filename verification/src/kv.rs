//! The storage engine: an append-only command log, segmented and grouped
//! into generations, with an in-memory index from key to log position.
//!
//! The engine works on in-memory segment buffers.  Every mutation appends
//! an encoded command to the newest segment and records a matching
//! filesystem action; the surrounding process applies those actions to
//! disk, byte for byte, and on open reads the chosen generation's files
//! back into buffers.  The engine's well-formedness invariant is that
//! replaying its own segments rebuilds exactly its index and uncompacted
//! counter, which is what makes closing and reopening a no-op.

use crate::de::Decode;
use crate::de::Deserializer;
use crate::de::extends;
use crate::de::lemma_sp_command_bounds;
use crate::de::subrange_vec;
use crate::de::lemma_sp_command_frame;
use crate::de::lemma_sp_command_of_encode;
use crate::de::sp_command;
use crate::err::KvsError;
use crate::index::Index;
use crate::index::index_live;
use crate::index::index_staged;
use crate::proto::Command;
use crate::proto::CommandView;
use crate::ser::Encode;
use crate::ser::Serializer;
use crate::ser::spec_dec_digits;
use crate::ser::spec_encode_command;
use vstd::utf8::encode_utf8;
use vstd::prelude::*;

verus! {

/// Compaction runs once at least this many bytes of the current
/// generation are superseded or tombstoned.
pub const COMPACTION_THRESHOLD: u64 = 1024 * 1024;

/// A segment rolls when appending would take it past this many bytes.
pub const BLOCK_THRESHOLD: u64 = 1024 * 1024 * 256;

/// A log entry's position: generation, segment file, byte offset and byte
/// length (the trailing newline included).
#[derive(PartialEq, Eq, Structural, Clone, Copy, Debug, Hash)]
pub struct Position {
    /// The generation whose directory holds the record.
    pub gen: u64,
    /// The segment file within the generation.
    pub file: u64,
    /// The byte offset of the record in the segment.
    pub position: u64,
    /// The byte length of the record, its newline included.
    pub size: u64,
}

/// One filesystem step that the surrounding process must mirror to disk,
/// in order: the engine computes, the process performs the I/O.
#[derive(Debug, PartialEq, Eq)]
pub enum FsAction {
    /// Create the directory of a new generation.
    CreateGen {
        /// The new generation.
        gen: u64,
    },
    /// Delete a whole generation directory: the one before the previous
    /// generation after a compaction, or a new generation's leftover from
    /// a compaction that crashed.  A missing directory is fine.
    RemoveGen {
        /// The stale generation.
        gen: u64,
    },
    /// Create a new, empty segment file.
    NewFile {
        /// The generation the segment belongs to.
        gen: u64,
        /// The segment's number within the generation.
        file: u64,
    },
    /// Append bytes to a segment file, then flush it.
    Append {
        /// The generation the segment belongs to.
        gen: u64,
        /// The segment's number within the generation.
        file: u64,
        /// The bytes to append.
        bytes: Vec<u8>,
    },
}

/// The state that replaying a log rebuilds: the index and the count of
/// dead bytes.
#[verifier::ext_equal]
pub struct ReplayState {
    /// The live key to position mapping.
    pub index: Map<Seq<char>, Position>,
    /// Bytes of superseded or tombstoned records.
    pub uncompacted: u64,
}

/// Addition on the uncompacted counter: it is a scheduling estimate, so
/// it pins at the maximum rather than wrap.
pub open spec fn sat_add(a: u64, b: u64) -> u64 {
    if a + b > u64::MAX {
        u64::MAX
    } else {
        (a + b) as u64
    }
}

/// One command applied to the replay state, as the log's reader and its
/// writer both do it: a set supersedes the previous record of its key, a
/// remove supersedes it and is itself dead weight.
pub open spec fn apply_command(st: ReplayState, c: CommandView, pos: Position) -> ReplayState {
    match c {
        CommandView::Put { key, value } => ReplayState {
            index: st.index.insert(key, pos),
            uncompacted: if st.index.dom().contains(key) {
                sat_add(st.uncompacted, st.index[key].size)
            } else {
                st.uncompacted
            },
        },
        CommandView::Rm { key } => ReplayState {
            index: st.index.remove(key),
            uncompacted: sat_add(
                if st.index.dom().contains(key) {
                    sat_add(st.uncompacted, st.index[key].size)
                } else {
                    st.uncompacted
                },
                pos.size,
            ),
        },
    }
}

/// Replays one segment from offset `off`: each record is one encoded
/// command followed by one newline.  A trailing fragment, or bytes that
/// do not parse, are corruption.
pub open spec fn replay_seg_from(
    st: ReplayState,
    seg: Seq<u8>,
    gen: u64,
    file: u64,
    off: int,
) -> Option<ReplayState>
    decreases seg.len() - off,
{
    if off == seg.len() {
        Option::Some(st)
    } else {
        match sp_command(seg, off) {
            Option::None => Option::None,
            Option::Some((c, j)) => if off < j && j < seg.len() && seg[j] == '\n' as u8 {
                replay_seg_from(
                    apply_command(
                        st,
                        c,
                        Position {
                            gen,
                            file,
                            position: off as u64,
                            size: (j + 1 - off) as u64,
                        },
                    ),
                    seg,
                    gen,
                    file,
                    j + 1,
                )
            } else {
                Option::None
            },
        }
    }
}

/// Replays the segments numbered `k` and up.
pub open spec fn replay_segs_from(
    st: ReplayState,
    segs: Seq<Seq<u8>>,
    gen: u64,
    k: int,
) -> Option<ReplayState>
    decreases segs.len() - k,
{
    if k >= segs.len() {
        Option::Some(st)
    } else {
        match replay_seg_from(st, segs[k], gen, k as u64, 0) {
            Option::None => Option::None,
            Option::Some(st2) => replay_segs_from(st2, segs, gen, k + 1),
        }
    }
}

/// Replays a whole generation: what open reconstructs from its segments.
pub open spec fn spec_replay(segs: Seq<Seq<u8>>, gen: u64) -> Option<ReplayState> {
    replay_segs_from(
        ReplayState { index: Map::empty(), uncompacted: 0 },
        segs,
        gen,
        0,
    )
}

/// What it means for an index entry to point at its record: the bytes at
/// the position parse as a set command for that key, newline-terminated.
pub open spec fn pos_ok(log: Seq<Seq<u8>>, k: Seq<char>, p: Position, gen: u64) -> bool {
    &&& p.gen == gen
    &&& 0 <= p.file < log.len()
    &&& p.size >= 2
    &&& p.position + p.size <= log[p.file as int].len()
    &&& log[p.file as int].len() <= usize::MAX
    &&& match sp_command(log[p.file as int], p.position as int) {
        Option::Some((c, j)) => {
            &&& c matches CommandView::Put { key, value } && key == k
            &&& j == p.position + p.size - 1
            &&& log[p.file as int][j] == '\n' as u8
        },
        Option::None => false,
    }
}

/// The value that the record at `p` holds.
pub open spec fn value_at(log: Seq<Seq<u8>>, p: Position) -> Seq<char> {
    match sp_command(log[p.file as int], p.position as int) {
        Option::Some((CommandView::Put { key, value }, j)) => value,
        _ => Seq::empty(),
    }
}


/// A model of the on-disk segment files: generation and segment number
/// to file bytes.  One filesystem action applied to it, as the
/// surrounding process applies the action to real files.
pub open spec fn apply_fs_action(
    disk: Map<(u64, u64), Seq<u8>>,
    a: FsAction,
) -> Map<(u64, u64), Seq<u8>> {
    match a {
        FsAction::CreateGen { gen } => disk,
        FsAction::RemoveGen { gen } => Map::new(
            |k: (u64, u64)| disk.dom().contains(k) && k.0 != gen,
            |k: (u64, u64)| disk[k],
        ),
        FsAction::NewFile { gen, file } => disk.insert((gen, file), Seq::empty()),
        FsAction::Append { gen, file, bytes } => disk.insert(
            (gen, file),
            (if disk.dom().contains((gen, file)) {
                disk[(gen, file)]
            } else {
                Seq::empty()
            }) + bytes@,
        ),
    }
}

/// A sequence of filesystem actions applied in order.
pub open spec fn apply_fs_actions(
    disk: Map<(u64, u64), Seq<u8>>,
    acts: Seq<FsAction>,
) -> Map<(u64, u64), Seq<u8>>
    decreases acts.len(),
{
    if acts.len() == 0 {
        disk
    } else {
        apply_fs_actions(apply_fs_action(disk, acts[0]), acts.drop_first())
    }
}

/// The disk's files of generation `gen` are exactly the segments of
/// `log`, numbered from zero.
pub open spec fn disk_holds_log(
    disk: Map<(u64, u64), Seq<u8>>,
    gen: u64,
    log: Seq<Seq<u8>>,
) -> bool {
    &&& forall|f: u64| (f as int) < log.len() ==> #[trigger] disk.dom().contains((gen, f))
    &&& forall|f: u64| #[trigger] disk.dom().contains((gen, f)) ==> (f as int) < log.len()
    &&& forall|f: u64| (f as int) < log.len() ==> #[trigger] disk[(gen, f)] == log[f as int]
}

/// Applying `acts` turns any disk whose generation-`g1` files are `l1`
/// into one whose generation-`g2` files are `l2`: what a batch of
/// recorded actions does to the store's persistent state.
pub open spec fn actions_advance(
    acts: Seq<FsAction>,
    g1: u64,
    l1: Seq<Seq<u8>>,
    g2: u64,
    l2: Seq<Seq<u8>>,
) -> bool {
    forall|disk: Map<(u64, u64), Seq<u8>>|
        #[trigger] disk_holds_log(disk, g1, l1) ==> disk_holds_log(
            apply_fs_actions(disk, acts),
            g2,
            l2,
        )
}


/// An empty batch of actions changes nothing.
proof fn lemma_advance_nil(acts: Seq<FsAction>, g: u64, l: Seq<Seq<u8>>)
    requires
        acts == Seq::<FsAction>::empty(),
    ensures
        actions_advance(acts, g, l, g, l),
{
}

/// Applying a single action as a one-element batch.
proof fn lemma_apply_one(disk: Map<(u64, u64), Seq<u8>>, a: FsAction)
    ensures
        apply_fs_actions(disk, seq![a]) == apply_fs_action(disk, a),
{
    assert(seq![a].drop_first() =~= Seq::<FsAction>::empty());
    assert(seq![a][0] == a);
    assert(apply_fs_actions(apply_fs_action(disk, a), Seq::<FsAction>::empty())
        == apply_fs_action(disk, a));
}

/// Applying two actions as a two-element batch.
proof fn lemma_apply_two(disk: Map<(u64, u64), Seq<u8>>, n: FsAction, a: FsAction)
    ensures
        apply_fs_actions(disk, seq![n, a]) == apply_fs_action(apply_fs_action(disk, n), a),
{
    assert(seq![n, a].drop_first() =~= seq![a]);
    assert(seq![n, a][0] == n);
    lemma_apply_one(apply_fs_action(disk, n), a);
}


/// Chains the recorded-actions transfer across one more batch: if the
/// actions so far produce the mid log and the new batch advances the mid
/// log to the new one, the whole delta produces the new log.
proof fn lemma_holds_chain(
    p0len: int,
    pb: Seq<FsAction>,
    pcur: Seq<FsAction>,
    g: u64,
    l_mid: Seq<Seq<u8>>,
    l_new: Seq<Seq<u8>>,
)
    requires
        0 <= p0len <= pb.len(),
        pb.is_prefix_of(pcur),
        forall|disk: Map<(u64, u64), Seq<u8>>|
            disk_holds_log(#[trigger] apply_fs_actions(disk, pb.skip(p0len)), g, l_mid),
        actions_advance(pcur.skip(pb.len() as int), g, l_mid, g, l_new),
    ensures
        forall|disk: Map<(u64, u64), Seq<u8>>|
            disk_holds_log(#[trigger] apply_fs_actions(disk, pcur.skip(p0len)), g, l_new),
{
    assert(pcur.skip(p0len) =~= pb.skip(p0len) + pcur.skip(pb.len() as int));
    assert forall|disk: Map<(u64, u64), Seq<u8>>|
        disk_holds_log(#[trigger] apply_fs_actions(disk, pcur.skip(p0len)), g, l_new) by {
        lemma_apply_fs_actions_concat(disk, pb.skip(p0len), pcur.skip(pb.len() as int));
        assert(disk_holds_log(apply_fs_actions(disk, pb.skip(p0len)), g, l_mid));
    }
}

/// Applying a concatenation is applying the parts in order.
proof fn lemma_apply_fs_actions_concat(
    disk: Map<(u64, u64), Seq<u8>>,
    a: Seq<FsAction>,
    b: Seq<FsAction>,
)
    ensures
        apply_fs_actions(disk, a + b) == apply_fs_actions(apply_fs_actions(disk, a), b),
    decreases a.len(),
{
    if a.len() == 0 {
        assert(a + b =~= b);
    } else {
        assert((a + b)[0] == a[0]);
        assert((a + b).drop_first() =~= a.drop_first() + b);
        lemma_apply_fs_actions_concat(apply_fs_action(disk, a[0]), a.drop_first(), b);
    }
}

/// Advances compose over concatenation.
pub proof fn lemma_actions_advance_concat(
    a: Seq<FsAction>,
    b: Seq<FsAction>,
    g1: u64,
    l1: Seq<Seq<u8>>,
    g2: u64,
    l2: Seq<Seq<u8>>,
    g3: u64,
    l3: Seq<Seq<u8>>,
)
    requires
        actions_advance(a, g1, l1, g2, l2),
        actions_advance(b, g2, l2, g3, l3),
    ensures
        actions_advance(a + b, g1, l1, g3, l3),
{
    assert forall|disk: Map<(u64, u64), Seq<u8>>|
        #[trigger] disk_holds_log(disk, g1, l1) implies disk_holds_log(
        apply_fs_actions(disk, a + b),
        g3,
        l3,
    ) by {
        lemma_apply_fs_actions_concat(disk, a, b);
    }
}

/// Prefixes of a growing action list chain: the whole delta is the two
/// deltas in order.
proof fn lemma_delta_chain(p0: Seq<FsAction>, p1: Seq<FsAction>, p2: Seq<FsAction>)
    requires
        p0.is_prefix_of(p1),
        p1.is_prefix_of(p2),
    ensures
        p0.is_prefix_of(p2),
        p2.skip(p0.len() as int) == p1.skip(p0.len() as int) + p2.skip(p1.len() as int),
{
    assert(p2.skip(p0.len() as int) =~= p1.skip(p0.len() as int) + p2.skip(p1.len() as int));
}

/// Creating a new, empty segment file advances the generation's files by
/// one empty segment.
proof fn lemma_advance_newfile(a: FsAction, g: u64, l: Seq<Seq<u8>>)
    requires
        a matches FsAction::NewFile { gen, file } && gen == g && file == l.len(),
        l.len() <= u64::MAX,
    ensures
        forall|disk: Map<(u64, u64), Seq<u8>>|
            #[trigger] disk_holds_log(disk, g, l) ==> disk_holds_log(
                apply_fs_action(disk, a),
                g,
                l.push(Seq::empty()),
            ),
{
    assert forall|disk: Map<(u64, u64), Seq<u8>>|
        #[trigger] disk_holds_log(disk, g, l) implies disk_holds_log(
        apply_fs_action(disk, a),
        g,
        l.push(Seq::empty()),
    ) by {
        let d2 = apply_fs_action(disk, a);
        let l2 = l.push(Seq::empty());
        assert forall|f: u64| (f as int) < l2.len() implies #[trigger] d2[(g, f)] == l2[
            f as int
        ] by {
            if (f as int) < l.len() {
                assert(disk[(g, f)] == l[f as int]);
            }
        }
    }
}

/// Appending bytes to the last segment file advances that file alone.
proof fn lemma_advance_append(a: FsAction, g: u64, l: Seq<Seq<u8>>, line: Seq<u8>)
    requires
        a matches FsAction::Append { gen, file, bytes } && gen == g && file == l.len() - 1
            && bytes@ == line,
        1 <= l.len() <= u64::MAX,
    ensures
        forall|disk: Map<(u64, u64), Seq<u8>>|
            #[trigger] disk_holds_log(disk, g, l) ==> disk_holds_log(
                apply_fs_action(disk, a),
                g,
                log_plus_line(l, line),
            ),
{
    assert forall|disk: Map<(u64, u64), Seq<u8>>|
        #[trigger] disk_holds_log(disk, g, l) implies disk_holds_log(
        apply_fs_action(disk, a),
        g,
        log_plus_line(l, line),
    ) by {
        let d2 = apply_fs_action(disk, a);
        let l2 = log_plus_line(l, line);
        let last = (l.len() - 1) as u64;
        assert(disk.dom().contains((g, last)));
        assert(disk[(g, last)] == l[l.len() - 1]);
        assert forall|f: u64| (f as int) < l2.len() implies #[trigger] d2[(g, f)] == l2[
            f as int
        ] by {
            if f != last {
                assert(disk[(g, f)] == l[f as int]);
            }
        }
    }
}

/// Deleting a generation other than the one looked at leaves its files
/// alone.
proof fn lemma_advance_removegen_other(a: FsAction, g: u64, l: Seq<Seq<u8>>)
    requires
        a matches FsAction::RemoveGen { gen } && gen != g,
    ensures
        forall|disk: Map<(u64, u64), Seq<u8>>|
            #[trigger] disk_holds_log(disk, g, l) ==> disk_holds_log(
                apply_fs_action(disk, a),
                g,
                l,
            ),
{
}

/// Deleting a generation leaves it with no files at all, whatever the
/// disk held — this is what clears a crashed compaction's leftovers.
proof fn lemma_advance_removegen_clears(a: FsAction, g: u64)
    requires
        a matches FsAction::RemoveGen { gen } && gen == g,
    ensures
        forall|disk: Map<(u64, u64), Seq<u8>>|
            disk_holds_log(#[trigger] apply_fs_action(disk, a), g, Seq::empty()),
{
}

/// The bytes of one log record: the encoded command and its newline.
pub open spec fn record_line(c: CommandView) -> Seq<u8> {
    spec_encode_command(c) + seq!['\n' as u8]
}

/// A log with `line` appended to its last segment.
pub open spec fn log_plus_line(l: Seq<Seq<u8>>, line: Seq<u8>) -> Seq<Seq<u8>> {
    l.update(l.len() - 1, l[l.len() - 1] + line)
}

/// The position at which a record lands when appended to the last
/// segment of `l`.
pub open spec fn record_pos(l: Seq<Seq<u8>>, c: CommandView, gen: u64) -> Position {
    Position {
        gen,
        file: (l.len() - 1) as u64,
        position: l[l.len() - 1].len() as u64,
        size: record_line(c).len() as u64,
    }
}

/// Exactly one encoded record of `c` was appended at `p`: either to the
/// last segment of `l1`, or, when that segment was full, to a freshly
/// rolled one.
pub open spec fn wrote_record(
    l1: Seq<Seq<u8>>,
    l2: Seq<Seq<u8>>,
    c: CommandView,
    p: Position,
    gen: u64,
) -> bool {
    ||| (l2 == log_plus_line(l1, record_line(c)) && p == record_pos(l1, c, gen))
    ||| (l2 == log_plus_line(l1.push(Seq::empty()), record_line(c)) && p == record_pos(
        l1.push(Seq::empty()),
        c,
        gen,
    ))
}

/// One writer step: exactly one record was appended, and
/// the index and the dead-bytes counter moved by the `apply_command`
/// rule — a set supersedes the key's previous record, a remove
/// supersedes it and counts its own tombstone too, nothing else changes.
pub open spec fn writer_step(
    l1: Seq<Seq<u8>>,
    st1: ReplayState,
    l2: Seq<Seq<u8>>,
    st2: ReplayState,
    c: CommandView,
    gen: u64,
) -> bool {
    exists|p: Position| #[trigger] wrote_record(l1, l2, c, p, gen) && st2 == apply_command(
        st1,
        c,
        p,
    )
}

/// Every entry of `m` points at its own set record in `log`.
pub open spec fn index_ok(log: Seq<Seq<u8>>, m: Map<Seq<char>, Position>, gen: u64) -> bool {
    forall|k: Seq<char>| m.dom().contains(k) ==> pos_ok(log, k, #[trigger] m[k], gen)
}

/// Replaying one segment keeps every index entry pointing at a set
/// record for its own key.
proof fn lemma_replay_seg_positions(
    st: ReplayState,
    segs: Seq<Seq<u8>>,
    gen: u64,
    file: int,
    off: int,
)
    requires
        segs.len() <= usize::MAX,
        0 <= file < segs.len(),
        segs[file].len() <= usize::MAX,
        0 <= off <= segs[file].len(),
        index_ok(segs, st.index, gen),
        replay_seg_from(st, segs[file], gen, file as u64, off) is Some,
    ensures
        index_ok(
            segs,
            replay_seg_from(st, segs[file], gen, file as u64, off).unwrap().index,
            gen,
        ),
    decreases segs[file].len() - off,
{
    let seg = segs[file];
    if off == seg.len() {
    } else {
        let (c, j) = sp_command(seg, off).unwrap();
        lemma_sp_command_bounds(seg, off);
        let pos = Position {
            gen,
            file: file as u64,
            position: off as u64,
            size: (j + 1 - off) as u64,
        };
        let st2 = apply_command(st, c, pos);
        match c {
            CommandView::Put { key, value } => {
                assert(pos_ok(segs, key, pos, gen));
                assert(index_ok(segs, st2.index, gen));
            },
            CommandView::Rm { key } => {
                assert(index_ok(segs, st2.index, gen));
            },
        }
        lemma_replay_seg_positions(st2, segs, gen, file, j + 1);
    }
}

/// Replaying the segments from `k` on keeps every index entry pointing
/// at a set record for its own key.
proof fn lemma_replay_segs_positions(st: ReplayState, segs: Seq<Seq<u8>>, gen: u64, k: int)
    requires
        0 <= k,
        segs.len() <= usize::MAX,
        forall|f: int| 0 <= f < segs.len() ==> (#[trigger] segs[f]).len() <= usize::MAX,
        index_ok(segs, st.index, gen),
        replay_segs_from(st, segs, gen, k) is Some,
    ensures
        index_ok(segs, replay_segs_from(st, segs, gen, k).unwrap().index, gen),
    decreases segs.len() - k,
{
    if k >= segs.len() {
    } else {
        lemma_replay_seg_positions(st, segs, gen, k, 0);
        let st2 = replay_seg_from(st, segs[k], gen, k as u64, 0).unwrap();
        lemma_replay_segs_positions(st2, segs, gen, k + 1);
    }
}

/// Whatever a whole replay yields, every index entry points at a set
/// record for its own key.
proof fn lemma_replay_positions(segs: Seq<Seq<u8>>, gen: u64)
    requires
        segs.len() <= usize::MAX,
        forall|f: int| 0 <= f < segs.len() ==> (#[trigger] segs[f]).len() <= usize::MAX,
        spec_replay(segs, gen) is Some,
    ensures
        index_ok(segs, spec_replay(segs, gen).unwrap().index, gen),
{
    let st0 = ReplayState { index: Map::empty(), uncompacted: 0 };
    assert(index_ok(segs, st0.index, gen));
    lemma_replay_segs_positions(st0, segs, gen, 0);
}

/// The encoding of a command is never empty.
proof fn lemma_encode_command_nonempty(c: CommandView)
    ensures
        spec_encode_command(c).len() >= 1,
{
    match c {
        CommandView::Put { key, value } => {
            assert(spec_encode_command(c).len() >= crate::ser::crlf().len());
        },
        CommandView::Rm { key } => {
            assert(spec_encode_command(c).len() >= crate::ser::crlf().len());
        },
    }
}

/// Appending one record line to a segment extends its replay by exactly
/// that command.
#[verifier::rlimit(60)]
#[verifier::spinoff_prover]
proof fn lemma_replay_seg_append(
    st: ReplayState,
    seg: Seq<u8>,
    gen: u64,
    file: u64,
    off: int,
    c: CommandView,
    line: Seq<u8>,
)
    requires
        line == spec_encode_command(c) + seq!['\n' as u8],
        0 <= off <= seg.len(),
        seg.len() + line.len() <= usize::MAX,
        replay_seg_from(st, seg, gen, file, off) is Some,
    ensures
        replay_seg_from(st, seg + line, gen, file, off) == Option::Some(
            apply_command(
                replay_seg_from(st, seg, gen, file, off).unwrap(),
                c,
                Position {
                    gen,
                    file,
                    position: seg.len() as u64,
                    size: line.len() as u64,
                },
            ),
        ),
    decreases seg.len() - off,
{
    let seg2 = seg + line;
    if off == seg.len() {
        let enc = spec_encode_command(c);
        lemma_encode_command_nonempty(c);
        assert(seg2.subrange(off, off + enc.len() as int) =~= enc);
        lemma_sp_command_of_encode(seg2, off, c);
        let j = off + enc.len() as int;
        assert(seg2[j] == line[enc.len() as int]);
        assert(seg2[j] == '\n' as u8);
        let pos = Position {
            gen,
            file,
            position: off as u64,
            size: (j + 1 - off) as u64,
        };
        let st2 = apply_command(st, c, pos);
        assert(j + 1 == seg2.len());
        assert(replay_seg_from(st2, seg2, gen, file, j + 1) == Option::Some(st2));
    } else {
        let (c0, j) = sp_command(seg, off).unwrap();
        lemma_sp_command_bounds(seg, off);
        assert(extends(seg, seg2));
        lemma_sp_command_frame(seg, seg2, off);
        assert(seg2[j] == seg[j]);
        let pos0 = Position {
            gen,
            file,
            position: off as u64,
            size: (j + 1 - off) as u64,
        };
        lemma_replay_seg_append(apply_command(st, c0, pos0), seg, gen, file, j + 1, c, line);
    }
}

/// Appending one record line to the last segment extends the replay of
/// the whole log by exactly that command.
proof fn lemma_replay_segs_append(
    st: ReplayState,
    segs: Seq<Seq<u8>>,
    gen: u64,
    k: int,
    c: CommandView,
    line: Seq<u8>,
)
    requires
        line == spec_encode_command(c) + seq!['\n' as u8],
        segs.len() >= 1,
        segs.len() <= usize::MAX,
        0 <= k <= segs.len() - 1,
        segs[segs.len() - 1].len() + line.len() <= usize::MAX,
        replay_segs_from(st, segs, gen, k) is Some,
    ensures
        replay_segs_from(
            st,
            segs.update(segs.len() - 1, segs[segs.len() - 1] + line),
            gen,
            k,
        ) == Option::Some(
            apply_command(
                replay_segs_from(st, segs, gen, k).unwrap(),
                c,
                Position {
                    gen,
                    file: (segs.len() - 1) as u64,
                    position: segs[segs.len() - 1].len() as u64,
                    size: line.len() as u64,
                },
            ),
        ),
    decreases segs.len() - k,
{
    let last = segs.len() - 1;
    let segs2 = segs.update(last, segs[last] + line);
    if k == last {
        lemma_replay_seg_append(st, segs[last], gen, last as u64, 0, c, line);
        let st2 = replay_seg_from(st, segs2[last], gen, last as u64, 0).unwrap();
        assert(replay_segs_from(st2, segs2, gen, k + 1) == Option::Some(st2));
    } else {
        assert(segs2[k] == segs[k]);
        let st2 = replay_seg_from(st, segs[k], gen, k as u64, 0).unwrap();
        lemma_replay_segs_append(st2, segs, gen, k + 1, c, line);
    }
}

/// The full-log append step: what one set or remove does to the replay.
pub proof fn lemma_replay_append(segs: Seq<Seq<u8>>, gen: u64, c: CommandView, line: Seq<u8>)
    requires
        line == spec_encode_command(c) + seq!['\n' as u8],
        segs.len() >= 1,
        segs.len() <= usize::MAX,
        segs[segs.len() - 1].len() + line.len() <= usize::MAX,
        spec_replay(segs, gen) is Some,
    ensures
        spec_replay(segs.update(segs.len() - 1, segs[segs.len() - 1] + line), gen)
            == Option::Some(
            apply_command(
                spec_replay(segs, gen).unwrap(),
                c,
                Position {
                    gen,
                    file: (segs.len() - 1) as u64,
                    position: segs[segs.len() - 1].len() as u64,
                    size: line.len() as u64,
                },
            ),
        ),
{
    let st0 = ReplayState { index: Map::empty(), uncompacted: 0 };
    lemma_replay_segs_append(st0, segs, gen, 0, c, line);
}

/// Opening a fresh, empty segment does not change what replay yields.
proof fn lemma_replay_segs_push_empty(st: ReplayState, segs: Seq<Seq<u8>>, gen: u64, k: int)
    requires
        0 <= k <= segs.len(),
        replay_segs_from(st, segs, gen, k) is Some,
    ensures
        replay_segs_from(st, segs.push(Seq::empty()), gen, k) == replay_segs_from(
            st,
            segs,
            gen,
            k,
        ),
    decreases segs.len() - k,
{
    let segs2 = segs.push(Seq::empty());
    if k == segs.len() {
        assert(segs2[k].len() == 0);
        assert(replay_seg_from(st, segs2[k], gen, k as u64, 0) == Option::Some(st));
        assert(replay_segs_from(st, segs2, gen, k + 1) == Option::Some(st));
        assert(replay_segs_from(st, segs, gen, k) == Option::Some(st));
    } else {
        assert(segs2[k] == segs[k]);
        let st2 = replay_seg_from(st, segs[k], gen, k as u64, 0).unwrap();
        lemma_replay_segs_push_empty(st2, segs, gen, k + 1);
    }
}

/// The full-log roll step: a new empty segment leaves the replay as it
/// was.
proof fn lemma_replay_push_empty(segs: Seq<Seq<u8>>, gen: u64)
    requires
        spec_replay(segs, gen) is Some,
    ensures
        spec_replay(segs.push(Seq::empty()), gen) == spec_replay(segs, gen),
{
    let st0 = ReplayState { index: Map::empty(), uncompacted: 0 };
    lemma_replay_segs_push_empty(st0, segs, gen, 0);
}

/// True when every segment of `l1` is a prefix of its counterpart in
/// `l2`: nothing already written has changed.
pub open spec fn log_extends(l1: Seq<Seq<u8>>, l2: Seq<Seq<u8>>) -> bool {
    l1.len() <= l2.len() && forall|f: int|
        0 <= f < l1.len() ==> extends(#[trigger] l1[f], l2[f])
}

/// Growing the log never invalidates a record already pointed at, nor
/// changes its value.
proof fn lemma_pos_ok_log_extends(
    l1: Seq<Seq<u8>>,
    l2: Seq<Seq<u8>>,
    k: Seq<char>,
    p: Position,
    gen: u64,
)
    requires
        pos_ok(l1, k, p, gen),
        log_extends(l1, l2),
        l2[p.file as int].len() <= usize::MAX,
    ensures
        pos_ok(l2, k, p, gen),
        value_at(l2, p) == value_at(l1, p),
{
    lemma_sp_command_frame(l1[p.file as int], l2[p.file as int], p.position as int);
}

/// The view of a vector of segment buffers as a sequence of byte
/// sequences.
pub open spec fn log_of(segments: Seq<Vec<u8>>) -> Seq<Seq<u8>> {
    Seq::new(segments.len(), |i: int| segments[i]@)
}

/// The set of keys that a list of key strings holds.
pub open spec fn key_set(keys: Seq<String>) -> Set<Seq<char>> {
    Set::new(|k: Seq<char>| exists|i: int| 0 <= i < keys.len() && (#[trigger] keys[i])@ == k)
}

/// True when `keys` lists exactly the keys of `dom`, each once.
pub open spec fn keys_match(keys: Seq<String>, dom: Set<Seq<char>>) -> bool {
    &&& key_set(keys) == dom
    &&& forall|i: int, j: int| 0 <= i < j < keys.len() ==> keys[i]@ != keys[j]@
}

/// Saturating addition on the uncompacted counter.
fn sat_add_u64(a: u64, b: u64) -> (r: u64)
    ensures
        r == sat_add(a, b),
{
    if a > u64::MAX - b {
        u64::MAX
    } else {
        a + b
    }
}

/// One encoded command record, newline-terminated, ready to append.
fn encode_command_line(c: &Command) -> (r: Vec<u8>)
    ensures
        r@ == spec_encode_command(c@) + seq!['\n' as u8],
{
    let mut s = Serializer::new();
    c.serialize(&mut s);
    let mut v = s.into_bytes();
    v.push('\n' as u8);
    proof {
        assert(v@ =~= spec_encode_command(c@) + seq!['\n' as u8]);
    }
    v
}

/// Removes the entry equal to `key` from a duplicate-free list of keys.
#[verifier::rlimit(80)]
#[verifier::spinoff_prover]
fn remove_key(keys: &mut Vec<String>, key: &String)
    requires
        forall|i: int, j: int|
            0 <= i < j < old(keys)@.len() ==> old(keys)@[i]@ != old(keys)@[j]@,
    ensures
        forall|i: int, j: int|
            0 <= i < j < final(keys)@.len() ==> final(keys)@[i]@ != final(keys)@[j]@,
        key_set(final(keys)@) == key_set(old(keys)@).remove(key@),
{
    let n = keys.len();
    let mut i: usize = 0;
    while i < n
        invariant
            keys@ == old(keys)@,
            n == keys@.len(),
            0 <= i <= n,
            forall|t: int| 0 <= t < i ==> (#[trigger] keys@[t])@ != key@,
            forall|t1: int, t2: int| 0 <= t1 < t2 < keys@.len() ==> keys@[t1]@ != keys@[t2]@,
        decreases n - i,
    {
        if keys[i] == *key {
            let ghost oldk = keys@;
            keys.swap_remove(i);
            proof {
                assert(oldk[i as int]@ == key@);
                assert forall|t: int| 0 <= t < keys@.len() implies (#[trigger] keys@[t])@
                    != key@ by {
                    if t == i as int {
                        assert(keys@[t] == oldk[n - 1]);
                    } else {
                        assert(keys@[t] == oldk[t]);
                    }
                }
                assert(oldk == old(keys)@);
                assert forall|t: int| 0 <= t < keys@.len() implies exists|j: int|
                    0 <= j < old(keys)@.len() && (#[trigger] old(keys)@[j])@ == (
                    #[trigger] keys@[t])@ by {
                    if t == i as int {
                        assert(old(keys)@[n - 1]@ == keys@[t]@);
                    } else {
                        assert(old(keys)@[t]@ == keys@[t]@);
                    }
                }
                assert forall|j: int|
                    0 <= j < old(keys)@.len() && (#[trigger] old(keys)@[j])@ != key@ implies exists|t: int|
                    0 <= t < keys@.len() && (#[trigger] keys@[t])@ == old(keys)@[j]@ by {
                    if j == n - 1 {
                        assert(keys@[i as int] == oldk[n - 1]);
                        assert(keys@[i as int]@ == oldk[j]@);
                    } else if j != i as int {
                        assert(keys@[j] == oldk[j]);
                        assert(keys@[j]@ == oldk[j]@);
                    }
                }
                assert forall|t1: int, t2: int| 0 <= t1 < t2 < keys@.len() implies keys@[t1]@
                    != keys@[t2]@ by {
                    let m1: int = if t1 == i as int { n - 1 } else { t1 };
                    let m2: int = if t2 == i as int { n - 1 } else { t2 };
                    assert(keys@[t1] == oldk[m1]);
                    assert(keys@[t2] == oldk[m2]);
                }
                assert(key_set(keys@) =~= key_set(old(keys)@).remove(key@));
            }
            return ;
        }
        i = i + 1;
    }
    proof {
        assert(!key_set(old(keys)@).contains(key@));
        assert(key_set(keys@) =~= key_set(old(keys)@).remove(key@));
    }
}


/// Applies one command to the index, the key list and the uncompacted
/// counter, exactly as `apply_command` does to the replay state, and
/// publishes the change.
fn apply_record(
    index: &mut Index,
    keys: &mut Vec<String>,
    unc: &mut u64,
    cmd: Command,
    pos: Position,
)
    requires
        index_staged(*old(index)) == index_live(*old(index)),
        keys_match(old(keys)@, index_live(*old(index)).dom()),
    ensures
        index_staged(*final(index)) == index_live(*final(index)),
        keys_match(final(keys)@, index_live(*final(index)).dom()),
        (ReplayState { index: index_live(*final(index)), uncompacted: *final(unc) })
            == apply_command(
            (ReplayState { index: index_live(*old(index)), uncompacted: *old(unc) }),
            cmd@,
            pos,
        ),
{
    match cmd {
        Command::Put { key, value: _ } => {
            let prev = index.get_one(&key);
            match prev {
                Some(p) => {
                    *unc = sat_add_u64(*unc, p.size);
                },
                None => {
                    let ghost oldkeys = keys@;
                    keys.push(key.clone());
                    proof {
                        assert forall|t1: int, t2: int|
                            0 <= t1 < t2 < keys@.len() implies keys@[t1]@ != keys@[t2]@ by {
                            if t2 == keys@.len() - 1 {
                                assert(!key_set(oldkeys).contains(key@));
                                assert(keys@[t1] == oldkeys[t1]);
                            } else {
                                assert(keys@[t1] == oldkeys[t1]);
                                assert(keys@[t2] == oldkeys[t2]);
                            }
                        }
                    }
                },
            }
            index.update(key, pos);
            index.publish();
            proof {
                assert forall|k: Seq<char>|
                    key_set(keys@).contains(k) == index_live(*index).dom().contains(
                    k,
                ) by {
                    if prev is Some {
                        assert(keys@ == old(keys)@);
                        assert(index_live(*index).dom() =~= index_live(*old(index)).dom().insert(
                            key@,
                        ));
                        assert(index_live(*old(index)).dom().contains(key@));
                        assert(index_live(*index).dom() =~= index_live(*old(index)).dom());
                    } else {
                        if index_live(*index).dom().contains(k) {
                            if k == key@ {
                                assert(keys@[keys@.len() - 1]@ == k);
                            } else {
                                assert(key_set(old(keys)@).contains(k));
                                let t = choose|t: int|
                                    0 <= t < old(keys)@.len() && (#[trigger] old(keys)@[t])@
                                        == k;
                                assert(keys@[t]@ == k);
                            }
                        }
                        if key_set(keys@).contains(k) {
                            let t = choose|t: int|
                                0 <= t < keys@.len() && (#[trigger] keys@[t])@ == k;
                            if t < keys@.len() - 1 {
                                assert(old(keys)@[t]@ == k);
                            } else {
                                assert(k == key@);
                            }
                        }
                    }
                }
                assert(key_set(keys@) =~= index_live(*index).dom());
                assert(ReplayState { index: index_live(*index), uncompacted: *unc }
                    =~= apply_command(
                    ReplayState { index: index_live(*old(index)), uncompacted: *old(unc) },
                    cmd@,
                    pos,
                ));
            }
        },
        Command::Rm { key } => {
            let prev = index.get_one(&key);
            match prev {
                Some(p) => {
                    *unc = sat_add_u64(*unc, p.size);
                    remove_key(keys, &key);
                },
                None => {},
            }
            *unc = sat_add_u64(*unc, pos.size);
            index.remove(key);
            index.publish();
            proof {
                assert(key_set(keys@) =~= index_live(*index).dom());
                assert(ReplayState { index: index_live(*index), uncompacted: *unc }
                    =~= apply_command(
                    ReplayState { index: index_live(*old(index)), uncompacted: *old(unc) },
                    cmd@,
                    pos,
                ));
            }
        },
    }
}


/// Replays one record of a segment at `off`: parses it, checks its
/// newline, applies it, and returns the next offset.
fn replay_step(
    seg: &Vec<u8>,
    gen: u64,
    file: u64,
    off: usize,
    index: &mut Index,
    keys: &mut Vec<String>,
    unc: &mut u64,
) -> (r: Result<usize, KvsError>)
    requires
        off < seg@.len(),
        index_staged(*old(index)) == index_live(*old(index)),
        keys_match(old(keys)@, index_live(*old(index)).dom()),
    ensures
        index_staged(*final(index)) == index_live(*final(index)),
        keys_match(final(keys)@, index_live(*final(index)).dom()),
        match r {
            Ok(off2) => off < off2 <= seg@.len() && replay_seg_from(
                (ReplayState { index: index_live(*old(index)), uncompacted: *old(unc) }),
                seg@,
                gen,
                file,
                off as int,
            ) == replay_seg_from(
                (ReplayState { index: index_live(*final(index)), uncompacted: *final(unc) }),
                seg@,
                gen,
                file,
                off2 as int,
            ),
            Err(e) => e is Deserialize && *final(index) == *old(index) && *final(keys) == *old(
                keys,
            ) && *final(unc) == *old(unc) && replay_seg_from(
                (ReplayState { index: index_live(*old(index)), uncompacted: *old(unc) }),
                seg@,
                gen,
                file,
                off as int,
            ) is None,
        },
{
    let ghost st_now = ReplayState { index: index_live(*index), uncompacted: *unc };
    let mut d = Deserializer::from_bytes(seg.as_slice(), off);
    let cmd = match Command::deserialize(&mut d) {
        Err(_) => {
            return Err(KvsError::Deserialize(String::from_str("corrupted log record")));
        },
        Ok(c) => c,
    };
    let j = d.position();
    proof {
        lemma_sp_command_bounds(seg@, off as int);
    }
    if !(j < seg.len()) {
        return Err(KvsError::Deserialize(String::from_str("truncated log record")));
    }
    if seg[j] != '\n' as u8 {
        return Err(KvsError::Deserialize(String::from_str("malformed record boundary")));
    }
    let pos = Position { gen, file, position: off as u64, size: (j - off + 1) as u64 };
    proof {
        assert(replay_seg_from(st_now, seg@, gen, file, off as int) == replay_seg_from(
            apply_command(st_now, cmd@, pos),
            seg@,
            gen,
            file,
            j + 1,
        ));
    }
    apply_record(index, keys, unc, cmd, pos);
    Ok(j + 1)
}

/// The storage engine over one generation of in-memory segments.
///
/// Filesystem work is returned as `FsAction`s through `take_actions`; the
/// surrounding process applies them to disk in order and flushes before
/// acknowledging, which keeps the on-disk generation byte-identical to
/// these buffers.
pub struct KvStore {
    index: Index,
    keys: Vec<String>,
    segments: Vec<Vec<u8>>,
    gen: u64,
    uncompacted: u64,
    pending: Vec<FsAction>,
}

impl View for KvStore {
    type V = Map<Seq<char>, Seq<char>>;

    /// The logical contents: each live key maps to the value of its most
    /// recent set.
    closed spec fn view(&self) -> Map<Seq<char>, Seq<char>> {
        Map::new(
            |k: Seq<char>| index_live(self.index).dom().contains(k),
            |k: Seq<char>| value_at(log_of(self.segments@), index_live(self.index)[k]),
        )
    }
}

impl KvStore {
    /// The current generation's log, as bytes.
    pub closed spec fn log(&self) -> Seq<Seq<u8>> {
        log_of(self.segments@)
    }

    /// The current generation number.
    pub closed spec fn generation(&self) -> u64 {
        self.gen
    }

    /// The index: each live key's position in the log.
    pub closed spec fn index_map(&self) -> Map<Seq<char>, Position> {
        index_live(self.index)
    }

    /// The uncompacted counter.
    pub closed spec fn dead_bytes(&self) -> u64 {
        self.uncompacted
    }

    /// The filesystem actions recorded and not yet handed out.
    pub closed spec fn pending_actions(&self) -> Seq<FsAction> {
        self.pending@
    }

    /// The current generation number, for callers that reopen a store
    /// from the log it wrote.
    pub fn current_generation(&self) -> (g: u64)
        ensures
            g == self.generation(),
    {
        self.gen
    }

    /// Well-formed: the log replays to exactly the in-memory index and
    /// counter, everything staged is published, and the key list mirrors
    /// the index.
    pub closed spec fn wf(&self) -> bool {
        &&& self.segments@.len() >= 1
        &&& self.segments@.len() <= usize::MAX
        &&& forall|f: int|
            0 <= f < self.segments@.len() ==> (#[trigger] self.segments@[f])@.len()
                <= usize::MAX
        &&& spec_replay(self.log(), self.gen) == Option::Some(
            ReplayState { index: index_live(self.index), uncompacted: self.uncompacted },
        )
        &&& index_staged(self.index) == index_live(self.index)
        &&& keys_match(self.keys@, index_live(self.index).dom())
    }

    /// Tears the store down into its segment buffers, as they stand on
    /// disk: what a later `open` replays.
    pub fn into_segments(self) -> (r: Vec<Vec<u8>>)
        ensures
            log_of(r@) == self.log(),
    {
        self.segments
    }

    /// The filesystem actions recorded since the last call: exactly what
    /// was recorded, in order, and nothing is left behind.  The
    /// surrounding process applies them to disk in order and flushes
    /// before acknowledging.
    pub fn take_actions(&mut self) -> (r: Vec<FsAction>)
        requires
            old(self).wf(),
        ensures
            final(self).wf(),
            r@ == old(self).pending_actions(),
            final(self).pending_actions() == Seq::<FsAction>::empty(),
            final(self)@ == old(self)@,
            final(self).log() == old(self).log(),
            final(self).generation() == old(self).generation(),
            final(self).index_map() == old(self).index_map(),
            final(self).dead_bytes() == old(self).dead_bytes(),
    {
        let mut out: Vec<FsAction> = Vec::new();
        core::mem::swap(&mut out, &mut self.pending);
        proof {
            assert(self.pending@ =~= Seq::<FsAction>::empty());
        }
        out
    }

    /// What well-formedness means to a caller: the log is non-empty, it
    /// replays to exactly the index and the dead-bytes counter, and the
    /// contents are the values at the indexed records.
    pub proof fn lemma_wf_facts(&self)
        requires
            self.wf(),
        ensures
            self.log().len() >= 1,
            spec_replay(self.log(), self.generation()) == Option::Some(
                (ReplayState { index: self.index_map(), uncompacted: self.dead_bytes() }),
            ),
            self@ == Map::new(
                |k: Seq<char>| self.index_map().dom().contains(k),
                |k: Seq<char>| value_at(self.log(), self.index_map()[k]),
            ),
    {
        assert(self@ =~= Map::new(
            |k: Seq<char>| self.index_map().dom().contains(k),
            |k: Seq<char>| value_at(self.log(), self.index_map()[k]),
        ));
    }
}

/// The replay outcome when segment `f` has been consumed up to `off` and
/// the state rebuilt so far is `st`.
pub open spec fn replay_rest(
    st: ReplayState,
    lg: Seq<Seq<u8>>,
    gen: u64,
    f: int,
    off: int,
) -> Option<ReplayState> {
    match replay_seg_from(st, lg[f], gen, f as u64, off) {
        Option::None => Option::None,
        Option::Some(st2) => replay_segs_from(st2, lg, gen, f + 1),
    }
}

/// The log that `open` adopts: the segments it was given, or one fresh
/// empty segment for a store with none yet.
pub open spec fn opened_log(segments: Seq<Vec<u8>>) -> Seq<Seq<u8>> {
    if segments.len() == 0 {
        seq![Seq::<u8>::empty()]
    } else {
        log_of(segments)
    }
}


/// Walks every segment in order and replays each record, rebuilding the
/// index, the key list and the uncompacted counter.
fn load_index_from_files(segs: &Vec<Vec<u8>>, gen: u64) -> (r: Result<
    (Index, Vec<String>, u64),
    KvsError,
>)
    requires
        segs@.len() >= 1,
    ensures
        match r {
            Ok((index, keys, unc)) => {
                &&& index_staged(index) == index_live(index)
                &&& keys_match(keys@, index_live(index).dom())
                &&& spec_replay(log_of(segs@), gen) == Option::Some(
                    (ReplayState { index: index_live(index), uncompacted: unc }),
                )
                &&& forall|f: int|
                    0 <= f < segs@.len() ==> (#[trigger] segs@[f])@.len() <= usize::MAX
            },
            Err(e) => e is Deserialize && spec_replay(log_of(segs@), gen) is None,
        },
{
    let ghost lg = log_of(segs@);
    let mut index = Index::new();
    let mut keys: Vec<String> = Vec::new();
    let mut uncompacted: u64 = 0;
    let nsegs = segs.len();
    let mut f: usize = 0;
    proof {
        assert(index_live(index) =~= Map::<Seq<char>, Position>::empty());
        assert(key_set(keys@) =~= index_live(index).dom());
    }
    while f < nsegs
        invariant
            nsegs == segs@.len(),
            lg == log_of(segs@),
            0 <= f <= nsegs,
            forall|t: int| 0 <= t < f ==> (#[trigger] segs@[t])@.len() <= usize::MAX,
            index_staged(index) == index_live(index),
            keys_match(keys@, index_live(index).dom()),
            replay_segs_from(
                (ReplayState { index: index_live(index), uncompacted }),
                lg,
                gen,
                f as int,
            ) == spec_replay(lg, gen),
        decreases nsegs - f,
    {
        let seg_len = segs[f].len();
        let mut off: usize = 0;
        while off < seg_len
            invariant
                nsegs == segs@.len(),
                lg == log_of(segs@),
                0 <= f < nsegs,
                seg_len == lg[f as int].len(),
                0 <= off <= seg_len,
                index_staged(index) == index_live(index),
                keys_match(keys@, index_live(index).dom()),
                replay_rest(
                    (ReplayState { index: index_live(index), uncompacted }),
                    lg,
                    gen,
                    f as int,
                    off as int,
                ) == spec_replay(lg, gen),
            decreases seg_len - off,
        {
            proof {
                assert(lg[f as int] == segs@[f as int]@);
            }
            let next = replay_step(
                &segs[f],
                gen,
                f as u64,
                off,
                &mut index,
                &mut keys,
                &mut uncompacted,
            );
            match next {
                Ok(off2) => {
                    off = off2;
                },
                Err(e) => {
                    proof {
                        assert(replay_rest(
                            (ReplayState { index: index_live(index), uncompacted }),
                            lg,
                            gen,
                            f as int,
                            off as int,
                        ) is None);
                    }
                    return Err(e);
                },
            }
        }
        proof {
            assert(replay_segs_from(
                (ReplayState { index: index_live(index), uncompacted }),
                lg,
                gen,
                f + 1,
            ) == spec_replay(lg, gen));
        }
        f = f + 1;
    }
    proof {
        assert(replay_segs_from(
            (ReplayState { index: index_live(index), uncompacted }),
            lg,
            gen,
            nsegs as int,
        ) == Option::Some(ReplayState { index: index_live(index), uncompacted }));
    }
    Ok((index, keys, uncompacted))
}

impl KvStore {
    /// Opens a store from the segments of its chosen generation, in
    /// segment order, replaying every record to rebuild the index.  A
    /// record that does not parse, or a trailing fragment, is corruption
    /// and fails the open, so that the operator notices.
    pub fn open(segments: Vec<Vec<u8>>, gen: u64) -> (r: Result<KvStore, KvsError>)
        ensures
            match r {
                Ok(s) => {
                    &&& s.wf()
                    &&& s.generation() == gen
                    &&& s.log() == opened_log(segments@)
                    &&& spec_replay(opened_log(segments@), gen) matches Option::Some(st)
                        && s.index_map() == st.index && s.dead_bytes() == st.uncompacted
                    &&& actions_advance(
                        s.pending_actions(),
                        gen,
                        log_of(segments@),
                        gen,
                        s.log(),
                    )
                },
                Err(e) => e is Deserialize && spec_replay(opened_log(segments@), gen) is None,
            },
    {
        let mut segs = segments;
        let mut pending: Vec<FsAction> = Vec::new();
        if segs.len() == 0 {
            segs.push(Vec::new());
            pending.push(FsAction::NewFile { gen, file: 0 });
            proof {
                let nf = pending@[0];
                assert(pending@ =~= seq![nf]);
                lemma_advance_newfile(nf, gen, Seq::<Seq<u8>>::empty());
                assert(log_of(segments@) =~= Seq::<Seq<u8>>::empty());
                assert forall|disk: Map<(u64, u64), Seq<u8>>|
                    #[trigger] disk_holds_log(disk, gen, log_of(segments@)) implies disk_holds_log(
                    apply_fs_actions(disk, pending@),
                    gen,
                    log_of(segs@),
                ) by {
                    lemma_apply_one(disk, nf);
                    assert(log_of(segs@) =~= Seq::<Seq<u8>>::empty().push(Seq::empty()));
                }
            }
        } else {
            proof {
                lemma_advance_nil(pending@, gen, log_of(segs@));
            }
        }
        proof {
            assert(log_of(segs@) =~= opened_log(segments@));
        }
        match load_index_from_files(&segs, gen) {
            Ok((index, keys, uncompacted)) => {
                let store = KvStore { index, keys, segments: segs, gen, uncompacted, pending };
                Ok(store)
            },
            Err(e) => Err(e),
        }
    }
}

/// Growing a log segment-wise preserves every pointed-at record and its
/// value.
proof fn lemma_values_preserved(
    l1: Seq<Seq<u8>>,
    l2: Seq<Seq<u8>>,
    m: Map<Seq<char>, Position>,
    gen: u64,
)
    requires
        index_ok(l1, m, gen),
        log_extends(l1, l2),
        forall|f: int| 0 <= f < l2.len() ==> (#[trigger] l2[f]).len() <= usize::MAX,
    ensures
        index_ok(l2, m, gen),
        forall|k: Seq<char>|
            m.dom().contains(k) ==> value_at(l2, #[trigger] m[k]) == value_at(l1, m[k]),
{
    assert forall|k: Seq<char>| m.dom().contains(k) implies pos_ok(l2, k, #[trigger] m[k], gen)
        && value_at(l2, m[k]) == value_at(l1, m[k]) by {
        lemma_pos_ok_log_extends(l1, l2, k, m[k], gen);
    }
}

impl KvStore {
    /// Looks a key up: the position from the published index, then the
    /// record's value from the segment it points into.
    pub fn get(&self, key: String) -> (r: Result<Option<String>, KvsError>)
        requires
            self.wf(),
        ensures
            r matches Ok(v) && match v {
                Some(s) => self@.dom().contains(key@) && s@ == self@[key@],
                None => !self@.dom().contains(key@),
            },
    {
        match self.index.get_one(&key) {
            None => Ok(None),
            Some(p) => {
                proof {
                    lemma_replay_positions(self.log(), self.gen);
                    assert(pos_ok(self.log(), key@, p, self.gen));
                    assert(self.log()[p.file as int] == self.segments@[p.file as int]@);
                }
                let f = p.file as usize;
                let off = p.position as usize;
                let mut d = Deserializer::from_bytes(self.segments[f].as_slice(), off);
                match Command::deserialize(&mut d) {
                    Ok(Command::Put { key: _, value }) => Ok(Some(value)),
                    _ => {
                        proof {
                            assert(false);
                        }
                        Err(KvsError::UnexpectedCommand)
                    },
                }
            },
        }
    }

}


/// Appending one encoded record line to the last segment: the replay
/// gains exactly that command, nothing already written moves, and the
/// record is readable at its position.
proof fn lemma_append_last(l1: Seq<Seq<u8>>, l2: Seq<Seq<u8>>, gen: u64, c: CommandView, pos: Position)
    requires
        l1.len() >= 1,
        l1.len() <= usize::MAX,
        spec_replay(l1, gen) is Some,
        l2 == l1.update(
            l1.len() - 1,
            l1[l1.len() - 1] + spec_encode_command(c) + seq!['\n' as u8],
        ),
        l1[l1.len() - 1].len() + spec_encode_command(c).len() + 1 <= usize::MAX,
        pos == (Position {
            gen,
            file: (l1.len() - 1) as u64,
            position: l1[l1.len() - 1].len() as u64,
            size: (spec_encode_command(c).len() + 1) as u64,
        }),
    ensures
        spec_replay(l2, gen) == Option::Some(
            apply_command(spec_replay(l1, gen).unwrap(), c, pos),
        ),
        log_extends(l1, l2),
        match c {
            CommandView::Put { key, value } => pos_ok(l2, key, pos, gen) && value_at(l2, pos)
                == value,
            CommandView::Rm { key } => true,
        },
{
    let line = spec_encode_command(c) + seq!['\n' as u8];
    assert(l1[l1.len() - 1] + (spec_encode_command(c) + seq!['\n' as u8]) =~= l1[l1.len() - 1]
        + spec_encode_command(c) + seq!['\n' as u8]);
    lemma_replay_append(l1, gen, c, line);
    assert(log_extends(l1, l2));
    match c {
        CommandView::Put { key, value } => {
            lemma_encode_command_nonempty(c);
            assert(l2[pos.file as int].subrange(
                pos.position as int,
                pos.position + spec_encode_command(c).len(),
            ) =~= spec_encode_command(c));
            lemma_sp_command_of_encode(l2[pos.file as int], pos.position as int, c);
            assert(value_at(l2, pos) == value);
        },
        CommandView::Rm { key } => {},
    }
}

/// Appends one encoded command to the newest segment, rolling to a new
/// segment first when the append would cross the threshold, and records
/// the matching filesystem actions.  Returns the record's position.
#[verifier::rlimit(100)]
#[verifier::spinoff_prover]
fn append_record(
    segs: &mut Vec<Vec<u8>>,
    pending: &mut Vec<FsAction>,
    gen: u64,
    cmd: &Command,
) -> (pos: Position)
    requires
        old(segs)@.len() >= 1,
        old(segs)@.len() <= usize::MAX,
        forall|f: int| 0 <= f < old(segs)@.len() ==> (#[trigger] old(segs)@[f])@.len() <= usize::MAX,
        spec_replay(log_of(old(segs)@), gen) is Some,
    ensures
        final(segs)@.len() >= 1,
        final(segs)@.len() <= usize::MAX,
        forall|f: int|
            0 <= f < final(segs)@.len() ==> (#[trigger] final(segs)@[f])@.len() <= usize::MAX,
        log_extends(log_of(old(segs)@), log_of(final(segs)@)),
        spec_replay(log_of(final(segs)@), gen) == Option::Some(
            apply_command(spec_replay(log_of(old(segs)@), gen).unwrap(), cmd@, pos),
        ),
        pos.gen == gen,
        wrote_record(log_of(old(segs)@), log_of(final(segs)@), cmd@, pos, gen),
        match cmd@ {
            CommandView::Put { key, value } => pos_ok(log_of(final(segs)@), key, pos, gen)
                && value_at(log_of(final(segs)@), pos) == value,
            CommandView::Rm { key } => true,
        },
        old(pending)@.is_prefix_of(final(pending)@),
        forall|i: int|
            old(pending)@.len() <= i < final(pending)@.len()
                ==> ((#[trigger] final(pending)@[i]) is NewFile || final(pending)@[i] is Append),
        actions_advance(
            final(pending)@.skip(old(pending)@.len() as int),
            gen,
            log_of(old(segs)@),
            gen,
            log_of(final(segs)@),
        ),
{
    let ghost p0 = pending@;
    let mut line = encode_command_line(cmd);
    let sz = line.len();
    let last0 = segs.len() - 1;
    let cur_len = segs[last0].len();
    let ghost l0 = log_of(segs@);
    let do_roll = sat_add_u64(cur_len as u64, sz as u64) > BLOCK_THRESHOLD;
    if do_roll {
        let file = segs.len() as u64;
        segs.push(Vec::new());
        pending.push(FsAction::NewFile { gen, file });
        proof {
            assert(log_of(segs@) =~= l0.push(Seq::<u8>::empty()));
            lemma_replay_push_empty(l0, gen);
        }
    }
    let ghost l1 = log_of(segs@);
    let last = segs.len() - 1;
    let off = segs[last].len();
    let bytes = subrange_vec(line.as_slice(), 0, sz);
    proof {
        assert(bytes@ =~= record_line(cmd@));
    }
    pending.push(FsAction::Append { gen, file: last as u64, bytes });
    let mut seg = match segs.pop() {
        Some(seg) => seg,
        None => {
            proof {
                assert(false);
            }
            Vec::new()
        },
    };
    seg.append(&mut line);
    segs.push(seg);
    let pos = Position { gen, file: last as u64, position: off as u64, size: sz as u64 };
    proof {
        let l2 = log_of(segs@);
        assert(l2 =~= l1.update(
            l1.len() - 1,
            l1[l1.len() - 1] + (spec_encode_command(cmd@) + seq!['\n' as u8]),
        ));
        assert(l1[l1.len() - 1] + (spec_encode_command(cmd@) + seq!['\n' as u8]) =~= l1[l1.len()
            - 1] + spec_encode_command(cmd@) + seq!['\n' as u8]);
        lemma_append_last(l1, l2, gen, cmd@, pos);
        assert(log_extends(l0, l2));
        assert(wrote_record(l0, l2, cmd@, pos, gen));
        let a = pending@[pending@.len() - 1];
        lemma_advance_append(a, gen, l1, record_line(cmd@));
        assert(l2 == log_plus_line(l1, record_line(cmd@)));
        if do_roll {
            let n = pending@[pending@.len() - 2];
            let delta = pending@.skip(p0.len() as int);
            assert(delta =~= seq![n, a]);
            assert forall|disk: Map<(u64, u64), Seq<u8>>|
                #[trigger] disk_holds_log(disk, gen, l0) implies disk_holds_log(
                apply_fs_actions(disk, delta),
                gen,
                l2,
            ) by {
                lemma_advance_newfile(n, gen, l0);
                let d1 = apply_fs_action(disk, n);
                assert(disk_holds_log(d1, gen, l1));
                lemma_apply_two(disk, n, a);
                assert(apply_fs_actions(disk, delta) == apply_fs_action(d1, a));
            }
        } else {
            let delta = pending@.skip(p0.len() as int);
            assert(delta =~= seq![a]);
            assert forall|disk: Map<(u64, u64), Seq<u8>>|
                #[trigger] disk_holds_log(disk, gen, l0) implies disk_holds_log(
                apply_fs_actions(disk, delta),
                gen,
                l2,
            ) by {
                lemma_apply_one(disk, a);
                assert(apply_fs_actions(disk, delta) == apply_fs_action(disk, a));
            }
        }
        assert(p0.is_prefix_of(pending@)) by {
            assert(pending@.subrange(0, p0.len() as int) =~= p0);
        }
    }
    pos
}

impl KvStore {
    /// Encodes one command, appends it to the log, updates the index and
    /// publishes: one writer step, with its filesystem actions recorded.
    #[verifier::rlimit(60)]
    #[verifier::spinoff_prover]
    fn write_cmd(&mut self, cmd: Command)
        requires
            old(self).wf(),
        ensures
            final(self).wf(),
            final(self).generation() == old(self).generation(),
            match cmd@ {
                CommandView::Put { key, value } => final(self)@ == old(self)@.insert(key, value),
                CommandView::Rm { key } => final(self)@ == old(self)@.remove(key),
            },
            writer_step(
                old(self).log(),
                (ReplayState {
                    index: old(self).index_map(),
                    uncompacted: old(self).dead_bytes(),
                }),
                final(self).log(),
                (ReplayState {
                    index: final(self).index_map(),
                    uncompacted: final(self).dead_bytes(),
                }),
                cmd@,
                old(self).generation(),
            ),
            old(self).pending_actions().is_prefix_of(final(self).pending_actions()),
            actions_advance(
                final(self).pending_actions().skip(old(self).pending_actions().len() as int),
                old(self).generation(),
                old(self).log(),
                final(self).generation(),
                final(self).log(),
            ),
    {
        let ghost l0 = self.log();
        let ghost m0 = index_live(self.index);
        let pos = append_record(&mut self.segments, &mut self.pending, self.gen, &cmd);
        proof {
            lemma_replay_positions(l0, self.gen);
            lemma_values_preserved(l0, self.log(), m0, self.gen);
        }
        apply_record(&mut self.index, &mut self.keys, &mut self.uncompacted, cmd, pos);
        proof {
            match cmd@ {
                CommandView::Put { key, value } => {
                    assert(self@ =~= old(self)@.insert(key, value));
                },
                CommandView::Rm { key } => {
                    assert(self@ =~= old(self)@.remove(key));
                },
            }
            assert(wrote_record(l0, self.log(), cmd@, pos, self.gen) && (ReplayState {
                index: index_live(self.index),
                uncompacted: self.uncompacted,
            }) == apply_command(
                (ReplayState { index: m0, uncompacted: old(self).dead_bytes() }),
                cmd@,
                pos,
            ));
        }
    }

    /// Sets the value of a string key to a string; an existing value is
    /// overwritten.  The command is persisted before the index is
    /// published, so an acknowledged set survives reopening.  Unless this
    /// call ran a compaction (seen as the generation advancing), it was
    /// one writer step: exactly one encoded record appended, the index
    /// now pointing at it, and the dead bytes grown by the superseded
    /// record's size.
    pub fn set(&mut self, key: String, value: String) -> (r: Result<(), KvsError>)
        requires
            old(self).wf(),
        ensures
            final(self).wf(),
            r is Ok,
            final(self)@ == old(self)@.insert(key@, value@),
            final(self).generation() == old(self).generation() || (final(self).generation()
                == old(self).generation() + 1 && final(self).dead_bytes() == 0),
            final(self).generation() == old(self).generation() ==> writer_step(
                old(self).log(),
                (ReplayState {
                    index: old(self).index_map(),
                    uncompacted: old(self).dead_bytes(),
                }),
                final(self).log(),
                (ReplayState {
                    index: final(self).index_map(),
                    uncompacted: final(self).dead_bytes(),
                }),
                CommandView::Put { key: key@, value: value@ },
                old(self).generation(),
            ),
            old(self).pending_actions().is_prefix_of(final(self).pending_actions()),
            actions_advance(
                final(self).pending_actions().skip(old(self).pending_actions().len() as int),
                old(self).generation(),
                old(self).log(),
                final(self).generation(),
                final(self).log(),
            ),
    {
        let cmd = Command::Put { key, value };
        let ghost pb = self.pending@;
        self.write_cmd(cmd);
        let ghost pm = self.pending@;
        let ghost lm = self.log();
        let ghost gm = self.generation();
        self.try_compact();
        proof {
            lemma_delta_chain(pb, pm, self.pending@);
            lemma_actions_advance_concat(
                pm.skip(pb.len() as int),
                self.pending@.skip(pm.len() as int),
                old(self).generation(),
                old(self).log(),
                gm,
                lm,
                self.generation(),
                self.log(),
            );
        }
        Ok(())
    }

    /// Removes a key; removing an absent key fails with `KeyNotFound`
    /// and changes nothing.  A successful removal, unless this call ran a
    /// compaction, was one writer step: exactly one tombstone record
    /// appended, the key dropped from the index, and the dead bytes grown
    /// by the superseded record's size plus the tombstone's own.
    pub fn remove(&mut self, key: String) -> (r: Result<(), KvsError>)
        requires
            old(self).wf(),
        ensures
            final(self).wf(),
            old(self)@.dom().contains(key@) ==> r is Ok && final(self)@ == old(self)@.remove(
                key@,
            ),
            !old(self)@.dom().contains(key@) ==> (r matches Err(KvsError::KeyNotFound))
                && *final(self) == *old(self),
            final(self).generation() == old(self).generation() || (final(self).generation()
                == old(self).generation() + 1 && final(self).dead_bytes() == 0),
            r is Ok && final(self).generation() == old(self).generation() ==> writer_step(
                old(self).log(),
                (ReplayState {
                    index: old(self).index_map(),
                    uncompacted: old(self).dead_bytes(),
                }),
                final(self).log(),
                (ReplayState {
                    index: final(self).index_map(),
                    uncompacted: final(self).dead_bytes(),
                }),
                CommandView::Rm { key: key@ },
                old(self).generation(),
            ),
            old(self).pending_actions().is_prefix_of(final(self).pending_actions()),
            actions_advance(
                final(self).pending_actions().skip(old(self).pending_actions().len() as int),
                old(self).generation(),
                old(self).log(),
                final(self).generation(),
                final(self).log(),
            ),
    {
        match self.index.get_one(&key) {
            None => {
                proof {
                    assert(self.pending@.skip(self.pending@.len() as int) =~= Seq::<
                        FsAction,
                    >::empty());
                    lemma_advance_nil(
                        self.pending@.skip(self.pending@.len() as int),
                        self.gen,
                        self.log(),
                    );
                    assert(self.pending@.subrange(0, self.pending@.len() as int)
                        =~= self.pending@);
                }
                Err(KvsError::KeyNotFound)
            },
            Some(_) => {
                let cmd = Command::Rm { key };
                let ghost pb = self.pending@;
                self.write_cmd(cmd);
                let ghost pm = self.pending@;
                let ghost lm = self.log();
                let ghost gm = self.generation();
                self.try_compact();
                proof {
                    lemma_delta_chain(pb, pm, self.pending@);
                    lemma_actions_advance_concat(
                        pm.skip(pb.len() as int),
                        self.pending@.skip(pm.len() as int),
                        old(self).generation(),
                        old(self).log(),
                        gm,
                        lm,
                        self.generation(),
                        self.log(),
                    );
                }
                Ok(())
            },
        }
    }

    /// Runs compaction once the dead bytes reach the threshold; below it
    /// nothing changes at all.  The generation counter saturating is the
    /// one (unreachable in practice) case where compaction is skipped.
    fn try_compact(&mut self)
        requires
            old(self).wf(),
        ensures
            final(self).wf(),
            final(self)@ == old(self)@,
            old(self).dead_bytes() < COMPACTION_THRESHOLD ==> *final(self) == *old(self),
            old(self).generation() == u64::MAX ==> *final(self) == *old(self),
            old(self).dead_bytes() >= COMPACTION_THRESHOLD && old(self).generation() < u64::MAX
                ==> final(self).generation() == old(self).generation() + 1
                && final(self).dead_bytes() == 0,
            old(self).pending_actions().is_prefix_of(final(self).pending_actions()),
            actions_advance(
                final(self).pending_actions().skip(old(self).pending_actions().len() as int),
                old(self).generation(),
                old(self).log(),
                final(self).generation(),
                final(self).log(),
            ),
    {
        if self.uncompacted >= COMPACTION_THRESHOLD && self.gen < u64::MAX {
            self.compact();
        } else {
            proof {
                assert(self.pending@.skip(self.pending@.len() as int) =~= Seq::<
                    FsAction,
                >::empty());
                lemma_advance_nil(
                    self.pending@.skip(self.pending@.len() as int),
                    self.gen,
                    self.log(),
                );
                assert(self.pending@.subrange(0, self.pending@.len() as int) =~= self.pending@);
            }
        }
    }
}

/// One more key taken into a prefix adds exactly that key to its set.
proof fn lemma_key_set_take_next(s: Seq<String>, i: int)
    requires
        0 <= i < s.len(),
    ensures
        key_set(s.subrange(0, i + 1)) == key_set(s.subrange(0, i)).insert(s[i]@),
{
    assert forall|k: Seq<char>| key_set(s.subrange(0, i + 1)).contains(k) implies key_set(
        s.subrange(0, i),
    ).insert(s[i]@).contains(k) by {
        let t = choose|t: int| 0 <= t < i + 1 && (#[trigger] s.subrange(0, i + 1)[t])@ == k;
        if t < i {
            assert(s.subrange(0, i)[t]@ == k);
        }
    }
    assert forall|k: Seq<char>| key_set(s.subrange(0, i)).insert(s[i]@).contains(k) implies key_set(
        s.subrange(0, i + 1),
    ).contains(k) by {
        if k == s[i]@ {
            assert(s.subrange(0, i + 1)[i]@ == k);
        } else {
            let t = choose|t: int| 0 <= t < i && (#[trigger] s.subrange(0, i)[t])@ == k;
            assert(s.subrange(0, i + 1)[t]@ == k);
        }
    }
    assert(key_set(s.subrange(0, i + 1)) =~= key_set(s.subrange(0, i)).insert(s[i]@));
}


/// One compaction step: reads the live record of `key` from the old
/// generation, appends a fresh set record for it to the new generation,
/// and indexes it there.  The key must be new to the rebuilt index, so
/// no dead bytes arise.
#[verifier::rlimit(100)]
#[verifier::spinoff_prover]
fn compact_step(
    old_segs: &Vec<Vec<u8>>,
    old_index: &Index,
    key: String,
    new_gen: u64,
    new_segs: &mut Vec<Vec<u8>>,
    pending: &mut Vec<FsAction>,
    index2: &mut Index,
    keys2: &mut Vec<String>,
    unc2: &mut u64,
    Ghost(old_gen): Ghost<u64>,
)
    requires
        old_segs@.len() <= usize::MAX,
        index_live(*old_index).dom().contains(key@),
        pos_ok(log_of(old_segs@), key@, index_live(*old_index)[key@], old_gen),
        old(new_segs)@.len() >= 1,
        old(new_segs)@.len() <= usize::MAX,
        forall|f: int|
            0 <= f < old(new_segs)@.len() ==> (#[trigger] old(new_segs)@[f])@.len()
                <= usize::MAX,
        index_staged(*old(index2)) == index_live(*old(index2)),
        keys_match(old(keys2)@, index_live(*old(index2)).dom()),
        spec_replay(log_of(old(new_segs)@), new_gen) == Option::Some(
            (ReplayState { index: index_live(*old(index2)), uncompacted: *old(unc2) }),
        ),
        *old(unc2) == 0,
        !index_live(*old(index2)).dom().contains(key@),
    ensures
        final(new_segs)@.len() >= 1,
        final(new_segs)@.len() <= usize::MAX,
        forall|f: int|
            0 <= f < final(new_segs)@.len() ==> (#[trigger] final(new_segs)@[f])@.len()
                <= usize::MAX,
        index_staged(*final(index2)) == index_live(*final(index2)),
        keys_match(final(keys2)@, index_live(*final(index2)).dom()),
        spec_replay(log_of(final(new_segs)@), new_gen) == Option::Some(
            (ReplayState { index: index_live(*final(index2)), uncompacted: *final(unc2) }),
        ),
        *final(unc2) == 0,
        index_live(*final(index2)).dom() == index_live(*old(index2)).dom().insert(key@),
        forall|k: Seq<char>|
            #[trigger] index_live(*final(index2)).dom().contains(k) ==> value_at(
                log_of(final(new_segs)@),
                index_live(*final(index2))[k],
            ) == (if k == key@ {
                value_at(log_of(old_segs@), index_live(*old_index)[key@])
            } else {
                value_at(log_of(old(new_segs)@), index_live(*old(index2))[k])
            }) && (k != key@ ==> index_live(*old(index2)).dom().contains(k)),
        old(pending)@.is_prefix_of(final(pending)@),
        actions_advance(
            final(pending)@.skip(old(pending)@.len() as int),
            new_gen,
            log_of(old(new_segs)@),
            new_gen,
            log_of(final(new_segs)@),
        ),
        forall|i: int|
            old(pending)@.len() <= i < final(pending)@.len()
                ==> ((#[trigger] final(pending)@[i]) is NewFile || final(pending)@[i] is Append),
{
    let ghost nl0 = log_of(new_segs@);
    let ghost m2 = index_live(*index2);
    let p = match old_index.get_one(&key) {
        Some(p) => p,
        None => {
            proof {
                assert(false);
            }
            Position { gen: 0, file: 0, position: 0, size: 0 }
        },
    };
    proof {
        assert(log_of(old_segs@)[p.file as int] == old_segs@[p.file as int]@);
    }
    let f = p.file as usize;
    let off = p.position as usize;
    let mut d = Deserializer::from_bytes(old_segs[f].as_slice(), off);
    let value = match Command::deserialize(&mut d) {
        Ok(Command::Put { key: _, value }) => value,
        _ => {
            proof {
                assert(false);
            }
            String::new()
        },
    };
    proof {
        assert(value@ == value_at(log_of(old_segs@), index_live(*old_index)[key@]));
    }
    let cmd = Command::Put { key, value };
    let pos = append_record(new_segs, pending, new_gen, &cmd);
    proof {
        lemma_replay_positions(nl0, new_gen);
        lemma_values_preserved(nl0, log_of(new_segs@), m2, new_gen);
    }
    apply_record(index2, keys2, unc2, cmd, pos);
}

impl KvStore {
    /// Compaction preserves the store's contents: it removes whatever a
    /// crashed earlier attempt left of the next generation, rewrites each
    /// live key's record into it afresh, publishes the rebuilt index —
    /// the same mapping, with no dead bytes left — and only then, as the
    /// last recorded action, schedules the deletion of the generation
    /// before the previous one.  The previous generation stays on disk,
    /// so a crash at any point leaves one complete generation to reopen
    /// from.
    #[verifier::rlimit(100)]
    #[verifier::spinoff_prover]
    pub fn compact(&mut self)
        requires
            old(self).wf(),
            old(self).generation() < u64::MAX,
        ensures
            final(self).wf(),
            final(self)@ == old(self)@,
            final(self).generation() == old(self).generation() + 1,
            final(self).dead_bytes() == 0,
            old(self).pending_actions().is_prefix_of(final(self).pending_actions()),
            actions_advance(
                final(self).pending_actions().skip(old(self).pending_actions().len() as int),
                old(self).generation(),
                old(self).log(),
                final(self).generation(),
                final(self).log(),
            ),
            ({
                let delta = final(self).pending_actions().skip(
                    old(self).pending_actions().len() as int,
                );
                forall|i: int|
                    0 <= i < delta.len() ==> ((#[trigger] delta[i]) matches FsAction::RemoveGen {
                        gen: rg,
                    } ==> rg == final(self).generation() || (i == delta.len() - 1 && rg + 2
                        == final(self).generation()))
            }),
    {
        let ghost p0 = self.pending@;
        let new_gen = self.gen + 1;
        self.pending.push(FsAction::RemoveGen { gen: new_gen });
        self.pending.push(FsAction::CreateGen { gen: new_gen });
        self.pending.push(FsAction::NewFile { gen: new_gen, file: 0 });
        let mut new_segs: Vec<Vec<u8>> = Vec::new();
        new_segs.push(Vec::new());
        let mut index2 = Index::new();
        let mut keys2: Vec<String> = Vec::new();
        let mut unc2: u64 = 0;
        let ghost m0 = index_live(self.index);
        let ghost l0 = self.log();
        proof {
            let r = self.pending@[p0.len() as int];
            let c = self.pending@[p0.len() as int + 1];
            let nf = self.pending@[p0.len() as int + 2];
            let delta = self.pending@.skip(p0.len() as int);
            assert(delta =~= seq![r, c, nf]);
            assert forall|disk: Map<(u64, u64), Seq<u8>>|
                disk_holds_log(
                    #[trigger] apply_fs_actions(disk, self.pending@.skip(p0.len() as int)),
                    new_gen,
                    log_of(new_segs@),
                ) by {
                lemma_advance_removegen_clears(r, new_gen);
                let d1 = apply_fs_action(disk, r);
                assert(disk_holds_log(d1, new_gen, Seq::<Seq<u8>>::empty()));
                let d2 = apply_fs_action(d1, c);
                assert(d2 == d1);
                lemma_advance_newfile(nf, new_gen, Seq::<Seq<u8>>::empty());
                let d3 = apply_fs_action(d2, nf);
                assert(disk_holds_log(d3, new_gen, Seq::<Seq<u8>>::empty().push(Seq::empty())));
                assert(log_of(new_segs@) =~= Seq::<Seq<u8>>::empty().push(Seq::empty()));
                assert(apply_fs_actions(disk, delta) == d3) by {
                    assert(delta.drop_first() =~= seq![c, nf]);
                    lemma_apply_two(d1, c, nf);
                }
            }
            assert(p0.is_prefix_of(self.pending@)) by {
                assert(self.pending@.subrange(0, p0.len() as int) =~= p0);
            }
        }
        proof {
            assert(index_live(index2) =~= Map::<Seq<char>, Position>::empty());
            assert(key_set(keys2@) =~= index_live(index2).dom());
            assert(log_of(new_segs@) =~= seq![Seq::<u8>::empty()]);
            let st0 = ReplayState { index: index_live(index2), uncompacted: 0 };
            assert(replay_seg_from(st0, log_of(new_segs@)[0], new_gen, 0, 0) == Option::Some(
                st0,
            ));
            assert(replay_segs_from(st0, log_of(new_segs@), new_gen, 1) == Option::Some(st0));
            assert(spec_replay(log_of(new_segs@), new_gen) == Option::Some(st0));
            lemma_replay_positions(l0, self.gen);
            assert(index_live(index2).dom() =~= key_set(self.keys@.subrange(0, 0)));
        }
        let n = self.keys.len();
        let mut i: usize = 0;
        while i < n
            invariant
                self.wf(),
                n == self.keys@.len(),
                0 <= i <= n,
                m0 == index_live(self.index),
                l0 == self.log(),
                index_ok(l0, m0, self.generation()),
                new_gen == self.generation() + 1,
                self.generation() == old(self).generation(),
                self.segments == old(self).segments,
                self.index == old(self).index,
                self.keys == old(self).keys,
                self.uncompacted == old(self).uncompacted,
                new_segs@.len() >= 1,
                new_segs@.len() <= usize::MAX,
                forall|f: int|
                    0 <= f < new_segs@.len() ==> (#[trigger] new_segs@[f])@.len() <= usize::MAX,
                index_staged(index2) == index_live(index2),
                keys_match(keys2@, index_live(index2).dom()),
                spec_replay(log_of(new_segs@), new_gen) == Option::Some(
                    ReplayState { index: index_live(index2), uncompacted: unc2 },
                ),
                unc2 == 0,
                index_live(index2).dom() == key_set(self.keys@.subrange(0, i as int)),
                forall|k: Seq<char>|
                    #[trigger] index_live(index2).dom().contains(k) ==> m0.dom().contains(k)
                        && value_at(log_of(new_segs@), index_live(index2)[k]) == value_at(
                        l0,
                        m0[k],
                    ),
                p0.is_prefix_of(self.pending@),
                forall|disk: Map<(u64, u64), Seq<u8>>|
                    disk_holds_log(
                        #[trigger] apply_fs_actions(disk, self.pending@.skip(p0.len() as int)),
                        new_gen,
                        log_of(new_segs@),
                    ),
                forall|i2: int|
                    p0.len() <= i2 < self.pending@.len() ==> ((#[trigger] self.pending@[i2])
                        matches FsAction::RemoveGen { gen: rg } ==> rg == new_gen),
            decreases n - i,
        {
            let key = self.keys[i].clone();
            proof {
                assert(key_set(self.keys@).contains(key@));
                assert(m0.dom().contains(key@));
                assert(pos_ok(l0, key@, m0[key@], self.generation()));
                assert forall|t: int| 0 <= t < i implies (#[trigger] self.keys@.subrange(
                    0,
                    i as int,
                )[t])@ != self.keys@[i as int]@ by {
                    assert(self.keys@.subrange(0, i as int)[t] == self.keys@[t]);
                }
                assert(!index_live(index2).dom().contains(self.keys@[i as int]@));
            }
            let ghost pb = self.pending@;
            let ghost nl0 = log_of(new_segs@);
            let ghost m2 = index_live(index2);
            compact_step(
                &self.segments,
                &self.index,
                key,
                new_gen,
                &mut new_segs,
                &mut self.pending,
                &mut index2,
                &mut keys2,
                &mut unc2,
                Ghost(self.gen),
            );
            proof {
                lemma_delta_chain(p0, pb, self.pending@);
                lemma_holds_chain(
                    p0.len() as int,
                    pb,
                    self.pending@,
                    new_gen,
                    nl0,
                    log_of(new_segs@),
                );
                assert forall|i2: int|
                    p0.len() <= i2 < self.pending@.len() implies ((#[trigger] self.pending@[i2])
                    matches FsAction::RemoveGen { gen: rg } ==> rg == new_gen) by {
                    if i2 < pb.len() {
                        assert(self.pending@.subrange(0, pb.len() as int)[i2]
                            == self.pending@[i2]);
                        assert(pb[i2] == self.pending@[i2]);
                    }
                }
                lemma_key_set_take_next(self.keys@, i as int);
            }
            i = i + 1;
        }
        proof {
            assert(self.keys@.subrange(0, n as int) =~= self.keys@);
            assert(index_live(index2).dom() == m0.dom());
        }
        self.segments = new_segs;
        self.gen = new_gen;
        self.uncompacted = unc2;
        self.index = index2;
        self.keys = keys2;
        let ghost pl = self.pending@;
        if new_gen >= 2 {
            self.pending.push(FsAction::RemoveGen { gen: new_gen - 2 });
            proof {
                let rm2 = self.pending@[self.pending@.len() - 1];
                lemma_delta_chain(p0, pl, self.pending@);
                assert(self.pending@.skip(pl.len() as int) =~= seq![rm2]);
                assert forall|disk: Map<(u64, u64), Seq<u8>>|
                    disk_holds_log(
                        #[trigger] apply_fs_actions(disk, self.pending@.skip(p0.len() as int)),
                        new_gen,
                        self.log(),
                    ) by {
                    lemma_apply_fs_actions_concat(disk, pl.skip(p0.len() as int), seq![rm2]);
                    lemma_apply_one(apply_fs_actions(disk, pl.skip(p0.len() as int)), rm2);
                    lemma_advance_removegen_other(rm2, new_gen, self.log());
                    assert(disk_holds_log(
                        apply_fs_actions(disk, pl.skip(p0.len() as int)),
                        new_gen,
                        self.log(),
                    ));
                }
            }
        }
        proof {
            assert(self@ =~= old(self)@);
            assert(p0 == old(self).pending_actions());
            let delta = self.pending@.skip(p0.len() as int);
            assert forall|i: int|
                0 <= i < delta.len() implies ((#[trigger] delta[i])
                matches FsAction::RemoveGen { gen: rg } ==> rg == new_gen || (i == delta.len()
                - 1 && rg + 2 == new_gen)) by {
                assert(delta[i] == self.pending@[p0.len() + i]);
            }
        }
    }
}

/// Persistence, and idempotent open: two well-formed stores over the
/// same log and generation hold the same index, the same uncompacted
/// counter and the same contents.  Replay is a function of the log, so
/// closing a store and reopening it from the bytes it wrote — once, or
/// any number of times — yields the state it had, and every acknowledged
/// mutation (flushed to the log before its acknowledgement) is still
/// there.
pub proof fn lemma_log_determines_state(a: &KvStore, b: &KvStore)
    requires
        a.wf(),
        b.wf(),
        a.log() == b.log(),
        a.generation() == b.generation(),
    ensures
        a.index_map() == b.index_map(),
        a.dead_bytes() == b.dead_bytes(),
        a@ == b@,
{
    assert(a@ =~= b@);
}

/// Read-your-writes, at the level of the store contents that `set`,
/// `remove` and `get` are specified against: after a set the key is
/// live with the written value, and after a remove it is absent.
pub proof fn lemma_read_your_writes(
    m: Map<Seq<char>, Seq<char>>,
    k: Seq<char>,
    v: Seq<char>,
)
    ensures
        m.insert(k, v).dom().contains(k),
        m.insert(k, v)[k] == v,
        !m.remove(k).dom().contains(k),
{
}

/// Overwrite: of two sets to one key, the later one wins, and no other
/// key moves.
pub proof fn lemma_overwrite(
    m: Map<Seq<char>, Seq<char>>,
    k: Seq<char>,
    v1: Seq<char>,
    v2: Seq<char>,
)
    ensures
        m.insert(k, v1).insert(k, v2) == m.insert(k, v2),
{
    assert(m.insert(k, v1).insert(k, v2) =~= m.insert(k, v2));
}

/// Chooses the generation to open among the generation numbers found on
/// disk.  One generation is the steady state; two mean the last
/// compaction finished and the older is garbage; three or more mean a
/// compaction crashed mid-way, so the newest is partial and the one
/// before it is the newest complete one.  With none, a fresh store
/// starts at generation zero.
pub fn select_generation(gens: &Vec<u64>) -> (g: u64)
    requires
        forall|i: int, j: int| 0 <= i < j < gens@.len() ==> gens@[i] != gens@[j],
    ensures
        gens@.len() == 0 ==> g == 0,
        gens@.len() == 1 ==> g == gens@[0],
        gens@.len() >= 1 ==> exists|i: int| 0 <= i < gens@.len() && gens@[i] == g,
        gens@.len() == 2 ==> forall|i: int| 0 <= i < gens@.len() ==> gens@[i] <= g,
        gens@.len() >= 3 ==> exists|i: int|
            0 <= i < gens@.len() && gens@[i] > g && forall|j: int|
                0 <= j < gens@.len() && gens@[j] != gens@[i] ==> gens@[j] <= g,
{
    let n = gens.len();
    if n == 0 {
        return 0;
    }
    if n == 1 {
        return gens[0];
    }
    let mut best: u64 = if gens[0] >= gens[1] {
        gens[0]
    } else {
        gens[1]
    };
    let mut second: u64 = if gens[0] >= gens[1] {
        gens[1]
    } else {
        gens[0]
    };
    let ghost bi: int = if gens@[0] >= gens@[1] { 0 } else { 1 };
    let ghost si: int = if gens@[0] >= gens@[1] { 1 } else { 0 };
    let mut i: usize = 2;
    while i < n
        invariant
            2 <= i <= n,
            n == gens@.len(),
            forall|t1: int, t2: int| 0 <= t1 < t2 < gens@.len() ==> gens@[t1] != gens@[t2],
            0 <= bi < i,
            0 <= si < i,
            bi != si,
            gens@[bi] == best,
            gens@[si] == second,
            second < best,
            forall|t: int| 0 <= t < i && t != bi ==> gens@[t] <= second,
        decreases n - i,
    {
        let x = gens[i];
        if x > best {
            second = best;
            proof {
                si = bi;
                bi = i as int;
            }
            best = x;
        } else if x > second {
            second = x;
            proof {
                si = i as int;
            }
        }
        i = i + 1;
    }
    if n == 2 {
        best
    } else {
        proof {
            assert(gens@[bi] > second);
            assert forall|j: int|
                0 <= j < gens@.len() && gens@[j] != gens@[bi] implies gens@[j] <= second by {
                if j != bi {
                }
            }
        }
        second
    }
}

/// The bytes of the generation-directory prefix `gen_`.
pub open spec fn lit_gen_prefix() -> Seq<u8> {
    seq!['g' as u8, 'e' as u8, 'n' as u8, '_' as u8]
}

/// The bytes of the segment-file suffix `.log`.
pub open spec fn lit_log_suffix() -> Seq<u8> {
    seq!['.' as u8, 'l' as u8, 'o' as u8, 'g' as u8]
}

/// Appends the decimal digits of a 64-bit number.
fn push_dec_u64(out: &mut Vec<u8>, n: u64)
    ensures
        final(out)@ == old(out)@ + spec_dec_digits(n as nat),
    decreases n,
{
    if n < 10 {
        out.push(48 + (n as u8));
        proof {
            assert(final(out)@ =~= old(out)@ + spec_dec_digits(n as nat));
        }
    } else {
        push_dec_u64(out, n / 10);
        out.push(48 + ((n % 10) as u8));
        proof {
            assert(final(out)@ =~= old(out)@ + spec_dec_digits(n as nat));
        }
    }
}

/// Turns an ASCII byte buffer into text.
fn ascii_to_string(v: Vec<u8>) -> (r: String)
    requires
        forall|k: int| 0 <= k < v@.len() ==> v@[k] < 128,
    ensures
        encode_utf8(r@) == v@,
{
    proof {
        crate::ser::lemma_ascii_seq_valid_utf8(v@);
    }
    match crate::de::bytes_to_string(v.as_slice()) {
        Some(s) => {
            proof {
                vstd::utf8::decode_utf8_encode_utf8(v@);
            }
            s
        },
        None => {
            proof {
                assert(false);
            }
            String::new()
        },
    }
}

/// The directory name of a generation: `gen_<g>`.
pub fn get_store_dir_by(gen: u64) -> (r: String)
    ensures
        encode_utf8(r@) == lit_gen_prefix() + spec_dec_digits(gen as nat),
{
    let mut v: Vec<u8> = Vec::new();
    v.push('g' as u8);
    v.push('e' as u8);
    v.push('n' as u8);
    v.push('_' as u8);
    push_dec_u64(&mut v, gen);
    proof {
        assert(v@ =~= lit_gen_prefix() + spec_dec_digits(gen as nat));
        crate::ser::lemma_dec_digits_ascii(gen as nat);
    }
    ascii_to_string(v)
}

/// The path of a segment file relative to the store: `gen_<g>/<n>.log`.
pub fn get_file_path(gen: u64, file: u64) -> (r: String)
    ensures
        encode_utf8(r@) == lit_gen_prefix() + spec_dec_digits(gen as nat) + seq!['/' as u8]
            + spec_dec_digits(file as nat) + lit_log_suffix(),
{
    let mut v: Vec<u8> = Vec::new();
    v.push('g' as u8);
    v.push('e' as u8);
    v.push('n' as u8);
    v.push('_' as u8);
    push_dec_u64(&mut v, gen);
    v.push('/' as u8);
    push_dec_u64(&mut v, file);
    v.push('.' as u8);
    v.push('l' as u8);
    v.push('o' as u8);
    v.push('g' as u8);
    proof {
        assert(v@ =~= lit_gen_prefix() + spec_dec_digits(gen as nat) + seq!['/' as u8]
            + spec_dec_digits(file as nat) + lit_log_suffix());
        crate::ser::lemma_dec_digits_ascii(gen as nat);
        crate::ser::lemma_dec_digits_ascii(file as nat);
    }
    ascii_to_string(v)
}

} // verus!
