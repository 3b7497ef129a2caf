//! The log-structured store: in-memory segments mirrored to disk by the
//! caller, an index from live keys to record locations, and the replay
//! that rebuilds the index from segment text.
//!
//! The store's abstract state is a map from keys to values.  It is defined
//! as the replay of the ghost record log, and the well-formedness invariant
//! ties the concrete segment text and the index to that log, so that what
//! `get` reads back from a segment is always the value the map holds.

use vstd::prelude::*;
use crate::command::{CommandModel, KvsCommand};
use crate::record::{
    concat_enc, enc_command, lemma_concat_enc_push, lemma_concat_enc_skip_at,
    lemma_parse_command_complete, lemma_parse_command_sound, lemma_parse_log_complete,
    lemma_parse_log_stuck, off_of, parse_command, parse_log,
};
use crate::stream::{decode_command_at, encode_command_chars};
use crate::text::string_to_chars;
use crate::text::push_all;
use crate::KvsError;

verus! {

/// Where the live value of a key is stored: segment, byte offset within
/// the segment, and the record's logical timestamp.
#[derive(Clone, Copy)]
pub struct KvsEntry {
    file_index: u32,
    timestamp: u128,
    offset: u64,
}

impl KvsEntry {
    /// The index of the segment holding the record.
    pub closed spec fn idx(self) -> u32 {
        self.file_index
    }

    /// The record's logical timestamp.
    pub closed spec fn ts(self) -> u128 {
        self.timestamp
    }

    /// The offset of the record within its segment.
    pub closed spec fn off(self) -> u64 {
        self.offset
    }

    /// Builds an index entry.
    pub fn new(file_index: u32, timestamp: u128, offset: u64) -> (r: KvsEntry)
        ensures
            r.idx() == file_index,
            r.ts() == timestamp,
            r.off() == offset,
    {
        KvsEntry { file_index, timestamp, offset }
    }

    /// The entry's logical timestamp.
    pub fn get_timestamp(&self) -> (r: u128)
        ensures
            r == self.ts(),
    {
        self.timestamp
    }
}

/// A replay candidate: the latest record seen so far for one key.
pub struct Cand {
    pub seg: int,
    pub off: int,
    pub ts: u128,
    pub live: Option<Seq<char>>,
}

/// The candidate a record gives rise to.
pub open spec fn cand_of(c: CommandModel, seg: int, off: int) -> Cand {
    Cand { seg, off, ts: c.ts(), live: c.live() }
}

/// Merges one record into the candidate map: the record wins when its
/// timestamp is at least the current candidate's, so that among equal
/// timestamps the record encountered later wins.
pub open spec fn step(m: Map<Seq<char>, Cand>, seg: int, off: int, c: CommandModel) -> Map<
    Seq<char>,
    Cand,
> {
    if !m.contains_key(c.key()) || m[c.key()].ts <= c.ts() {
        m.insert(c.key(), cand_of(c, seg, off))
    } else {
        m
    }
}

/// Replays the records of one segment, in order, starting at `off`.
pub open spec fn replay_seg(
    m: Map<Seq<char>, Cand>,
    seg: int,
    cmds: Seq<CommandModel>,
    off: int,
) -> Map<Seq<char>, Cand>
    decreases cmds.len(),
{
    if cmds.len() == 0 {
        m
    } else {
        replay_seg(
            step(m, seg, off, cmds[0]),
            seg,
            cmds.drop_first(),
            off + enc_command(cmds[0]).len(),
        )
    }
}

/// Replays the segments from index `i` on, in order.
pub open spec fn replay_all(
    m: Map<Seq<char>, Cand>,
    logs: Seq<Seq<CommandModel>>,
    i: int,
) -> Map<Seq<char>, Cand>
    decreases logs.len() - i,
{
    if i < 0 || i >= logs.len() {
        m
    } else {
        replay_all(replay_seg(m, i, logs[i], 0), logs, i + 1)
    }
}

/// The candidate map of a whole log.
pub open spec fn cands(logs: Seq<Seq<CommandModel>>) -> Map<Seq<char>, Cand> {
    replay_all(Map::empty(), logs, 0)
}

/// The key-value map that a candidate map denotes: keys whose winning
/// record is an assignment, each mapped to the assigned value.
pub open spec fn live_map(m: Map<Seq<char>, Cand>) -> Map<Seq<char>, Seq<char>> {
    Map::<Seq<char>, Seq<char>>::new(
        |k: Seq<char>| m.contains_key(k) && m[k].live is Some,
        |k: Seq<char>| m[k].live->0,
    )
}

/// The candidate points at a real `Set` record carrying exactly the key,
/// the live value and the timestamp.
pub open spec fn points_at(logs: Seq<Seq<CommandModel>>, k: Seq<char>, c: Cand) -> bool {
    &&& 0 <= c.seg < logs.len()
    &&& c.live is Some
    &&& exists|rj: int|
        0 <= rj < logs[c.seg].len() && c.off == off_of(logs[c.seg], rj) && logs[c.seg][rj]
            == (CommandModel::SetCmd { key: k, value: c.live->0, ts: c.ts })
}

/// The state that replaying the given segment text yields, or `None` when
/// some segment does not decode.
pub open spec fn replay_views(segs: Seq<Seq<char>>) -> Option<Map<Seq<char>, Seq<char>>> {
    if forall|i: int| 0 <= i < segs.len() ==> (#[trigger] parse_log(segs[i])) is Some {
        Some(live_map(cands(Seq::new(segs.len(), |i: int| parse_log(segs[i])->0))))
    } else {
        None
    }
}

/// Appending a record to the end of a segment replays as one more `step`.
pub proof fn lemma_replay_seg_push(
    m: Map<Seq<char>, Cand>,
    seg: int,
    cmds: Seq<CommandModel>,
    c: CommandModel,
    off: int,
)
    ensures
        replay_seg(m, seg, cmds.push(c), off) == step(
            replay_seg(m, seg, cmds, off),
            seg,
            off + concat_enc(cmds).len() as int,
            c,
        ),
    decreases cmds.len(),
{
    if cmds.len() == 0 {
        assert(cmds.push(c).drop_first() =~= Seq::<CommandModel>::empty());
        assert(cmds.push(c)[0] == c);
        assert(concat_enc(Seq::<CommandModel>::empty()) == Seq::<char>::empty());
        assert(replay_seg(
            step(m, seg, off, c),
            seg,
            Seq::<CommandModel>::empty(),
            off + enc_command(c).len(),
        ) == step(m, seg, off, c));
    } else {
        assert(cmds.push(c)[0] == cmds[0]);
        assert(cmds.push(c).drop_first() =~= cmds.drop_first().push(c));
        lemma_replay_seg_push(
            step(m, seg, off, cmds[0]),
            seg,
            cmds.drop_first(),
            c,
            off + enc_command(cmds[0]).len(),
        );
    }
}

/// Appending a record to the last segment replays as one more `step`.
pub proof fn lemma_replay_all_upd(
    m: Map<Seq<char>, Cand>,
    logs: Seq<Seq<CommandModel>>,
    i: int,
    c: CommandModel,
)
    requires
        0 <= i <= logs.len() - 1,
    ensures
        replay_all(m, logs.update(logs.len() - 1, logs.last().push(c)), i) == step(
            replay_all(m, logs, i),
            logs.len() - 1,
            concat_enc(logs.last()).len() as int,
            c,
        ),
    decreases logs.len() - i,
{
    let last = logs.len() - 1;
    let logs2 = logs.update(last, logs.last().push(c));
    assert(logs2.len() == logs.len());
    if i == last {
        assert(logs2[last] == logs.last().push(c));
        assert(logs.last() == logs[last]);
        lemma_replay_seg_push(m, last, logs[last], c, 0);
        assert(replay_all(replay_seg(m, last, logs2[last], 0), logs2, last + 1) == replay_seg(
            m,
            last,
            logs2[last],
            0,
        ));
        assert(replay_all(replay_seg(m, last, logs[last], 0), logs, last + 1) == replay_seg(
            m,
            last,
            logs[last],
            0,
        ));
    } else {
        assert(logs2[i] == logs[i]);
        lemma_replay_all_upd(replay_seg(m, i, logs[i], 0), logs, i + 1, c);
    }
}

/// A new empty segment changes nothing in the replay.
pub proof fn lemma_replay_all_snoc_empty(
    m: Map<Seq<char>, Cand>,
    logs: Seq<Seq<CommandModel>>,
    i: int,
)
    requires
        0 <= i,
    ensures
        replay_all(m, logs.push(Seq::<CommandModel>::empty()), i) == replay_all(m, logs, i),
    decreases logs.len() + 1 - i,
{
    let logs2 = logs.push(Seq::<CommandModel>::empty());
    if i >= logs2.len() {
    } else if i == logs.len() {
        assert(logs2[i] =~= Seq::<CommandModel>::empty());
        assert(replay_seg(m, i, Seq::<CommandModel>::empty(), 0) == m);
        assert(replay_all(m, logs2, i + 1) == m);
    } else {
        assert(logs2[i] == logs[i]);
        lemma_replay_all_snoc_empty(replay_seg(m, i, logs[i], 0), logs, i + 1);
    }
}

/// One index entry agrees with the candidate map and points at its record.
spec fn entry_ok(
    logs: Seq<Seq<CommandModel>>,
    m: Map<Seq<char>, Cand>,
    ent: (String, KvsEntry),
) -> bool {
    let k = ent.0@;
    let e = ent.1;
    &&& m.contains_key(k)
    &&& m[k].live is Some
    &&& e.idx() as int == m[k].seg
    &&& e.off() as int == m[k].off
    &&& e.ts() == m[k].ts
    &&& points_at(logs, k, m[k])
}

/// The log-structured key-value store.
///
/// Segments are held as text; the caller appends `take_pending` to the
/// active segment file after each mutation and hands every segment's text
/// back to `open` on restart.
pub struct KvStore {
    segments: Vec<Vec<char>>,
    index: Vec<(String, KvsEntry)>,
    cur_offset: u64,
    cur_index: u32,
    clock: u128,
    pending: Vec<char>,
    logs: Ghost<Seq<Seq<CommandModel>>>,
}

impl View for KvStore {
    type V = Map<Seq<char>, Seq<char>>;

    /// The store's abstract state: its key-value map.
    closed spec fn view(&self) -> Map<Seq<char>, Seq<char>> {
        live_map(cands(self.logs@))
    }
}

impl KvStore {
    /// The text of each segment, in segment order.
    pub closed spec fn log_views(self) -> Seq<Seq<char>> {
        Seq::new(self.segments@.len(), |i: int| self.segments@[i]@)
    }

    /// The logical clock: strictly above every timestamp already replayed
    /// or written, except when the timestamp space is exhausted.
    pub closed spec fn clock(self) -> u128 {
        self.clock
    }

    /// The text appended since the last `take_pending`.
    pub closed spec fn pending_text(self) -> Seq<char> {
        self.pending@
    }

    /// Well-formedness: segments are record text, the index mirrors the
    /// replay of that text, and the clock bounds every timestamp.
    pub closed spec fn wf(self) -> bool {
        let logs = self.logs@;
        let m = cands(logs);
        &&& self.segments@.len() == logs.len()
        &&& logs.len() >= 1
        &&& forall|i: int| 0 <= i < logs.len() ==> #[trigger] self.segments@[i]@ == concat_enc(
            logs[i],
        )
        &&& self.cur_index as int == logs.len() - 1
        &&& self.cur_offset as int == self.segments@.last()@.len()
        &&& forall|k: Seq<char>| #[trigger] m.contains_key(k) ==> m[k].ts <= self.clock
        &&& forall|j: int|
            0 <= j < self.index@.len() ==> #[trigger] entry_ok(logs, m, self.index@[j])
        &&& forall|j1: int, j2: int|
            #![trigger self.index@[j1], self.index@[j2]]
            0 <= j1 < j2 < self.index@.len() ==> self.index@[j1].0@ != self.index@[j2].0@
        &&& forall|k: Seq<char>|
            m.contains_key(k) && (#[trigger] m[k].live) is Some ==> exists|j: int|
                0 <= j < self.index@.len() && (#[trigger] self.index@[j]).0@ == k
    }
}


/// Finds the position of `key` in the index, if any.
fn find_index(index: &Vec<(String, KvsEntry)>, key: &String) -> (r: Option<usize>)
    ensures
        match r {
            Some(j) => j < index@.len() && index@[j as int].0@ == key@,
            None => forall|j: int| 0 <= j < index@.len() ==> (#[trigger] index@[j]).0@ != key@,
        },
{
    let mut j: usize = 0;
    while j < index.len()
        invariant
            j <= index@.len(),
            forall|t: int| 0 <= t < j ==> (#[trigger] index@[t]).0@ != key@,
        decreases index@.len() - j,
    {
        if key.eq(&index[j].0) {
            return Some(j);
        }
        j = j + 1;
    }
    None
}

impl KvStore {
    /// Looks a key up.
    ///
    /// The value is read back from the log: the index entry gives the
    /// record's location, and the record there is decoded.  A key without
    /// a value yields `Ok(None)`; the call never fails.
    pub fn get(&mut self, key: String) -> (r: Result<Option<String>, KvsError>)
        requires
            old(self).wf(),
        ensures
            *final(self) == *old(self),
            match r {
                Ok(v) => match v {
                    Some(x) => old(self)@.contains_key(key@) && x@ == old(self)@[key@],
                    None => !old(self)@.contains_key(key@),
                },
                Err(_) => false,
            },
    {
        let ghost logs = self.logs@;
        let ghost m = cands(logs);
        match find_index(&self.index, &key) {
            None => {
                proof {
                    if old(self)@.contains_key(key@) {
                        assert(m.contains_key(key@) && m[key@].live is Some);
                        let j = choose|j: int|
                            0 <= j < self.index@.len() && (#[trigger] self.index@[j]).0@ == key@;
                        assert(false);
                    }
                }
                Ok(None)
            },
            Some(j) => {
                let e = self.index[j].1;
                proof {
                    assert(entry_ok(logs, m, self.index@[j as int]));
                }
                let ghost c = m[key@];
                let fi = e.file_index as usize;
                proof {
                    assert(0 <= c.seg < logs.len());
                    let rj = choose|rj: int|
                        0 <= rj < logs[c.seg].len() && c.off == off_of(logs[c.seg], rj)
                            && logs[c.seg][rj] == (CommandModel::SetCmd {
                            key: key@,
                            value: c.live->0,
                            ts: c.ts,
                        });
                    lemma_concat_enc_skip_at(logs[c.seg], rj);
                    lemma_parse_command_complete(
                        CommandModel::SetCmd { key: key@, value: c.live->0, ts: c.ts },
                        concat_enc(logs[c.seg].skip(rj + 1)),
                    );
                    assert(self.segments@[c.seg]@ == concat_enc(logs[c.seg]));
                }
                let seg_len = self.segments[fi].len();
                proof {
                    assert(seg_len == self.segments@[c.seg]@.len());
                    assert(c.off < seg_len as int);
                }
                let off = e.offset as usize;
                let ghost rec = (CommandModel::SetCmd { key: key@, value: c.live->0, ts: c.ts });
                proof {
                    assert(off as int == c.off);
                    assert(parse_command(self.segments@[c.seg]@.skip(c.off)) == Some(
                        (rec, enc_command(rec).len() as int),
                    ));
                }
                match decode_command_at(&self.segments[fi], off) {
                    Some((cmd, _n)) => {
                        match cmd {
                            KvsCommand::SetCmd(_k, v, _t) => {
                                proof {
                                    assert(old(self)@[key@] == c.live->0);
                                }
                                Ok(Some(v))
                            },
                            KvsCommand::Rm(_k, _t) => {
                                proof {
                                    assert(false);
                                }
                                Err(KvsError::Protocol("index points at a non-Set record".to_owned()))
                            },
                        }
                    },
                    None => {
                        proof {
                            assert(false);
                        }
                        Err(KvsError::Protocol("index points at undecodable text".to_owned()))
                    },
                }
            },
        }
    }

    /// Hands over the text appended since the last call, leaving nothing
    /// pending.  The caller appends it to the active segment file and
    /// flushes before acknowledging the mutation that produced it.
    pub fn take_pending(&mut self) -> (r: String)
        requires
            old(self).wf(),
        ensures
            final(self).wf(),
            r@ == old(self).pending_text(),
            final(self).pending_text() == Seq::<char>::empty(),
            final(self)@ == old(self)@,
            final(self).log_views() == old(self).log_views(),
            final(self).clock() == old(self).clock(),
    {
        let r = crate::text::chars_into_string(&self.pending);
        self.pending = Vec::new();
        proof {
            assert(self.segments == old(self).segments);
            assert(self.index == old(self).index);
            assert(self.logs == old(self).logs);
            assert(self.clock == old(self).clock);
            assert(self.wf());
        }
        r
    }

    /// Whether another mutation may be recorded: the logical clock has
    /// room for one more timestamp.
    pub fn can_mutate(&self) -> (r: bool)
        ensures
            r == (self.clock() < u128::MAX),
    {
        self.clock < u128::MAX
    }
}


/// Replaces the entry for `key`, or appends one; positions of other
/// entries do not move.
fn upsert(index: &mut Vec<(String, KvsEntry)>, key: String, entry: KvsEntry)
    requires
        forall|j1: int, j2: int|
            #![trigger old(index)@[j1], old(index)@[j2]]
            0 <= j1 < j2 < old(index)@.len() ==> old(index)@[j1].0@ != old(index)@[j2].0@,
    ensures
        old(index)@.len() <= final(index)@.len() <= old(index)@.len() + 1,
        forall|j: int|
            0 <= j < old(index)@.len() && (#[trigger] old(index)@[j]).0@ != key@
                ==> final(index)@[j] == old(index)@[j],
        forall|j: int|
            0 <= j < final(index)@.len() && (#[trigger] final(index)@[j]).0@ == key@
                ==> final(index)@[j] == (key, entry),
        exists|j: int| 0 <= j < final(index)@.len() && (#[trigger] final(index)@[j]).0@ == key@,
        forall|j: int|
            old(index)@.len() <= j < final(index)@.len() ==> (#[trigger] final(index)@[j]) == (
            key,
            entry,
            ),
        forall|j: int|
            0 <= j < old(index)@.len() && (#[trigger] old(index)@[j]).0@ == key@
                ==> final(index)@[j] == (key, entry),
        forall|j1: int, j2: int|
            #![trigger final(index)@[j1], final(index)@[j2]]
            0 <= j1 < j2 < final(index)@.len() ==> final(index)@[j1].0@ != final(index)@[j2].0@,
{
    match find_index(index, &key) {
        Some(j) => {
            let ghost jf = j as int;
            index[j] = (key, entry);
            proof {
                assert(index@[jf] == (key, entry));
                assert(index@[jf].0@ == key@);
                assert forall|t: int|
                    0 <= t < old(index)@.len() && (#[trigger] old(index)@[t]).0@ == key@ implies
                    index@[t] == (key, entry) by {
                    if t != jf {
                        assert(old(index)@[t].0@ != old(index)@[jf].0@);
                    }
                }
            }
        },
        None => {
            index.push((key, entry));
            proof {
                let jn = old(index)@.len() as int;
                assert(index@[jn] == (key, entry));
                assert(index@[jn].0@ == key@);
            }
        },
    }
}

impl KvStore {
    /// Records an assignment: appends a `Set` record to the active segment
    /// and points the index at it.
    ///
    /// The clock must not be exhausted; each mutation advances it by one.
    pub fn set(&mut self, key: String, value: String) -> (r: Result<(), KvsError>)
        requires
            old(self).wf(),
            old(self).clock() < u128::MAX,
        ensures
            final(self).wf(),
            r is Ok,
            final(self)@ == old(self)@.insert(key@, value@),
            final(self).clock() == old(self).clock() + 1,
            final(self).log_views() == old(self).log_views().update(
                old(self).log_views().len() - 1,
                old(self).log_views().last() + enc_command(
                    CommandModel::SetCmd { key: key@, value: value@, ts: old(self).clock() },
                ),
            ),
            final(self).pending_text() == old(self).pending_text() + enc_command(
                CommandModel::SetCmd { key: key@, value: value@, ts: old(self).clock() },
            ),
    {
        let ghost logs0 = self.logs@;
        let ghost m0 = cands(logs0);
        let ts = self.clock;
        let ghost model = CommandModel::SetCmd { key: key@, value: value@, ts: ts };
        let cmd = KvsCommand::set(key.clone(), value.clone(), ts);
        let buf = encode_command_chars(&cmd);
        let off_before = self.cur_offset;
        let mut seg = self.segments.pop().unwrap();
        let ghost seg0 = seg@;
        push_all(&mut seg, &buf);
        let new_len = seg.len();
        self.segments.push(seg);
        self.cur_offset = new_len as u64;
        let ghost last = logs0.len() - 1;
        let ghost logs1 = logs0.update(last, logs0[last].push(model));
        self.logs = Ghost(logs1);
        let entry = KvsEntry::new(self.cur_index, ts, off_before);
        upsert(&mut self.index, key, entry);
        push_all(&mut self.pending, &buf);
        self.clock = ts + 1;
        proof {
            let m1 = cands(logs1);
            let off = concat_enc(logs0[last]).len() as int;
            assert(old(self).segments@[last]@ == concat_enc(logs0[last]));
            assert(seg0 == old(self).segments@.last()@);
            assert(off == off_before as int);
            lemma_replay_all_upd(Map::empty(), logs0, 0, model);
            if m0.contains_key(key@) {
                assert(m0[key@].ts <= ts);
            }
            assert(m1 == m0.insert(key@, cand_of(model, last, off)));
            assert(self.segments@.len() == old(self).segments@.len());
            assert(forall|i: int|
                0 <= i < last ==> self.segments@[i] == #[trigger] old(self).segments@[i]);
            assert(self.segments@[last]@ == seg0 + buf@);
            lemma_concat_enc_push(logs0[last], model);
            assert forall|i: int| 0 <= i < logs1.len() implies #[trigger] self.segments@[i]@
                == concat_enc(logs1[i]) by {
                if i == last {
                    assert(logs1[last] == logs0[last].push(model));
                    assert(self.segments@[last]@ == seg0 + buf@);
                } else {
                    assert(self.segments@[i]@ == old(self).segments@[i]@);
                    assert(logs1[i] == logs0[i]);
                }
            }
            assert forall|k: Seq<char>| #[trigger] m1.contains_key(k) implies m1[k].ts
                <= self.clock by {
                if k != key@ {
                    assert(m0.contains_key(k));
                }
            }
            let newcand = cand_of(model, last, off);
            assert(points_at(logs1, key@, newcand)) by {
                let rj = logs0[last].len() as int;
                assert(logs1[last] == logs0[last].push(model));
                assert(logs1[last].take(rj) =~= logs0[last]);
                assert(off_of(logs1[last], rj) == off);
                assert(logs1[last][rj] == model);
            }
            assert(logs0.last() == logs0[last]);
            lemma_points_at_push_last(logs0, logs1, model);
            assert forall|j: int| 0 <= j < self.index@.len() implies #[trigger] entry_ok(
                logs1,
                m1,
                self.index@[j],
            ) by {
                let ent = self.index@[j];
                if ent.0@ == key@ {
                    assert(ent.1 == entry);
                    assert(m1[key@] == newcand);
                } else {
                    assert(j < old(self).index@.len()) by {
                        if j >= old(self).index@.len() {
                            assert(self.index@[j] == (key, entry));
                        }
                    }
                    assert(old(self).index@[j].0@ != key@) by {
                        if old(self).index@[j].0@ == key@ {
                            assert(self.index@[j] == (key, entry));
                        }
                    }
                    assert(ent == old(self).index@[j]);
                    assert(entry_ok(logs0, m0, ent));
                    assert(m1[ent.0@] == m0[ent.0@]);
                    assert(points_at(logs1, ent.0@, m1[ent.0@]));
                }
            }
            assert forall|k: Seq<char>|
                m1.contains_key(k) && (#[trigger] m1[k].live) is Some implies exists|j: int|
                    0 <= j < self.index@.len() && (#[trigger] self.index@[j]).0@ == k by {
                if k == key@ {
                    let j = choose|j: int|
                        0 <= j < self.index@.len() && (#[trigger] self.index@[j]).0@ == key@;
                } else {
                    assert(m0.contains_key(k) && m0[k].live is Some);
                    let j = choose|j: int|
                        0 <= j < old(self).index@.len() && (#[trigger] old(self).index@[j]).0@
                            == k;
                    assert(old(self).index@[j].0@ != key@);
                    assert(self.index@[j] == old(self).index@[j]);
                }
            }
            assert(final(self)@ =~= old(self)@.insert(key@, value@)) by {
                assert(live_map(m1) =~= live_map(m0).insert(key@, value@));
            }
            assert(final(self).log_views() =~= old(self).log_views().update(
                old(self).log_views().len() - 1,
                old(self).log_views().last() + enc_command(model),
            ));
        }
        Ok(())
    }
}


impl KvStore {
    /// Deletes a key: appends a tombstone record and drops the index
    /// entry.  Removing an absent key fails with `KeyNotFound` and leaves
    /// the store untouched, without any append.
    pub fn remove(&mut self, key: String) -> (r: Result<(), KvsError>)
        requires
            old(self).wf(),
            old(self).clock() < u128::MAX,
        ensures
            final(self).wf(),
            match r {
                Ok(_) => {
                    &&& old(self)@.contains_key(key@)
                    &&& final(self)@ == old(self)@.remove(key@)
                    &&& final(self).clock() == old(self).clock() + 1
                    &&& final(self).log_views() == old(self).log_views().update(
                        old(self).log_views().len() - 1,
                        old(self).log_views().last() + enc_command(
                            CommandModel::Rm { key: key@, ts: old(self).clock() },
                        ),
                    )
                    &&& final(self).pending_text() == old(self).pending_text() + enc_command(
                        CommandModel::Rm { key: key@, ts: old(self).clock() },
                    )
                },
                Err(e) => {
                    &&& e is KeyNotFound
                    &&& !old(self)@.contains_key(key@)
                    &&& *final(self) == *old(self)
                },
            },
    {
        let ghost logs0 = self.logs@;
        let ghost m0 = cands(logs0);
        let found = find_index(&self.index, &key);
        match found {
            None => {
                proof {
                    if old(self)@.contains_key(key@) {
                        assert(m0.contains_key(key@) && m0[key@].live is Some);
                        let j = choose|j: int|
                            0 <= j < self.index@.len() && (#[trigger] self.index@[j]).0@ == key@;
                        assert(false);
                    }
                }
                Err(KvsError::KeyNotFound)
            },
            Some(j) => {
                proof {
                    assert(entry_ok(logs0, m0, self.index@[j as int]));
                }
                let ts = self.clock;
                let ghost model = CommandModel::Rm { key: key@, ts: ts };
                let cmd = KvsCommand::rm(key.clone(), ts);
                let buf = encode_command_chars(&cmd);
                let mut seg = self.segments.pop().unwrap();
                let ghost seg0 = seg@;
                push_all(&mut seg, &buf);
                let new_len = seg.len();
                self.segments.push(seg);
                self.cur_offset = new_len as u64;
                let ghost last = logs0.len() - 1;
                let ghost logs1 = logs0.update(last, logs0[last].push(model));
                self.logs = Ghost(logs1);
                let ghost oldindex = self.index@;
                self.index.remove(j);
                push_all(&mut self.pending, &buf);
                self.clock = ts + 1;
                proof {
                    let m1 = cands(logs1);
                    let off = concat_enc(logs0[last]).len() as int;
                    assert(old(self).segments@[last]@ == concat_enc(logs0[last]));
                    assert(seg0 == old(self).segments@.last()@);
                    lemma_replay_all_upd(Map::empty(), logs0, 0, model);
                    assert(m0.contains_key(key@) && m0[key@].ts <= ts);
                    assert(m1 == m0.insert(key@, cand_of(model, last, off)));
                    assert(self.segments@.len() == old(self).segments@.len());
                    assert(forall|i: int|
                        0 <= i < last ==> self.segments@[i] == #[trigger] old(self).segments@[i]);
                    assert(self.segments@[last]@ == seg0 + buf@);
                    lemma_concat_enc_push(logs0[last], model);
                    assert forall|i: int| 0 <= i < logs1.len() implies #[trigger] self.segments@[i]@
                        == concat_enc(logs1[i]) by {
                        if i == last {
                            assert(logs1[last] == logs0[last].push(model));
                        } else {
                            assert(self.segments@[i]@ == old(self).segments@[i]@);
                            assert(logs1[i] == logs0[i]);
                        }
                    }
                    assert forall|k: Seq<char>| #[trigger] m1.contains_key(k) implies m1[k].ts
                        <= self.clock by {
                        if k != key@ {
                            assert(m0.contains_key(k));
                        }
                    }
                    assert(logs0.last() == logs0[last]);
                    lemma_points_at_push_last(logs0, logs1, model);
                    assert(self.index@ =~= oldindex.take(j as int) + oldindex.skip(j as int + 1));
                    assert forall|t: int|
                        0 <= t < self.index@.len() implies (#[trigger] self.index@[t]) == (if t
                        < j as int {
                        oldindex[t]
                    } else {
                        oldindex[t + 1]
                    }) by {}
                    assert(oldindex[j as int].0@ == key@);
                    assert forall|t: int|
                        0 <= t < self.index@.len() implies (#[trigger] self.index@[t]).0@ != key@
                        by {
                        if t < j as int {
                            assert(oldindex[t].0@ != oldindex[j as int].0@);
                        } else {
                            assert(oldindex[t + 1].0@ != oldindex[j as int].0@);
                        }
                    }
                    assert forall|t: int| 0 <= t < self.index@.len() implies #[trigger] entry_ok(
                        logs1,
                        m1,
                        self.index@[t],
                    ) by {
                        let ent = self.index@[t];
                        assert(ent == (if t < j as int {
                            oldindex[t]
                        } else {
                            oldindex[t + 1]
                        }));
                        assert(entry_ok(logs0, m0, ent));
                        assert(ent.0@ != key@);
                        assert(m1[ent.0@] == m0[ent.0@]);
                        assert(points_at(logs1, ent.0@, m1[ent.0@]));
                    }
                    assert forall|k: Seq<char>|
                        m1.contains_key(k) && (#[trigger] m1[k].live) is Some implies exists|
                            t: int,
                        |
                            0 <= t < self.index@.len() && (#[trigger] self.index@[t]).0@ == k by {
                        assert(k != key@);
                        assert(m0.contains_key(k) && m0[k].live is Some);
                        let t0 = choose|t0: int|
                            0 <= t0 < oldindex.len() && (#[trigger] oldindex[t0]).0@ == k;
                        assert(t0 != j as int);
                        if t0 < j as int {
                            assert(self.index@[t0].0@ == k);
                        } else {
                            assert(self.index@[t0 - 1].0@ == k);
                        }
                    }
                    assert(final(self)@ =~= old(self)@.remove(key@)) by {
                        assert(live_map(m1) =~= live_map(m0).remove(key@));
                    }
                    assert(final(self).log_views() =~= old(self).log_views().update(
                        old(self).log_views().len() - 1,
                        old(self).log_views().last() + enc_command(model),
                    ));
                }
                Ok(())
            },
        }
    }
}


/// Appending a record to the last segment invalidates no pointer.
proof fn lemma_points_at_push_last(
    logs0: Seq<Seq<CommandModel>>,
    logs1: Seq<Seq<CommandModel>>,
    c: CommandModel,
)
    requires
        logs0.len() >= 1,
        logs1 == logs0.update(logs0.len() - 1, logs0.last().push(c)),
    ensures
        forall|k: Seq<char>, cd: Cand| points_at(logs0, k, cd) ==> #[trigger] points_at(
            logs1,
            k,
            cd,
        ),
{
    let last = logs0.len() - 1;
    assert forall|k: Seq<char>, cd: Cand|
        points_at(logs0, k, cd) implies #[trigger] points_at(logs1, k, cd) by {
        let rj = choose|rj: int|
            0 <= rj < logs0[cd.seg].len() && cd.off == off_of(logs0[cd.seg], rj)
                && logs0[cd.seg][rj] == (CommandModel::SetCmd {
                key: k,
                value: cd.live->0,
                ts: cd.ts,
            });
        if cd.seg == last {
            assert(logs1[last][rj] == logs0[last][rj]);
            assert(logs1[last].take(rj) =~= logs0[last].take(rj));
            assert(off_of(logs1[cd.seg], rj) == cd.off);
        } else {
            assert(logs1[cd.seg] == logs0[cd.seg]);
        }
    }
}

/// A new segment at the end invalidates no pointer.
proof fn lemma_points_at_snoc(logs: Seq<Seq<CommandModel>>, add: Seq<CommandModel>)
    ensures
        forall|k: Seq<char>, cd: Cand| points_at(logs, k, cd) ==> #[trigger] points_at(
            logs.push(add),
            k,
            cd,
        ),
{
    assert forall|k: Seq<char>, cd: Cand|
        points_at(logs, k, cd) implies #[trigger] points_at(logs.push(add), k, cd) by {
        let rj = choose|rj: int|
            0 <= rj < logs[cd.seg].len() && cd.off == off_of(logs[cd.seg], rj)
                && logs[cd.seg][rj] == (CommandModel::SetCmd {
                key: k,
                value: cd.live->0,
                ts: cd.ts,
            });
        assert(logs.push(add)[cd.seg] == logs[cd.seg]);
    }
}

/// One replay candidate as tracked while segments are replayed.
struct WorkItem {
    key: String,
    seg: u32,
    ts: u128,
    off: u64,
    is_set: bool,
}

/// The work item mirrors the candidate for its key.
spec fn witem_ok(logs: Seq<Seq<CommandModel>>, m: Map<Seq<char>, Cand>, it: WorkItem) -> bool {
    let k = it.key@;
    &&& m.contains_key(k)
    &&& it.seg as int == m[k].seg
    &&& it.off as int == m[k].off
    &&& it.ts == m[k].ts
    &&& it.is_set == (m[k].live is Some)
    &&& (m[k].live is Some ==> points_at(logs, k, m[k]))
}

/// The work list mirrors the whole candidate map, one item per key.
spec fn work_ok(w: Seq<WorkItem>, logs: Seq<Seq<CommandModel>>, m: Map<Seq<char>, Cand>) -> bool {
    &&& forall|j: int| 0 <= j < w.len() ==> #[trigger] witem_ok(logs, m, w[j])
    &&& forall|j1: int, j2: int|
        #![trigger w[j1], w[j2]]
        0 <= j1 < j2 < w.len() ==> w[j1].key@ != w[j2].key@
    &&& forall|k: Seq<char>| #[trigger] m.contains_key(k) ==> exists|j: int|
        0 <= j < w.len() && (#[trigger] w[j]).key@ == k
}

/// Finds the position of `key` in the work list, if any.
fn find_work(work: &Vec<WorkItem>, key: &String) -> (r: Option<usize>)
    ensures
        match r {
            Some(j) => j < work@.len() && work@[j as int].key@ == key@,
            None => forall|j: int| 0 <= j < work@.len() ==> (#[trigger] work@[j]).key@ != key@,
        },
{
    let mut j: usize = 0;
    while j < work.len()
        invariant
            j <= work@.len(),
            forall|t: int| 0 <= t < j ==> (#[trigger] work@[t]).key@ != key@,
        decreases work@.len() - j,
    {
        if key.eq(&work[j].key) {
            return Some(j);
        }
        j = j + 1;
    }
    None
}

/// Merges one record's candidate into the work list: it wins unless the
/// item already there is strictly newer.
fn work_upsert(work: &mut Vec<WorkItem>, item: WorkItem)
    requires
        forall|j1: int, j2: int|
            #![trigger old(work)@[j1], old(work)@[j2]]
            0 <= j1 < j2 < old(work)@.len() ==> old(work)@[j1].key@ != old(work)@[j2].key@,
    ensures
        (exists|j: int|
            0 <= j < old(work)@.len() && (#[trigger] old(work)@[j]).key@ == item.key@ && old(
                work,
            )@[j].ts > item.ts) ==> final(work)@ == old(work)@,
        (forall|j: int|
            0 <= j < old(work)@.len() && (#[trigger] old(work)@[j]).key@ == item.key@ ==> old(
                work,
            )@[j].ts <= item.ts) ==> {
            &&& old(work)@.len() <= final(work)@.len() <= old(work)@.len() + 1
            &&& (forall|j: int|
                0 <= j < old(work)@.len() && (#[trigger] old(work)@[j]).key@ != item.key@
                    ==> final(work)@[j] == old(work)@[j])
            &&& (forall|j: int|
                0 <= j < final(work)@.len() && (#[trigger] final(work)@[j]).key@ == item.key@
                    ==> final(work)@[j] == item)
            &&& (exists|j: int|
                0 <= j < final(work)@.len() && (#[trigger] final(work)@[j]).key@ == item.key@)
            &&& (forall|j: int|
                old(work)@.len() <= j < final(work)@.len() ==> (#[trigger] final(work)@[j])
                    == item)
            &&& (forall|j: int|
                0 <= j < old(work)@.len() && (#[trigger] old(work)@[j]).key@ == item.key@
                    ==> final(work)@[j] == item)
        },
        forall|j1: int, j2: int|
            #![trigger final(work)@[j1], final(work)@[j2]]
            0 <= j1 < j2 < final(work)@.len() ==> final(work)@[j1].key@ != final(work)@[j2].key@,
{
    match find_work(work, &item.key) {
        Some(j) => {
            let ghost jf = j as int;
            if work[j].ts <= item.ts {
                let ghost k = item.key@;
                work[j] = item;
                proof {
                    assert(work@[jf].key@ == k);
                    assert forall|t: int|
                        0 <= t < old(work)@.len() && (#[trigger] old(work)@[t]).key@ == k implies
                        work@[t] == item by {
                        if t != jf {
                            assert(old(work)@[t].key@ != old(work)@[jf].key@);
                        }
                    }
                }
            } else {
                proof {
                    assert(old(work)@[jf].ts > item.ts);
                }
            }
        },
        None => {
            work.push(item);
            proof {
                let jn = old(work)@.len() as int;
                assert(work@[jn] == item);
            }
        },
    }
}


impl KvStore {
    /// Opens a store from the text of the existing segments, in
    /// enumeration order.
    ///
    /// Every record of every segment is replayed; for each key the record
    /// with the greatest timestamp wins, and between equal timestamps the
    /// record encountered later wins.  A fresh, empty active segment is
    /// started.  When any segment fails to decode, the whole open fails
    /// with an `Encoding` error.
    pub fn open(segments: Vec<String>) -> (r: Result<KvStore, KvsError>)
        requires
            segments@.len() < u32::MAX,
        ensures
            match r {
                Ok(st) => {
                    &&& st.wf()
                    &&& replay_views(Seq::new(segments@.len(), |i: int| segments@[i]@)) == Some(
                        st@,
                    )
                    &&& st.log_views() == Seq::new(segments@.len(), |i: int| segments@[i]@).push(
                        Seq::<char>::empty(),
                    )
                    &&& st.pending_text() == Seq::<char>::empty()
                },
                Err(e) => {
                    &&& replay_views(Seq::new(segments@.len(), |i: int| segments@[i]@)) is None
                    &&& e is Encoding
                },
            },
    {
        let ghost in_views = Seq::new(segments@.len(), |i: int| segments@[i]@);
        let n = segments.len();
        let mut segs: Vec<Vec<char>> = Vec::new();
        let mut si: usize = 0;
        while si < n
            invariant
                n == segments@.len(),
                si <= n,
                segs@.len() == si,
                forall|j: int| 0 <= j < si ==> (#[trigger] segs@[j])@ == segments@[j]@,
            decreases n - si,
        {
            let sv = string_to_chars(segments[si].as_str());
            segs.push(sv);
            si = si + 1;
        }
        let mut work: Vec<WorkItem> = Vec::new();
        let ghost mut logs: Seq<Seq<CommandModel>> = Seq::empty();
        let mut max_ts: u128 = 0;
        let mut i: usize = 0;
        proof {
            assert(cands(logs) =~= Map::<Seq<char>, Cand>::empty());
        }
        while i < n
            invariant
                n == segments@.len(),
                n < u32::MAX,
                i <= n,
                segs@.len() == n,
                forall|j: int| 0 <= j < n ==> (#[trigger] segs@[j])@ == in_views[j],
                in_views == Seq::new(segments@.len(), |t: int| segments@[t]@),
                logs.len() == i,
                forall|j: int| 0 <= j < i ==> concat_enc(#[trigger] logs[j]) == in_views[j],
                work_ok(work@, logs, cands(logs)),
                forall|j: int| 0 <= j < work@.len() ==> (#[trigger] work@[j]).ts <= max_ts,
            decreases n - i,
        {
            let ghost logs_in = logs;
            let ghost mut cmds: Seq<CommandModel> = Seq::empty();
            let mut off: usize = 0;
            proof {
                logs = logs_in.push(cmds);
                lemma_replay_all_snoc_empty(Map::<Seq<char>, Cand>::empty(), logs_in, 0);
                assert(cands(logs) == cands(logs_in));
                lemma_points_at_snoc(logs_in, cmds);
                assert forall|j: int| 0 <= j < work@.len() implies #[trigger] witem_ok(
                    logs,
                    cands(logs),
                    work@[j],
                ) by {
                    assert(witem_ok(logs_in, cands(logs_in), work@[j]));
                }
                assert(segs@[i as int]@.take(0) =~= Seq::<char>::empty());
                assert(concat_enc(cmds) == segs@[i as int]@.take(0));
            }
            let seglen = segs[i].len();
            while off < seglen
                invariant
                    i < n,
                    n == segments@.len(),
                    n < u32::MAX,
                    segs@.len() == n,
                    forall|j: int| 0 <= j < n ==> (#[trigger] segs@[j])@ == in_views[j],
                    in_views == Seq::new(segments@.len(), |t: int| segments@[t]@),
                    seglen == segs@[i as int]@.len(),
                    off <= seglen,
                    logs_in.len() == i,
                    forall|j: int| 0 <= j < i ==> concat_enc(#[trigger] logs_in[j]) == in_views[j],
                    logs == logs_in.push(cmds),
                    concat_enc(cmds) == segs@[i as int]@.take(off as int),
                    work_ok(work@, logs, cands(logs)),
                    forall|j: int| 0 <= j < work@.len() ==> (#[trigger] work@[j]).ts <= max_ts,
                decreases seglen - off,
            {
                let ghost segv = segs@[i as int]@;
                match decode_command_at(&segs[i], off) {
                    None => {
                        proof {
                            assert(segv =~= concat_enc(cmds) + segv.skip(off as int));
                            lemma_parse_log_stuck(cmds, segv.skip(off as int));
                            assert(parse_log(in_views[i as int]) is None);
                        }
                        return Err(
                            KvsError::Encoding("a log record failed to decode".to_owned()),
                        );
                    },
                    Some((cmd, used)) => {
                        let ghost cm = cmd@;
                        let (kstr, tsv, setp) = match cmd {
                            KvsCommand::SetCmd(k2, _v2, t2) => (k2, t2, true),
                            KvsCommand::Rm(k2, t2) => (k2, t2, false),
                        };
                        if tsv > max_ts {
                            max_ts = tsv;
                        }
                        let ghost logsP0 = logs;
                        let ghost mP0 = cands(logsP0);
                        let ghost cmds1 = cmds.push(cm);
                        let ghost logsP1 = logs_in.push(cmds1);
                        proof {
                            assert(cm.key() == kstr@ && cm.ts() == tsv && (cm.live() is Some)
                                == setp);
                            assert(logsP1 =~= logsP0.update(
                                logsP0.len() - 1,
                                logsP0.last().push(cm),
                            ));
                            lemma_replay_all_upd(Map::<Seq<char>, Cand>::empty(), logsP0, 0, cm);
                            assert(logsP0.last() == cmds);
                            assert(concat_enc(cmds).len() == off as int);
                            assert(cands(logsP1) == step(mP0, i as int, off as int, cm));
                            lemma_parse_command_sound(segv.skip(off as int));
                            assert(segv.skip(off as int).take(used as int) == enc_command(cm));
                            lemma_concat_enc_push(cmds, cm);
                            assert(segv.take(off + used) =~= segv.take(off as int) + segv.skip(
                                off as int,
                            ).take(used as int));
                            assert(concat_enc(cmds1) == segv.take(off + used));
                            lemma_points_at_push_last(logsP0, logsP1, cm);
                        }
                        let item = WorkItem {
                            key: kstr,
                            seg: i as u32,
                            ts: tsv,
                            off: off as u64,
                            is_set: setp,
                        };
                        let ghost w0 = work@;
                        let ghost m1 = cands(logsP1);
                        let ghost k = item.key@;
                        work_upsert(&mut work, item);
                        proof {
                            if mP0.contains_key(k) && mP0[k].ts > tsv {
                                assert(m1 == mP0);
                                let j0 = choose|j0: int|
                                    0 <= j0 < w0.len() && (#[trigger] w0[j0]).key@ == k;
                                assert(witem_ok(logsP0, mP0, w0[j0]));
                                assert(w0[j0].ts > tsv);
                                assert(work@ == w0);
                                assert forall|j: int| 0 <= j < work@.len() implies
                                    #[trigger] witem_ok(logsP1, m1, work@[j]) by {
                                    assert(witem_ok(logsP0, mP0, w0[j]));
                                }
                            } else {
                                assert(m1 == mP0.insert(k, cand_of(cm, i as int, off as int)));
                                assert forall|j: int|
                                    0 <= j < w0.len() && (#[trigger] w0[j]).key@ == k implies w0[
                                    j].ts <= tsv by {
                                    assert(witem_ok(logsP0, mP0, w0[j]));
                                }
                                if cm.live() is Some {
                                    assert(points_at(
                                        logsP1,
                                        k,
                                        cand_of(cm, i as int, off as int),
                                    )) by {
                                        let rj = cmds.len() as int;
                                        assert(logsP1[i as int] == cmds1);
                                        assert(cmds1.take(rj) =~= cmds);
                                        assert(off_of(cmds1, rj) == off as int);
                                        assert(cmds1[rj] == cm);
                                        assert(cm == (CommandModel::SetCmd {
                                            key: k,
                                            value: cm.live()->0,
                                            ts: tsv,
                                        }));
                                    }
                                }
                                assert forall|j: int| 0 <= j < work@.len() implies
                                    #[trigger] witem_ok(logsP1, m1, work@[j]) by {
                                    let it = work@[j];
                                    if it.key@ == k {
                                        assert(work@[j] == item);
                                        assert(m1[k] == cand_of(cm, i as int, off as int));
                                    } else {
                                        assert(j < w0.len()) by {
                                            if j >= w0.len() {
                                                assert(work@[j] == item);
                                            }
                                        }
                                        assert(w0[j].key@ != k) by {
                                            if w0[j].key@ == k {
                                                assert(work@[j] == item);
                                            }
                                        }
                                        assert(work@[j] == w0[j]);
                                        assert(witem_ok(logsP0, mP0, w0[j]));
                                        assert(m1[it.key@] == mP0[it.key@]);
                                    }
                                }
                                assert forall|k2: Seq<char>| #[trigger] m1.contains_key(k2)
                                    implies exists|j: int|
                                    0 <= j < work@.len() && (#[trigger] work@[j]).key@ == k2 by {
                                    if k2 == k {
                                        let j = choose|j: int|
                                            0 <= j < work@.len() && (#[trigger] work@[j]).key@
                                                == k;
                                    } else {
                                        assert(mP0.contains_key(k2));
                                        let j0 = choose|j0: int|
                                            0 <= j0 < w0.len() && (#[trigger] w0[j0]).key@ == k2;
                                        assert(w0[j0].key@ != k);
                                        assert(work@[j0] == w0[j0]);
                                    }
                                }
                            }
                            assert forall|j: int| 0 <= j < work@.len() implies (#[trigger] work@[
                                j]).ts <= max_ts by {
                                if j < w0.len() && work@[j] == w0[j] {
                                } else {
                                }
                            }
                            cmds = cmds1;
                            logs = logsP1;
                        }
                        off = off + used;
                    },
                }
            }
            proof {
                assert(off == seglen);
                assert(segs@[i as int]@.take(seglen as int) =~= segs@[i as int]@);
                assert(concat_enc(cmds) == in_views[i as int]);
            }
            i = i + 1;
        }
        proof {
            assert forall|j: int| 0 <= j < n implies #[trigger] parse_log(in_views[j]) == Some(
                logs[j],
            ) by {
                lemma_parse_log_complete(logs[j]);
            }
        }
        let clock: u128 = if max_ts == u128::MAX {
            max_ts
        } else {
            max_ts + 1
        };
        let mut index: Vec<(String, KvsEntry)> = Vec::new();
        let ghost w_all = work@;
        let ghost m = cands(logs);
        loop
            invariant
                work@ == w_all.take(work@.len() as int),
                work@.len() <= w_all.len(),
                forall|t: int| 0 <= t < index@.len() ==> #[trigger] entry_ok(logs, m, index@[t]),
                forall|t1: int, t2: int|
                    #![trigger index@[t1], index@[t2]]
                    0 <= t1 < t2 < index@.len() ==> index@[t1].0@ != index@[t2].0@,
                forall|t: int, j: int|
                    #![trigger index@[t], work@[j]]
                    0 <= t < index@.len() && 0 <= j < work@.len() ==> index@[t].0@ != work@[
                        j].key@,
                forall|j: int|
                    work@.len() <= j < w_all.len() && (#[trigger] w_all[j]).is_set ==> exists|
                        t: int,
                    |
                        0 <= t < index@.len() && (#[trigger] index@[t]).0@ == w_all[j].key@,
                work_ok(w_all, logs, m),
            ensures
                work@.len() == 0,
            decreases work@.len(),
        {
            let ghost wlen = work@.len() as int;
            match work.pop() {
                None => {
                    break ;
                },
                Some(w) => {
                    proof {
                        assert(work@ =~= w_all.take(wlen - 1));
                        assert(w == w_all[wlen - 1]);
                        assert(witem_ok(logs, m, w_all[wlen - 1]));
                    }
                    if w.is_set {
                        let ghost oldindex = index@;
                        index.push((w.key, KvsEntry::new(w.seg, w.ts, w.off)));
                        proof {
                            let tn = oldindex.len() as int;
                            assert(index@[tn].0@ == w_all[wlen - 1].key@);
                            assert(entry_ok(logs, m, index@[tn]));
                            assert forall|t1: int, t2: int|
                                0 <= t1 < t2 < index@.len() implies (#[trigger] index@[t1]).0@
                                != (#[trigger] index@[t2]).0@ by {
                                if t2 == tn {
                                    assert(oldindex[t1].0@ != w_all[wlen - 1].key@);
                                }
                            }
                            assert forall|j: int|
                                work@.len() <= j < w_all.len() && (#[trigger] w_all[j]).is_set
                                implies exists|t: int|
                                0 <= t < index@.len() && (#[trigger] index@[t]).0@ == w_all[
                                    j].key@ by {
                                if j == wlen - 1 {
                                    assert(index@[tn].0@ == w_all[j].key@);
                                } else {
                                    let t0 = choose|t0: int|
                                        0 <= t0 < oldindex.len() && (#[trigger] oldindex[t0]).0@
                                            == w_all[j].key@;
                                    assert(index@[t0].0@ == w_all[j].key@);
                                }
                            }
                            assert forall|t: int, j: int|
                                0 <= t < index@.len() && 0 <= j < work@.len() implies (
                            #[trigger] index@[t]).0@ != (#[trigger] work@[j]).key@ by {
                                assert(work@[j] == w_all[j]);
                                if t == tn {
                                    assert(w_all[j].key@ != w_all[wlen - 1].key@);
                                } else {
                                    assert(oldindex[t] == index@[t]);
                                }
                            }
                        }
                    } else {
                        proof {
                            assert forall|j: int|
                                work@.len() <= j < w_all.len() && (#[trigger] w_all[j]).is_set
                                implies exists|t: int|
                                0 <= t < index@.len() && (#[trigger] index@[t]).0@ == w_all[
                                    j].key@ by {
                                assert(j != wlen - 1);
                            }
                        }
                    }
                },
            }
        }
        segs.push(Vec::new());
        let ghost logs2 = logs.push(Seq::<CommandModel>::empty());
        let cur_index = (segs.len() - 1) as u32;
        let st = KvStore {
            segments: segs,
            index,
            cur_offset: 0,
            cur_index,
            clock,
            pending: Vec::new(),
            logs: Ghost(logs2),
        };
        proof {
            lemma_replay_all_snoc_empty(Map::<Seq<char>, Cand>::empty(), logs, 0);
            assert(cands(logs2) == m);
            lemma_points_at_snoc(logs, Seq::<CommandModel>::empty());
            assert(concat_enc(Seq::<CommandModel>::empty()) == Seq::<char>::empty());
            assert(work@.len() == 0);
            assert forall|k2: Seq<char>| #[trigger] m.contains_key(k2) implies m[k2].ts
                <= st.clock by {
                let j0 = choose|j0: int|
                    0 <= j0 < w_all.len() && (#[trigger] w_all[j0]).key@ == k2;
                assert(witem_ok(logs, m, w_all[j0]));
            }
            assert forall|t: int| 0 <= t < st.index@.len() implies #[trigger] entry_ok(
                logs2,
                cands(logs2),
                st.index@[t],
            ) by {
                assert(entry_ok(logs, m, st.index@[t]));
                assert(points_at(logs2, st.index@[t].0@, m[st.index@[t].0@]));
            }
            assert forall|k2: Seq<char>|
                cands(logs2).contains_key(k2) && (#[trigger] cands(logs2)[k2].live) is Some
                implies exists|t: int|
                0 <= t < st.index@.len() && (#[trigger] st.index@[t]).0@ == k2 by {
                let j0 = choose|j0: int|
                    0 <= j0 < w_all.len() && (#[trigger] w_all[j0]).key@ == k2;
                assert(witem_ok(logs, m, w_all[j0]));
                assert(w_all[j0].is_set);
                let t0 = choose|t0: int|
                    0 <= t0 < st.index@.len() && (#[trigger] st.index@[t0]).0@ == w_all[j0].key@;
            }
            assert(st.wf());
            assert(Seq::new(in_views.len(), |t: int| parse_log(in_views[t])->0) =~= logs);
            assert(replay_views(in_views) == Some(live_map(m)));
            assert(st@ == live_map(m));
            assert(st.log_views() =~= in_views.push(Seq::<char>::empty()));
        }
        Ok(st)
    }
}


/// Durability law: reopening a store from the text of its segments yields
/// exactly the state it had.  Together with `open`'s contract: for a
/// well-formed store `st`, `open` on `st.log_views()` succeeds and the
/// resulting store's map equals `st@`.
pub proof fn lemma_reopen(st: KvStore)
    requires
        st.wf(),
    ensures
        replay_views(st.log_views()) == Some(st@),
{
    let views = st.log_views();
    let logs = st.logs@;
    assert forall|i: int| 0 <= i < views.len() implies #[trigger] parse_log(views[i]) == Some(
        logs[i],
    ) by {
        assert(views[i] == st.segments@[i]@);
        assert(st.segments@[i]@ == concat_enc(logs[i]));
        lemma_parse_log_complete(logs[i]);
    }
    assert(Seq::new(views.len(), |t: int| parse_log(views[t])->0) =~= logs);
    assert(replay_views(views) == Some(live_map(cands(logs))));
}

/// After `set(k, v)`, the state maps `k` to `v`; by `get`'s contract a
/// lookup returns exactly the state's value, and by the reopen law the
/// state survives a reopen, so the lookup answers `v` before and after.
pub proof fn lemma_set_then_get(m: Map<Seq<char>, Seq<char>>, k: Seq<char>, v: Seq<char>)
    ensures
        m.insert(k, v).contains_key(k),
        m.insert(k, v)[k] == v,
{
}

/// After `remove(k)`, the state has no value for `k`: a lookup reports no
/// value, and a second `remove` meets an absent key, which by `remove`'s
/// contract fails with `KeyNotFound`.
pub proof fn lemma_remove_then_get(m: Map<Seq<char>, Seq<char>>, k: Seq<char>)
    ensures
        !m.remove(k).contains_key(k),
{
}

/// A run of assignments to one key, applied in order.
pub open spec fn apply_sets(
    m: Map<Seq<char>, Seq<char>>,
    k: Seq<char>,
    vs: Seq<Seq<char>>,
) -> Map<Seq<char>, Seq<char>>
    decreases vs.len(),
{
    if vs.len() == 0 {
        m
    } else {
        apply_sets(m.insert(k, vs[0]), k, vs.drop_first())
    }
}

/// Overwriting one key any number of times leaves exactly one live
/// mapping for it: the last value written.  The log itself only grows;
/// each `set` extends the active segment by one record.
pub proof fn lemma_overwrite_single(m: Map<Seq<char>, Seq<char>>, k: Seq<char>, vs: Seq<Seq<char>>)
    requires
        vs.len() >= 1,
    ensures
        apply_sets(m, k, vs) == m.insert(k, vs.last()),
    decreases vs.len(),
{
    if vs.len() == 1 {
        assert(vs.drop_first() =~= Seq::<Seq<char>>::empty());
        assert(apply_sets(m.insert(k, vs[0]), k, vs.drop_first()) == m.insert(k, vs[0]));
    } else {
        lemma_overwrite_single(m.insert(k, vs[0]), k, vs.drop_first());
        assert(vs.drop_first().last() == vs.last());
        assert(m.insert(k, vs[0]).insert(k, vs.last()) =~= m.insert(k, vs.last()));
    }
}

} // verus!
