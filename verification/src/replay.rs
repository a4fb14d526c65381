//! Replaying log generations into the live-record map.
//!
//! A generation is an append-only file of encoded command records. Replay
//! decodes a generation from its first byte and folds each record into a map
//! from key bytes to the location and value of the key's live `Set` record.
//! Replay of the whole store runs over the generations in ascending order.

use vstd::prelude::*;

use crate::codec::{
    cmd_ok, dec_cmd, enc_cmd, lemma_dec_cmd_some, lemma_dec_of_enc, CmdB,
};

verus! {

/// Where the live record of a key sits: its generation, byte offset and
/// length there, and the value bytes it carries.
pub struct LocV {
    /// Generation number of the log file holding the record.
    pub gen: u64,
    /// Byte offset of the record's first byte.
    pub pos: int,
    /// Encoded length of the record.
    pub len: int,
    /// The value bytes the record carries.
    pub val: Seq<u8>,
}

/// One log generation: its number and its bytes.
pub struct LogV {
    /// Generation number; higher numbers are newer.
    pub gen: u64,
    /// The file's bytes.
    pub data: Seq<u8>,
}

/// One closed log generation held in memory.
pub struct LogFile {
    /// Generation number; higher numbers are newer.
    pub gen: u64,
    /// The file's bytes.
    pub data: Vec<u8>,
}

impl View for LogFile {
    type V = LogV;

    open spec fn view(&self) -> LogV {
        LogV { gen: self.gen, data: self.data@ }
    }
}

/// The view of a sequence of in-memory log files.
pub open spec fn logs_view(logs: Seq<LogFile>) -> Seq<LogV> {
    logs.map_values(|lf: LogFile| lf@)
}

/// The encoded `Set` record asserting `key` maps to `val`.
pub open spec fn set_rec(key: Seq<u8>, val: Seq<u8>) -> Seq<u8> {
    enc_cmd(CmdB::SetB { key, value: val })
}

/// Folds one decoded record into the live map: a `Set` binds its key to the
/// record's location, a `Remove` evicts the key.
pub open spec fn apply_cmd(
    gen: u64,
    pos: int,
    n: int,
    m: Map<Seq<u8>, LocV>,
    c: CmdB,
) -> Map<Seq<u8>, LocV> {
    match c {
        CmdB::SetB { key, value } => m.insert(key, LocV { gen, pos, len: n, val: value }),
        CmdB::RmB { key } => m.remove(key),
    }
}

/// Replays generation `gen` from byte `pos` onward, folding each record into
/// `m`; `None` when the bytes from `pos` are not a clean sequence of records.
pub open spec fn replay_from(gen: u64, data: Seq<u8>, pos: int, m: Map<Seq<u8>, LocV>) -> Option<
    Map<Seq<u8>, LocV>,
>
    decreases data.len() - pos,
{
    if pos == data.len() {
        Some(m)
    } else {
        match dec_cmd(data, pos) {
            Option::None => None,
            Option::Some((c, n)) => {
                if 0 <= pos && 0 < n && pos + n <= data.len() {
                    replay_from(gen, data, pos + n, apply_cmd(gen, pos, n, m, c))
                } else {
                    None
                }
            },
        }
    }
}

/// Replays a sequence of generations in order, starting from `m`.
pub open spec fn replay_logs(logs: Seq<LogV>, m: Map<Seq<u8>, LocV>) -> Option<Map<Seq<u8>, LocV>>
    decreases logs.len(),
{
    if logs.len() == 0 {
        Some(m)
    } else {
        match replay_from(logs[0].gen, logs[0].data, 0, m) {
            Option::None => None,
            Option::Some(m2) => replay_logs(logs.drop_first(), m2),
        }
    }
}

/// The live-record map described by a store's generations, oldest first.
pub open spec fn log_model(logs: Seq<LogV>) -> Option<Map<Seq<u8>, LocV>> {
    replay_logs(logs, Map::empty())
}

/// `l` locates, inside generation `lg`, the exact `Set` record binding `k` to `l.val`.
pub open spec fn loc_in_log(k: Seq<u8>, l: LocV, lg: LogV) -> bool {
    &&& lg.gen == l.gen
    &&& 0 <= l.pos
    &&& l.pos + l.len <= lg.data.len()
    &&& cmd_ok(CmdB::SetB { key: k, value: l.val })
    &&& l.len == set_rec(k, l.val).len()
    &&& lg.data.subrange(l.pos, l.pos + l.len) == set_rec(k, l.val)
}

/// `l` locates the exact `Set` record for `k` in one of the generations.
pub open spec fn loc_in_logs(k: Seq<u8>, l: LocV, logs: Seq<LogV>) -> bool {
    exists|j: int| 0 <= j < logs.len() && loc_in_log(k, l, #[trigger] logs[j])
}

/// Appending one well-formed record to a generation that replays cleanly
/// replays to the fold of that record into the previous result.
pub proof fn lemma_replay_append_record(
    gen: u64,
    data: Seq<u8>,
    pos: int,
    m: Map<Seq<u8>, LocV>,
    c: CmdB,
)
    requires
        0 <= pos <= data.len(),
        cmd_ok(c),
        replay_from(gen, data, pos, m) is Some,
    ensures
        replay_from(gen, data + enc_cmd(c), pos, m) == Some(
            apply_cmd(
                gen,
                data.len() as int,
                enc_cmd(c).len() as int,
                replay_from(gen, data, pos, m).unwrap(),
                c,
            ),
        ),
    decreases data.len() - pos,
{
    let e = enc_cmd(c);
    let ext = data + e;
    if pos == data.len() {
        assert(ext.subrange(pos, pos + e.len()) =~= e);
        lemma_dec_of_enc(ext, pos, c);
        assert(replay_from(gen, ext, pos + e.len(), apply_cmd(gen, pos, e.len() as int, m, c))
            == Some(apply_cmd(gen, pos, e.len() as int, m, c)));
    } else {
        let (c0, n0) = dec_cmd(data, pos).unwrap();
        lemma_dec_cmd_some(data, pos, c0, n0);
        assert(ext.subrange(pos, pos + n0) =~= data.subrange(pos, pos + n0));
        lemma_dec_of_enc(ext, pos, c0);
        let m1 = apply_cmd(gen, pos, n0, m, c0);
        lemma_replay_append_record(gen, data, pos + n0, m1, c);
    }
}

/// Whatever a clean replay of one generation yields: each entry either came in
/// through `m` unchanged, or locates its record inside this generation.
pub proof fn lemma_replay_from_locs(gen: u64, data: Seq<u8>, pos: int, m: Map<Seq<u8>, LocV>)
    requires
        replay_from(gen, data, pos, m) is Some,
    ensures
        forall|k: Seq<u8>|
            #[trigger] replay_from(gen, data, pos, m).unwrap().contains_key(k) ==> ((
            m.contains_key(k) && replay_from(gen, data, pos, m).unwrap()[k] == m[k]) || loc_in_log(
                k,
                replay_from(gen, data, pos, m).unwrap()[k],
                LogV { gen, data },
            )),
    decreases data.len() - pos,
{
    if pos == data.len() {
    } else {
        let (c0, n0) = dec_cmd(data, pos).unwrap();
        lemma_dec_cmd_some(data, pos, c0, n0);
        let m1 = apply_cmd(gen, pos, n0, m, c0);
        lemma_replay_from_locs(gen, data, pos + n0, m1);
        match c0 {
            CmdB::SetB { key, value } => {
                assert(loc_in_log(key, LocV { gen, pos, len: n0, val: value }, LogV { gen, data }));
            },
            CmdB::RmB { key } => {},
        }
    }
}

/// Replaying `logs.push(lg)` replays `logs` and then `lg`.
pub proof fn lemma_replay_logs_snoc(logs: Seq<LogV>, lg: LogV, m: Map<Seq<u8>, LocV>)
    ensures
        replay_logs(logs.push(lg), m) == (match replay_logs(logs, m) {
            Option::Some(m2) => replay_from(lg.gen, lg.data, 0, m2),
            Option::None => None,
        }),
    decreases logs.len(),
{
    if logs.len() == 0 {
        assert(logs.push(lg)[0] == lg);
        assert(logs.push(lg).drop_first() =~= Seq::<LogV>::empty());
        match replay_from(lg.gen, lg.data, 0, m) {
            Option::Some(m2) => {
                assert(replay_logs(logs.push(lg), m) == replay_logs(
                    logs.push(lg).drop_first(),
                    m2,
                ));
                assert(replay_logs(Seq::<LogV>::empty(), m2) == Some(m2));
            },
            Option::None => {
                assert(replay_logs(logs.push(lg), m) is None);
            },
        }
    } else {
        assert(logs.push(lg)[0] == logs[0]);
        assert(logs.push(lg).drop_first() =~= logs.drop_first().push(lg));
        match replay_from(logs[0].gen, logs[0].data, 0, m) {
            Option::Some(m2) => {
                lemma_replay_logs_snoc(logs.drop_first(), lg, m2);
            },
            Option::None => {},
        }
    }
}

/// Whatever a clean replay of many generations yields: each entry either came
/// in through `m` unchanged, or locates its record in one of the generations.
pub proof fn lemma_replay_logs_locs(logs: Seq<LogV>, m: Map<Seq<u8>, LocV>)
    requires
        replay_logs(logs, m) is Some,
    ensures
        forall|k: Seq<u8>|
            #[trigger] replay_logs(logs, m).unwrap().contains_key(k) ==> ((m.contains_key(k)
                && replay_logs(logs, m).unwrap()[k] == m[k]) || loc_in_logs(
                k,
                replay_logs(logs, m).unwrap()[k],
                logs,
            )),
    decreases logs.len(),
{
    if logs.len() == 0 {
    } else {
        let m2 = replay_from(logs[0].gen, logs[0].data, 0, m).unwrap();
        lemma_replay_from_locs(logs[0].gen, logs[0].data, 0, m);
        lemma_replay_logs_locs(logs.drop_first(), m2);
        let rest = logs.drop_first();
        let r = replay_logs(logs, m).unwrap();
        assert forall|k: Seq<u8>| #[trigger] r.contains_key(k) implies ((m.contains_key(k) && r[k]
            == m[k]) || loc_in_logs(k, r[k], logs)) by {
            if m2.contains_key(k) && r[k] == m2[k] {
                if m.contains_key(k) && m2[k] == m[k] {
                } else {
                    assert(loc_in_log(k, m2[k], LogV { gen: logs[0].gen, data: logs[0].data }));
                    assert(logs[0] == (LogV { gen: logs[0].gen, data: logs[0].data }));
                    assert(loc_in_logs(k, r[k], logs));
                }
            } else {
                assert(loc_in_logs(k, r[k], rest));
                let j = choose|j: int| 0 <= j < rest.len() && loc_in_log(k, r[k], #[trigger] rest[j]);
                assert(logs[j + 1] == rest[j]);
                assert(loc_in_logs(k, r[k], logs));
            }
        }
    }
}

} // verus!
