//! The log-structured storage engine.
//!
//! String keys map to string values. Every mutation appends one encoded
//! record to the active log generation; an in-memory index maps each live
//! key's bytes to the generation, offset and length of its `Set` record.
//! When the stale bytes (written but no longer referenced) reach a threshold,
//! compaction rewrites the live records into a fresh generation and retires
//! every older one.

use vstd::prelude::*;

use vstd::utf8::{
    decode_utf8, encode_utf8, encode_utf8_decode_utf8, encode_utf8_valid_utf8, valid_utf8,
};

use crate::codec::{
    append_remove, append_set, copy_range, decode_at, enc_cmd, lemma_dec_cmd_some,
    lemma_dec_of_enc, CmdB, Command,
};
use crate::error::KvsError;
use crate::replay::{
    apply_cmd, lemma_replay_logs_locs, loc_in_log, loc_in_logs, log_model, logs_view, replay_from,
    replay_logs, LocV, LogFile, LogV,
};

verus! {

/// Stale bytes at which the writer triggers compaction.
pub const COMPACTION_THRESHOLD: u64 = 262144;

/// An index entry: where the live `Set` record of a key sits.
#[derive(Clone, Copy, Debug)]
pub struct Entry {
    /// Generation number of the log file holding the record.
    pub gen: u64,
    /// Byte offset of the record's first byte.
    pub pos: usize,
    /// Encoded length of the record.
    pub len: usize,
}

/// One index slot: a key's bytes and where its live record sits.
struct Slot {
    key: Vec<u8>,
    entry: Entry,
}

/// Every live value reachable through a UTF-8 key is itself valid UTF-8.
pub open spec fn all_live_utf8(bm: Map<Seq<u8>, LocV>) -> bool {
    forall|kb: Seq<u8>|
        (#[trigger] bm.contains_key(kb)) && valid_utf8(kb) ==> valid_utf8(bm[kb].val)
}

/// The string map described by a byte-level live-record map: a key is bound
/// exactly when its UTF-8 encoding is, to the decoding of the record's value.
pub open spec fn bm_to_kv(bm: Map<Seq<u8>, LocV>) -> Map<Seq<char>, Seq<char>> {
    Map::new(
        |k: Seq<char>| bm.contains_key(encode_utf8(k)),
        |k: Seq<char>| decode_utf8(bm[encode_utf8(k)].val),
    )
}

/// The sum of the generations' sizes in bytes.
pub open spec fn total_len(logs: Seq<LogV>) -> int
    decreases logs.len(),
{
    if logs.len() == 0 {
        0
    } else {
        total_len(logs.drop_last()) + logs.last().data.len()
    }
}

/// The sum of the record lengths referenced by the index.
spec fn live_sum(slots: Seq<Slot>) -> int
    decreases slots.len(),
{
    if slots.len() == 0 {
        0
    } else {
        live_sum(slots.drop_last()) + slots.last().entry.len
    }
}

/// Removing one slot lowers the referenced sum by that entry's length.
proof fn lemma_live_sum_remove(s: Seq<Slot>, i: int)
    requires
        0 <= i < s.len(),
    ensures
        live_sum(s.remove(i)) == live_sum(s) - s[i].entry.len,
    decreases s.len(),
{
    if i == s.len() - 1 {
        assert(s.remove(i) =~= s.drop_last());
    } else {
        assert(s.remove(i).drop_last() =~= s.drop_last().remove(i));
        assert(s.remove(i).last() == s.last());
        lemma_live_sum_remove(s.drop_last(), i);
    }
}

/// UTF-8 encoding tells distinct character sequences apart.
pub proof fn lemma_encode_utf8_injective(a: Seq<char>, b: Seq<char>)
    requires
        encode_utf8(a) == encode_utf8(b),
    ensures
        a == b,
{
    encode_utf8_decode_utf8(a);
    encode_utf8_decode_utf8(b);
}

/// Binding a fresh record for key `k` updates the string map at `k` alone.
pub proof fn lemma_bm_to_kv_insert(bm: Map<Seq<u8>, LocV>, k: Seq<char>, v: Seq<char>, loc: LocV)
    requires
        loc.val == encode_utf8(v),
    ensures
        bm_to_kv(bm.insert(encode_utf8(k), loc)) == bm_to_kv(bm).insert(k, v),
{
    let lhs = bm_to_kv(bm.insert(encode_utf8(k), loc));
    let rhs = bm_to_kv(bm).insert(k, v);
    encode_utf8_decode_utf8(v);
    assert forall|k2: Seq<char>| lhs.contains_key(k2) <==> rhs.contains_key(k2) by {
        if encode_utf8(k2) == encode_utf8(k) {
            lemma_encode_utf8_injective(k2, k);
        }
    }
    assert forall|k2: Seq<char>| #[trigger] lhs.contains_key(k2) implies lhs[k2] == rhs[k2] by {
        if encode_utf8(k2) == encode_utf8(k) {
            lemma_encode_utf8_injective(k2, k);
        }
    }
    assert(lhs =~= rhs);
}

/// Evicting the record for key `k` removes `k` from the string map alone.
pub proof fn lemma_bm_to_kv_remove(bm: Map<Seq<u8>, LocV>, k: Seq<char>)
    ensures
        bm_to_kv(bm.remove(encode_utf8(k))) == bm_to_kv(bm).remove(k),
{
    let lhs = bm_to_kv(bm.remove(encode_utf8(k)));
    let rhs = bm_to_kv(bm).remove(k);
    assert forall|k2: Seq<char>| lhs.contains_key(k2) <==> rhs.contains_key(k2) by {
        if encode_utf8(k2) == encode_utf8(k) {
            lemma_encode_utf8_injective(k2, k);
        }
    }
    assert(lhs =~= rhs);
}

/// How the stale-byte counter `u` tracks the true stale total `stale`:
/// exactly below the compaction threshold, and at least the threshold
/// whenever the true total reaches it.
spec fn counter_rel(u: u64, stale: int) -> bool {
    &&& 0 <= stale
    &&& u <= stale
    &&& stale < COMPACTION_THRESHOLD ==> u == stale
    &&& stale >= COMPACTION_THRESHOLD ==> u >= COMPACTION_THRESHOLD
}

/// Adds `x` to the stale-byte counter, capping at the compaction threshold:
/// the counter is exact below the threshold and at least the threshold when
/// the true total is.
fn sat_add(u: u64, x: u64) -> (r: u64)
    ensures
        r <= u + x,
        u + x < COMPACTION_THRESHOLD ==> r == u + x,
        u + x >= COMPACTION_THRESHOLD ==> r >= COMPACTION_THRESHOLD,
        r >= u,
{
    if u >= COMPACTION_THRESHOLD {
        u
    } else if x >= COMPACTION_THRESHOLD {
        COMPACTION_THRESHOLD
    } else {
        u + x
    }
}

/// Whether two byte strings hold the same bytes.
fn bytes_eq(a: &Vec<u8>, b: &Vec<u8>) -> (r: bool)
    ensures
        r <==> a@ == b@,
{
    if a.len() != b.len() {
        return false;
    }
    let n = a.len();
    let mut i: usize = 0;
    while i < n
        invariant
            n == a@.len() == b@.len(),
            0 <= i <= n,
            forall|j: int| 0 <= j < i ==> a@[j] == b@[j],
        decreases n - i,
    {
        if a[i] != b[i] {
            return false;
        }
        i += 1;
    }
    proof {
        assert(a@ =~= b@);
    }
    true
}

/// `kb` is one of the index's keys.
spec fn has_key(slots: Seq<Slot>, kb: Seq<u8>) -> bool {
    exists|i: int| 0 <= i < slots.len() && (#[trigger] slots[i]).key@ == kb
}

/// The entry the index stores for `kb`.
spec fn entry_of(slots: Seq<Slot>, kb: Seq<u8>) -> Entry {
    slots[choose|i: int| 0 <= i < slots.len() && (#[trigger] slots[i]).key@ == kb].entry
}

/// No two index slots hold the same key.
spec fn distinct_keys(slots: Seq<Slot>) -> bool {
    forall|i: int, j: int|
        0 <= i < j < slots.len() ==> (#[trigger] slots[i]).key@ != (#[trigger] slots[j]).key@
}

/// The index agrees with the live-record map, key by key.
spec fn index_matches(slots: Seq<Slot>, bm: Map<Seq<u8>, LocV>) -> bool {
    &&& distinct_keys(slots)
    &&& forall|kb: Seq<u8>| #![trigger has_key(slots, kb)] #![trigger bm.contains_key(kb)]
        has_key(slots, kb) <==> bm.contains_key(kb)
    &&& forall|kb: Seq<u8>|
        #[trigger] bm.contains_key(kb) ==> {
            let e = entry_of(slots, kb);
            &&& bm[kb].gen == e.gen
            &&& bm[kb].pos == e.pos as int
            &&& bm[kb].len == e.len as int
        }
}

/// With distinct keys, the entry stored for slot `i`'s key is slot `i`'s entry.
proof fn lemma_entry_at(slots: Seq<Slot>, i: int)
    requires
        distinct_keys(slots),
        0 <= i < slots.len(),
    ensures
        has_key(slots, slots[i].key@),
        entry_of(slots, slots[i].key@) == slots[i].entry,
{
    let kb = slots[i].key@;
    assert(has_key(slots, kb));
    let j = choose|j: int| 0 <= j < slots.len() && (#[trigger] slots[j]).key@ == kb;
    if i < j {
        assert(false);
    } else if j < i {
        assert(false);
    }
}

/// Updating one slot in place changes the referenced sum by the difference
/// of the entry lengths.
proof fn lemma_live_sum_update(s: Seq<Slot>, i: int, x: Slot)
    requires
        0 <= i < s.len(),
    ensures
        live_sum(s.update(i, x)) == live_sum(s) - s[i].entry.len + x.entry.len,
    decreases s.len(),
{
    if i == s.len() - 1 {
        assert(s.update(i, x).drop_last() =~= s.drop_last());
        assert(s.update(i, x).last() == x);
    } else {
        assert(s.update(i, x).drop_last() =~= s.drop_last().update(i, x));
        assert(s.update(i, x).last() == s.last());
        lemma_live_sum_update(s.drop_last(), i, x);
    }
}

/// Appending one slot raises the referenced sum by that entry's length.
proof fn lemma_live_sum_push(s: Seq<Slot>, x: Slot)
    ensures
        live_sum(s.push(x)) == live_sum(s) + x.entry.len,
{
    assert(s.push(x).drop_last() =~= s);
    assert(s.push(x).last() == x);
}

/// Finds the slot holding `key`, if any.
fn find_slot(slots: &Vec<Slot>, key: &Vec<u8>) -> (r: Option<usize>)
    ensures
        match r {
            Some(i) => i < slots@.len() && slots@[i as int].key@ == key@,
            None => !has_key(slots@, key@),
        },
{
    let n = slots.len();
    let mut i: usize = 0;
    while i < n
        invariant
            n == slots@.len(),
            0 <= i <= n,
            forall|j: int| 0 <= j < i ==> (#[trigger] slots@[j]).key@ != key@,
        decreases n - i,
    {
        if bytes_eq(&slots[i].key, key) {
            return Some(i);
        }
        i += 1;
    }
    None
}

/// Binds `key` to `entry` in the index, returning the length of the entry it
/// replaced, if the key was already present.
fn index_put(slots: &mut Vec<Slot>, key: Vec<u8>, entry: Entry) -> (r: Option<usize>)
    requires
        distinct_keys(old(slots)@),
    ensures
        distinct_keys(final(slots)@),
        forall|kb: Seq<u8>|
            #[trigger] has_key(final(slots)@, kb) <==> (has_key(old(slots)@, kb) || kb == key@),
        entry_of(final(slots)@, key@) == entry,
        forall|kb: Seq<u8>|
            kb != key@ && #[trigger] has_key(old(slots)@, kb) ==> entry_of(final(slots)@, kb)
                == entry_of(old(slots)@, kb),
        match r {
            Some(l) => has_key(old(slots)@, key@) && l == entry_of(old(slots)@, key@).len,
            None => !has_key(old(slots)@, key@),
        },
        live_sum(final(slots)@) == live_sum(old(slots)@) + entry.len - (match r {
            Some(l) => l as int,
            None => 0,
        }),
{
    let ghost s0 = slots@;
    match find_slot(slots, &key) {
        Some(i) => {
            let old_len = slots[i].entry.len;
            proof {
                lemma_entry_at(s0, i as int);
                lemma_live_sum_update(s0, i as int, Slot { key, entry });
            }
            slots[i] = Slot { key, entry };
            proof {
                let s1 = slots@;
                assert(s1 == s0.update(i as int, s1[i as int]));
                assert(s1[i as int].key@ == s0[i as int].key@);
                assert(distinct_keys(s1));
                assert forall|kb: Seq<u8>| #[trigger] has_key(s1, kb) implies (has_key(s0, kb) || kb
                    == key@) by {
                    let w = choose|w: int| 0 <= w < s1.len() && (#[trigger] s1[w]).key@ == kb;
                    assert(s0[w].key@ == kb);
                }
                assert forall|kb: Seq<u8>| has_key(s0, kb) implies #[trigger] has_key(s1, kb) by {
                    let w = choose|w: int| 0 <= w < s0.len() && (#[trigger] s0[w]).key@ == kb;
                    if w == i {
                        assert(s1[w].key@ == kb);
                    } else {
                        assert(s1[w].key@ == kb);
                    }
                }
                lemma_entry_at(s1, i as int);
                assert forall|kb: Seq<u8>| kb != key@ && #[trigger] has_key(s0, kb) implies
                    entry_of(s1, kb) == entry_of(s0, kb) by {
                    let w = choose|w: int| 0 <= w < s0.len() && (#[trigger] s0[w]).key@ == kb;
                    assert(w != i);
                    assert(s1[w].key@ == kb);
                    lemma_entry_at(s0, w);
                    lemma_entry_at(s1, w);
                }
            }
            Some(old_len)
        },
        None => {
            proof {
                lemma_live_sum_push(s0, Slot { key, entry });
            }
            slots.push(Slot { key, entry });
            proof {
                let s1 = slots@;
                let n0 = s0.len() as int;
                assert(s1.last() == (Slot { key, entry }));
                assert(forall|j: int| 0 <= j < n0 ==> s1[j] == s0[j]);
                assert forall|i: int, j: int| 0 <= i < j < s1.len() implies (
                #[trigger] s1[i]).key@ != (#[trigger] s1[j]).key@ by {
                    if j == n0 {
                        assert(s1[i] == s0[i]);
                        assert(has_key(s0, s0[i].key@));
                    }
                }
                assert forall|kb: Seq<u8>| #[trigger] has_key(s1, kb) implies (has_key(s0, kb) || kb
                    == key@) by {
                    let w = choose|w: int| 0 <= w < s1.len() && (#[trigger] s1[w]).key@ == kb;
                    if w < n0 {
                        assert(s0[w].key@ == kb);
                    }
                }
                assert forall|kb: Seq<u8>| has_key(s0, kb) implies #[trigger] has_key(s1, kb) by {
                    let w = choose|w: int| 0 <= w < s0.len() && (#[trigger] s0[w]).key@ == kb;
                    assert(s1[w].key@ == kb);
                }
                assert(has_key(s1, key@));
                lemma_entry_at(s1, n0);
                assert forall|kb: Seq<u8>| kb != key@ && #[trigger] has_key(s0, kb) implies
                    entry_of(s1, kb) == entry_of(s0, kb) by {
                    let w = choose|w: int| 0 <= w < s0.len() && (#[trigger] s0[w]).key@ == kb;
                    assert(s1[w].key@ == kb);
                    lemma_entry_at(s0, w);
                    lemma_entry_at(s1, w);
                }
            }
            None
        },
    }
}

/// Evicts `key` from the index, returning the entry it held, if present.
fn index_remove(slots: &mut Vec<Slot>, key: &Vec<u8>) -> (r: Option<Entry>)
    requires
        distinct_keys(old(slots)@),
    ensures
        distinct_keys(final(slots)@),
        forall|kb: Seq<u8>|
            #[trigger] has_key(final(slots)@, kb) <==> (has_key(old(slots)@, kb) && kb != key@),
        forall|kb: Seq<u8>|
            kb != key@ && #[trigger] has_key(old(slots)@, kb) ==> entry_of(final(slots)@, kb)
                == entry_of(old(slots)@, kb),
        match r {
            Some(e) => has_key(old(slots)@, key@) && e == entry_of(old(slots)@, key@),
            None => !has_key(old(slots)@, key@),
        },
        live_sum(final(slots)@) == live_sum(old(slots)@) - (match r {
            Some(e) => e.len as int,
            None => 0,
        }),
{
    let ghost s0 = slots@;
    match find_slot(slots, key) {
        Some(i) => {
            let e = slots[i].entry;
            proof {
                lemma_entry_at(s0, i as int);
                lemma_live_sum_remove(s0, i as int);
                s0.remove_ensures(i as int);
            }
            slots.remove(i);
            proof {
                let s1 = slots@;
                let ii = i as int;
                let n0 = s0.len() as int;
                assert(s1 == s0.remove(ii));
                assert(forall|j: int| 0 <= j < ii ==> #[trigger] s1[j] == s0[j]);
                assert(forall|j: int| ii <= j < n0 - 1 ==> #[trigger] s1[j] == s0[j + 1]);
                assert forall|a: int, b: int| 0 <= a < b < s1.len() implies (
                #[trigger] s1[a]).key@ != (#[trigger] s1[b]).key@ by {
                    let a0 = if a < ii { a } else { a + 1 };
                    let b0 = if b < ii { b } else { b + 1 };
                    assert(s1[a] == s0[a0]);
                    assert(s1[b] == s0[b0]);
                }
                assert forall|kb: Seq<u8>| #[trigger] has_key(s1, kb) implies (has_key(s0, kb) && kb
                    != key@) by {
                    let w = choose|w: int| 0 <= w < s1.len() && (#[trigger] s1[w]).key@ == kb;
                    let w0 = if w < ii { w } else { w + 1 };
                    assert(s1[w] == s0[w0]);
                    assert(has_key(s0, kb));
                    if kb == key@ {
                        assert(s0[w0].key@ == s0[ii].key@);
                        assert(w0 != ii);
                        assert(false);
                    }
                }
                assert forall|kb: Seq<u8>| has_key(s0, kb) && kb != key@ implies
                    #[trigger] has_key(s1, kb) by {
                    let w = choose|w: int| 0 <= w < s0.len() && (#[trigger] s0[w]).key@ == kb;
                    assert(w != ii);
                    let w1 = if w < ii { w } else { w - 1 };
                    assert(s1[w1] == s0[w]);
                    assert(s1[w1].key@ == kb);
                }
                assert forall|kb: Seq<u8>| kb != key@ && #[trigger] has_key(s0, kb) implies
                    entry_of(s1, kb) == entry_of(s0, kb) by {
                    let w = choose|w: int| 0 <= w < s0.len() && (#[trigger] s0[w]).key@ == kb;
                    assert(w != ii);
                    let w1 = if w < ii { w } else { w - 1 };
                    assert(s1[w1] == s0[w]);
                    lemma_entry_at(s0, w);
                    lemma_entry_at(s1, w1);
                }
            }
            Some(e)
        },
        None => None,
    }
}

/// The UTF-8 bytes of a string, as a fresh vector.
fn str_bytes(s: &String) -> (r: Vec<u8>)
    ensures
        r@ == encode_utf8(s@),
{
    let mut r: Vec<u8> = Vec::new();
    r.extend_from_slice(s.as_str().as_bytes());
    proof {
        assert(r@ =~= encode_utf8(s@));
    }
    r
}

/// Relies on `str::from_utf8`: it succeeds exactly on valid UTF-8 input.
#[verifier::external_body]
fn is_utf8(b: &Vec<u8>) -> (r: bool)
    ensures
        r == valid_utf8(b@),
{
    core::str::from_utf8(b.as_slice()).is_ok()
}

/// Relies on `String::from_utf8`: it succeeds exactly on valid UTF-8 input
/// and yields the string those bytes encode.
#[verifier::external_body]
fn string_from_utf8(b: Vec<u8>) -> (r: Option<String>)
    ensures
        valid_utf8(b@) ==> r is Some && r.unwrap()@ == decode_utf8(b@),
        !valid_utf8(b@) ==> r is None,
{
    String::from_utf8(b).ok()
}

/// Finds the closed generation numbered `gen`, if present.
fn find_log(past: &Vec<LogFile>, gen: u64) -> (r: Option<usize>)
    ensures
        match r {
            Some(j) => j < past@.len() && past@[j as int].gen == gen,
            None => forall|j: int| 0 <= j < past@.len() ==> (#[trigger] past@[j]).gen != gen,
        },
{
    let n = past.len();
    let mut j: usize = 0;
    while j < n
        invariant
            n == past@.len(),
            0 <= j <= n,
            forall|jj: int| 0 <= jj < j ==> (#[trigger] past@[jj]).gen != gen,
        decreases n - j,
    {
        if past[j].gen == gen {
            return Some(j);
        }
        j += 1;
    }
    None
}

/// Appending one record to the active generation replays to the fold of
/// that record into the previous model, and grows the store by its length.
proof fn lemma_store_append(past: Seq<LogFile>, gen: u64, a0: Seq<u8>, c: CmdB)
    requires
        crate::codec::cmd_ok(c),
        log_model(logs_view(past).push(LogV { gen, data: a0 })) is Some,
    ensures
        log_model(logs_view(past).push(LogV { gen, data: a0 + enc_cmd(c) })) == Some(
            apply_cmd(
                gen,
                a0.len() as int,
                enc_cmd(c).len() as int,
                log_model(logs_view(past).push(LogV { gen, data: a0 })).unwrap(),
                c,
            ),
        ),
        total_len(logs_view(past).push(LogV { gen, data: a0 + enc_cmd(c) })) == total_len(
            logs_view(past).push(LogV { gen, data: a0 }),
        ) + enc_cmd(c).len(),
{
    let p = logs_view(past);
    let l0 = LogV { gen, data: a0 };
    let l1 = LogV { gen, data: a0 + enc_cmd(c) };
    crate::replay::lemma_replay_logs_snoc(p, l0, Map::empty());
    let mpre = replay_logs(p, Map::empty()).unwrap();
    crate::replay::lemma_replay_append_record(gen, a0, 0, mpre, c);
    crate::replay::lemma_replay_logs_snoc(p, l1, Map::empty());
    assert(p.push(l0).drop_last() =~= p);
    assert(p.push(l1).drop_last() =~= p);
    assert(total_len(p.push(l1)) == total_len(p) + a0.len() + enc_cmd(c).len());
}

/// The persistent key/value storage engine.
///
/// Older generations are read-only; all appends go to the active generation.
/// The index references, for every live key, the exact bytes of its newest
/// `Set` record, and replaying the generations in order always rebuilds the
/// same string map that the engine reports.
pub struct KvStore {
    past: Vec<LogFile>,
    active_gen: u64,
    active: Vec<u8>,
    slots: Vec<Slot>,
    uncompacted: u64,
}

impl KvStore {
    /// The store's generations, oldest first; the last one is active.
    pub closed spec fn logs_v(self) -> Seq<LogV> {
        logs_view(self.past@).push(LogV { gen: self.active_gen, data: self.active@ })
    }

    /// The byte-level live-record map the generations replay to.
    pub closed spec fn bmodel(self) -> Map<Seq<u8>, LocV> {
        log_model(self.logs_v()).unwrap()
    }

    /// The string map this store holds: what `get` observes.
    pub closed spec fn kv(self) -> Map<Seq<char>, Seq<char>> {
        bm_to_kv(self.bmodel())
    }

    /// The sum of the generations' sizes in bytes.
    pub closed spec fn total_bytes(self) -> int {
        total_len(self.logs_v())
    }

    /// The bytes referenced by the index.
    pub closed spec fn live_bytes(self) -> int {
        live_sum(self.slots@)
    }

    /// Bytes on disk not referenced by the index.
    pub open spec fn stale_bytes(self) -> int {
        self.total_bytes() - self.live_bytes()
    }

    /// The generation numbers are strictly increasing, the active one last.
    spec fn gens_sorted(self) -> bool {
        forall|i: int, j: int|
            0 <= i < j < self.logs_v().len() ==> (#[trigger] self.logs_v()[i].gen) < (
            #[trigger] self.logs_v()[j].gen)
    }

    /// The index agrees with the replayed model, entry by entry.
    spec fn index_ok(self) -> bool {
        index_matches(self.slots@, self.bmodel())
    }

    /// The stale-byte counter is exact below the compaction threshold and at
    /// least the threshold whenever the true stale total is.
    spec fn counter_ok(self) -> bool {
        counter_rel(self.uncompacted, self.stale_bytes())
    }

    /// The store's internal invariant.
    pub closed spec fn wf(self) -> bool {
        &&& self.active_gen < u64::MAX
        &&& log_model(self.logs_v()) is Some
        &&& all_live_utf8(self.bmodel())
        &&& self.gens_sorted()
        &&& self.index_ok()
        &&& self.counter_ok()
    }

    /// Opens an engine over the given closed generations, oldest first, as
    /// read from the store's directory. Replays them into a fresh index and
    /// opens a new, empty active generation above the newest one. Succeeds
    /// exactly when every generation is a clean sequence of records and every
    /// live value reachable through a UTF-8 key is itself UTF-8; the engine
    /// then observes exactly the string map the generations replay to.
    pub fn open(past: Vec<LogFile>) -> (r: Result<KvStore, KvsError>)
        requires
            forall|i: int, j: int|
                0 <= i < j < past@.len() ==> (#[trigger] past@[i].gen) < (#[trigger] past@[j].gen),
            past@.len() == 0 || past@.last().gen < u64::MAX - 1,
        ensures
            match r {
                Ok(s) => {
                    &&& s.wf()
                    &&& log_model(logs_view(past@)) is Some
                    &&& all_live_utf8(log_model(logs_view(past@)).unwrap())
                    &&& s.kv() == bm_to_kv(log_model(logs_view(past@)).unwrap())
                },
                Err(e) => {
                    &&& (e is Codec <==> log_model(logs_view(past@)) is None)
                    &&& (e is Utf8 <==> log_model(logs_view(past@)) is Some && !all_live_utf8(
                        log_model(logs_view(past@)).unwrap(),
                    ))
                    &&& (e is Codec || e is Utf8)
                },
            },
    {
        let lv = Ghost(logs_view(past@));
        let n = past.len();
        let mut slots: Vec<Slot> = Vec::new();
        let mut uncomp: u64 = 0;
        let ghost mut bm: Map<Seq<u8>, LocV> = Map::empty();
        let ghost mut consumed: int = 0;
        let mut g: usize = 0;
        proof {
            assert(lv@.skip(0) =~= lv@);
            assert(lv@.take(0) =~= Seq::<LogV>::empty());
        }
        while g < n
            invariant
                n == past@.len(),
                lv@ == logs_view(past@),
                0 <= g <= n,
                log_model(lv@) == replay_logs(lv@.skip(g as int), bm),
                index_matches(slots@, bm),
                consumed == total_len(lv@.take(g as int)),
                counter_rel(uncomp, consumed - live_sum(slots@)),
            decreases n - g,
        {
            let ghost gen = past@[g as int].gen;
            let ghost gdata = past@[g as int].data@;
            let data_len = past[g].data.len();
            proof {
                assert(lv@.skip(g as int)[0] == lv@[g as int]);
                assert(lv@[g as int] == past@[g as int]@);
                assert(lv@.skip(g as int).drop_first() =~= lv@.skip(g as int + 1));
            }
            let mut pos: usize = 0;
            while pos < data_len
                invariant
                    n == past@.len(),
                    lv@ == logs_view(past@),
                    0 <= g < n,
                    gen == past@[g as int].gen,
                    gdata == past@[g as int].data@,
                    data_len == gdata.len(),
                    0 <= pos <= data_len,
                    log_model(lv@) == (match replay_from(gen, gdata, pos as int, bm) {
                        Option::Some(m2) => replay_logs(lv@.skip(g as int + 1), m2),
                        Option::None => None::<Map<Seq<u8>, LocV>>,
                    }),
                    index_matches(slots@, bm),
                    consumed == total_len(lv@.take(g as int)),
                    counter_rel(uncomp, consumed + pos - live_sum(slots@)),
                decreases data_len - pos,
            {
                match decode_at(&past[g].data, pos) {
                    Err(_) => {
                        proof {
                            assert(replay_from(gen, gdata, pos as int, bm) is None);
                            assert(log_model(lv@) is None);
                        }
                        return Err(KvsError::Codec("malformed record on replay".to_owned()));
                    },
                    Ok(None) => {
                        proof {
                            assert(false);
                        }
                        return Err(KvsError::UnexpectedRecord);
                    },
                    Ok(Some((cmd, cnt))) => {
                        proof {
                            lemma_dec_cmd_some(gdata, pos as int, cmd@, cnt as int);
                            assert(replay_from(gen, gdata, pos as int, bm) == replay_from(
                                gen,
                                gdata,
                                pos + cnt,
                                apply_cmd(gen, pos as int, cnt as int, bm, cmd@),
                            ));
                        }
                        match cmd {
                            Command::Put { key, value } => {
                                let ghost kbv = key@;
                                let ghost vbv = value@;
                                let entry = Entry { gen: past[g].gen, pos, len: cnt };
                                let replaced = index_put(&mut slots, key, entry);
                                proof {
                                    bm = bm.insert(
                                        kbv,
                                        LocV {
                                            gen,
                                            pos: pos as int,
                                            len: cnt as int,
                                            val: vbv,
                                        },
                                    );
                                }
                                match replaced {
                                    Some(old_len) => {
                                        uncomp = sat_add(uncomp, old_len as u64);
                                    },
                                    None => {},
                                }
                            },
                            Command::Remove { key } => {
                                let replaced = index_remove(&mut slots, &key);
                                proof {
                                    bm = bm.remove(key@);
                                }
                                uncomp = sat_add(uncomp, cnt as u64);
                                match replaced {
                                    Some(e) => {
                                        uncomp = sat_add(uncomp, e.len as u64);
                                    },
                                    None => {},
                                }
                            },
                        }
                        pos = pos + cnt;
                    },
                }
            }
            proof {
                assert(replay_from(gen, gdata, data_len as int, bm) == Some(bm));
                assert(lv@.take(g as int + 1).drop_last() =~= lv@.take(g as int));
                assert(lv@.take(g as int + 1).last() == lv@[g as int]);
                consumed = consumed + data_len;
            }
            g = g + 1;
        }
        proof {
            assert(lv@.skip(n as int) =~= Seq::<LogV>::empty());
            assert(log_model(lv@) == Some(bm));
            assert(lv@.take(n as int) =~= lv@);
        }
        // Validate that every live value reachable through a UTF-8 key is UTF-8.
        let ns = slots.len();
        let mut i: usize = 0;
        while i < ns
            invariant
                n == past@.len(),
                lv@ == logs_view(past@),
                ns == slots@.len(),
                0 <= i <= ns,
                forall|a: int, b: int|
                    0 <= a < b < past@.len() ==> (#[trigger] past@[a].gen) < (
                    #[trigger] past@[b].gen),
                log_model(lv@) == Some(bm),
                index_matches(slots@, bm),
                forall|j: int|
                    0 <= j < i ==> (valid_utf8((#[trigger] slots@[j]).key@) ==> valid_utf8(
                        bm[slots@[j].key@].val,
                    )),
            decreases ns - i,
        {
            if is_utf8(&slots[i].key) {
                let entry = slots[i].entry;
                proof {
                    lemma_entry_at(slots@, i as int);
                    assert(bm.contains_key(slots@[i as int].key@));
                    lemma_replay_logs_locs(lv@, Map::empty());
                    assert(replay_logs(lv@, Map::empty()) == Some(bm));
                    assert(replay_logs(lv@, Map::empty()).unwrap().contains_key(
                        slots@[i as int].key@,
                    ));
                    assert(!Map::<Seq<u8>, LocV>::empty().contains_key(slots@[i as int].key@));
                    assert(loc_in_logs(slots@[i as int].key@, bm[slots@[i as int].key@], lv@));
                }
                let ghost kb = slots@[i as int].key@;
                let ghost loc = bm[kb];
                proof {
                    assert(loc.gen == entry.gen && loc.pos == entry.pos as int && loc.len
                        == entry.len as int);
                }
                let ghost w = choose|w: int|
                    0 <= w < lv@.len() && loc_in_log(kb, loc, #[trigger] lv@[w]);
                match find_log(&past, entry.gen) {
                    Some(j) => {
                        proof {
                            assert(past@[j as int]@ == lv@[j as int]);
                            assert(loc_in_log(kb, loc, lv@[w]));
                            assert(lv@[w] == past@[w]@);
                            if j as int != w {
                                assert(lv@[j as int].gen == entry.gen);
                                assert(lv@[w].gen == loc.gen);
                                assert(past@[j as int].gen == past@[w].gen);
                                if (j as int) < w {
                                    assert(past@[j as int].gen < past@[w].gen);
                                } else {
                                    assert(past@[w].gen < past@[j as int].gen);
                                }
                                assert(false);
                            }
                            lemma_dec_of_enc(
                                lv@[w].data,
                                loc.pos,
                                CmdB::SetB { key: kb, value: loc.val },
                            );
                        }
                        match decode_at(&past[j].data, entry.pos) {
                            Ok(Some((Command::Put { key: _k2, value: v2 }, _n2))) => {
                                if !is_utf8(&v2) {
                                    proof {
                                        assert(!all_live_utf8(bm));
                                    }
                                    return Err(KvsError::Utf8);
                                }
                            },
                            _ => {
                                proof {
                                    assert(false);
                                }
                                return Err(KvsError::UnexpectedRecord);
                            },
                        }
                    },
                    None => {
                        proof {
                            assert(lv@[w].gen == loc.gen);
                            if w < n as int {
                                assert(past@[w].gen == loc.gen);
                            }
                            assert(false);
                        }
                        return Err(KvsError::UnexpectedRecord);
                    },
                }
            }
            i = i + 1;
        }
        proof {
            assert forall|kb: Seq<u8>|
                (#[trigger] bm.contains_key(kb)) && valid_utf8(kb) implies valid_utf8(
                bm[kb].val,
            ) by {
                assert(has_key(slots@, kb));
                let w = choose|w: int| 0 <= w < slots@.len() && (#[trigger] slots@[w]).key@ == kb;
                lemma_entry_at(slots@, w);
            }
        }
        let active_gen: u64 = if n == 0 {
            1
        } else {
            past[n - 1].gen + 1
        };
        let store = KvStore { past, active_gen, active: Vec::new(), slots, uncompacted: uncomp };
        proof {
            let full = store.logs_v();
            assert(full.drop_last() =~= lv@);
            assert(full.last() == (LogV { gen: active_gen, data: Seq::<u8>::empty() }));
            assert(full =~= lv@.push(LogV { gen: active_gen, data: Seq::<u8>::empty() }));
            crate::replay::lemma_replay_logs_snoc(
                lv@,
                LogV { gen: active_gen, data: Seq::<u8>::empty() },
                Map::empty(),
            );
            assert(replay_from(active_gen, Seq::<u8>::empty(), 0, bm) == Some(bm));
            assert(log_model(full) == Some(bm));
            assert(store.bmodel() == bm);
            assert forall|a: int, b: int| 0 <= a < b < full.len() implies (
            #[trigger] full[a].gen) < (#[trigger] full[b].gen) by {
                if b == full.len() - 1 {
                    if n > 0 && a < n as int {
                        if a < n as int - 1 {
                            assert(past@[a].gen < past@[n as int - 1].gen);
                        }
                        assert(full[a].gen == past@[a].gen);
                    }
                }
            }
            assert(store.gens_sorted());
            assert(total_len(full) == total_len(lv@) + 0);
            assert(store.total_bytes() == consumed);
            assert(store.counter_ok());
            assert(store.wf());
        }
        Ok(store)
    }

    /// The bytes of the generation numbered `gen`.
    fn log_data(&self, gen: u64) -> (r: &Vec<u8>)
        requires
            self.wf(),
            exists|w: int|
                0 <= w < self.logs_v().len() && (#[trigger] self.logs_v()[w]).gen == gen,
        ensures
            forall|w: int|
                0 <= w < self.logs_v().len() && (#[trigger] self.logs_v()[w]).gen == gen ==> r@
                    == self.logs_v()[w].data,
    {
        let ghost lv = self.logs_v();
        let ghost last = lv.len() - 1;
        if gen == self.active_gen {
            proof {
                assert forall|w: int| 0 <= w < lv.len() && (#[trigger] lv[w]).gen == gen implies
                    self.active@ == lv[w].data by {
                    if w < last {
                        assert(lv[w].gen < lv[last].gen);
                    }
                    assert(lv[last] == (LogV { gen: self.active_gen, data: self.active@ }));
                }
            }
            &self.active
        } else {
            match find_log(&self.past, gen) {
                Some(j) => {
                    proof {
                        assert(lv[j as int] == self.past@[j as int]@);
                        assert forall|w: int| 0 <= w < lv.len() && (#[trigger] lv[w]).gen == gen
                            implies self.past@[j as int].data@ == lv[w].data by {
                            if w != j as int {
                                if w < j as int {
                                    assert(lv[w].gen < lv[j as int].gen);
                                } else {
                                    assert(lv[j as int].gen < lv[w].gen);
                                }
                            }
                        }
                    }
                    &self.past[j].data
                },
                None => {
                    proof {
                        let w = choose|w: int|
                            0 <= w < lv.len() && (#[trigger] lv[w]).gen == gen;
                        assert(lv[last].gen == self.active_gen);
                        assert(w != last);
                        assert(lv[w] == self.past@[w]@);
                        assert(self.past@[w].gen == gen);
                        assert(false);
                    }
                    vstd::pervasive::unreached()
                },
            }
        }
    }

    /// Gets the value of `key`, or nothing when the key holds no value.
    ///
    /// On a well-formed store this never fails: the index points every live
    /// key at the exact `Set` record that holds its value.
    pub fn get(&self, key: String) -> (r: Result<Option<String>, KvsError>)
        requires
            self.wf(),
        ensures
            match r {
                Ok(opt) => match opt {
                    Some(v) => self.kv().contains_key(key@) && v@ == self.kv()[key@],
                    None => !self.kv().contains_key(key@),
                },
                Err(_) => false,
            },
    {
        let kb = str_bytes(&key);
        match find_slot(&self.slots, &kb) {
            None => {
                proof {
                    assert(!self.bmodel().contains_key(encode_utf8(key@)));
                }
                Ok(None)
            },
            Some(i) => {
                let entry = self.slots[i].entry;
                let ghost lv = self.logs_v();
                let ghost loc = self.bmodel()[kb@];
                proof {
                    lemma_entry_at(self.slots@, i as int);
                    assert(self.bmodel().contains_key(kb@));
                    lemma_replay_logs_locs(lv, Map::empty());
                    assert(replay_logs(lv, Map::empty()) == Some(self.bmodel()));
                    assert(replay_logs(lv, Map::empty()).unwrap().contains_key(kb@));
                    assert(!Map::<Seq<u8>, LocV>::empty().contains_key(kb@));
                    assert(loc_in_logs(kb@, loc, lv));
                    assert(loc.gen == entry.gen && loc.pos == entry.pos as int && loc.len
                        == entry.len as int);
                }
                let ghost w = choose|w: int|
                    0 <= w < lv.len() && loc_in_log(kb@, loc, #[trigger] lv[w]);
                let data = self.log_data(entry.gen);
                proof {
                    assert(lv[w].gen == entry.gen);
                    assert(data@ == lv[w].data);
                    lemma_dec_of_enc(lv[w].data, loc.pos, CmdB::SetB { key: kb@, value: loc.val });
                    encode_utf8_valid_utf8(key@);
                    assert(valid_utf8(loc.val));
                }
                match decode_at(data, entry.pos) {
                    Ok(Some((Command::Put { key: _rec_key, value: rec_val }, _n))) => {
                        proof {
                            assert(rec_val@ == loc.val);
                        }
                        match string_from_utf8(rec_val) {
                            Some(v) => {
                                proof {
                                    assert(self.kv()[key@] == decode_utf8(loc.val));
                                }
                                Ok(Some(v))
                            },
                            None => {
                                proof {
                                    assert(false);
                                }
                                Err(KvsError::Utf8)
                            },
                        }
                    },
                    _ => {
                        proof {
                            assert(false);
                        }
                        Err(KvsError::UnexpectedRecord)
                    },
                }
            },
        }
    }

    /// Sets `key` to `value`, overwriting any previous value: appends a `Set`
    /// record to the active generation and points the index at it. Always
    /// succeeds.
    pub fn set(&mut self, key: String, value: String) -> (r: Result<(), KvsError>)
        requires
            old(self).wf(),
        ensures
            final(self).wf(),
            r is Ok,
            final(self).kv() == old(self).kv().insert(key@, value@),
    {
        let kb = str_bytes(&key);
        let vb = str_bytes(&value);
        let ghost kbv = kb@;
        let ghost vbv = vb@;
        let ghost c = CmdB::SetB { key: kbv, value: vbv };
        let ghost a0 = self.active@;
        let ghost bm0 = self.bmodel();
        let pos = self.active.len();
        append_set(&mut self.active, &kb, &vb);
        let len = self.active.len() - pos;
        proof {
            lemma_store_append(self.past@, self.active_gen, a0, c);
            assert(self.logs_v() =~= logs_view(self.past@).push(
                LogV { gen: self.active_gen, data: a0 + enc_cmd(c) },
            ));
            assert(old(self).logs_v() =~= logs_view(self.past@).push(
                LogV { gen: self.active_gen, data: a0 },
            ));
            assert(self.bmodel() == bm0.insert(
                kbv,
                LocV { gen: self.active_gen, pos: pos as int, len: len as int, val: vbv },
            ));
        }
        let entry = Entry { gen: self.active_gen, pos, len };
        let replaced = index_put(&mut self.slots, kb, entry);
        match replaced {
            Some(old_len) => {
                self.uncompacted = sat_add(self.uncompacted, old_len as u64);
            },
            None => {},
        }
        proof {
            let bm1 = self.bmodel();
            assert forall|i: int, j: int| 0 <= i < j < self.logs_v().len() implies (
            #[trigger] self.logs_v()[i].gen) < (#[trigger] self.logs_v()[j].gen) by {
                assert(self.logs_v()[i].gen == old(self).logs_v()[i].gen);
                assert(self.logs_v()[j].gen == old(self).logs_v()[j].gen);
                assert(old(self).logs_v()[i].gen < old(self).logs_v()[j].gen);
            }
            encode_utf8_valid_utf8(key@);
            encode_utf8_valid_utf8(value@);
            assert forall|kb2: Seq<u8>|
                (#[trigger] bm1.contains_key(kb2)) && valid_utf8(kb2) implies valid_utf8(
                bm1[kb2].val,
            ) by {
                if kb2 != kbv {
                    assert(bm0.contains_key(kb2) && bm1[kb2] == bm0[kb2]);
                }
            }
            lemma_bm_to_kv_insert(
                bm0,
                key@,
                value@,
                LocV { gen: self.active_gen, pos: pos as int, len: len as int, val: vbv },
            );
            assert(self.kv() == old(self).kv().insert(key@, value@));
            assert(self.wf());
        }
        if self.uncompacted >= COMPACTION_THRESHOLD && self.active_gen <= u64::MAX - 3 {
            self.compact();
        }
        Ok(())
    }

    /// Removes `key`: appends a `Remove` record and evicts the index entry.
    /// Fails with `KeyNotFound`, appending nothing, exactly when the key
    /// holds no value.
    pub fn remove(&mut self, key: String) -> (r: Result<(), KvsError>)
        requires
            old(self).wf(),
        ensures
            final(self).wf(),
            r is Ok <==> old(self).kv().contains_key(key@),
            match r {
                Ok(_) => final(self).kv() == old(self).kv().remove(key@),
                Err(e) => e is KeyNotFound && *final(self) == *old(self),
            },
    {
        let kb = str_bytes(&key);
        let present = match find_slot(&self.slots, &kb) {
            Some(_) => true,
            None => false,
        };
        if !present {
            proof {
                assert(!self.bmodel().contains_key(encode_utf8(key@)));
            }
            return Err(KvsError::KeyNotFound);
        }
        let ghost kbv = kb@;
        let ghost c = CmdB::RmB { key: kbv };
        let ghost a0 = self.active@;
        let ghost bm0 = self.bmodel();
        let pos = self.active.len();
        append_remove(&mut self.active, &kb);
        let len = self.active.len() - pos;
        proof {
            lemma_store_append(self.past@, self.active_gen, a0, c);
            assert(self.logs_v() =~= logs_view(self.past@).push(
                LogV { gen: self.active_gen, data: a0 + enc_cmd(c) },
            ));
            assert(old(self).logs_v() =~= logs_view(self.past@).push(
                LogV { gen: self.active_gen, data: a0 },
            ));
            assert(self.bmodel() == bm0.remove(kbv));
        }
        let removed = index_remove(&mut self.slots, &kb);
        self.uncompacted = sat_add(self.uncompacted, len as u64);
        match removed {
            Some(e) => {
                self.uncompacted = sat_add(self.uncompacted, e.len as u64);
            },
            None => {
                proof {
                    assert(false);
                }
            },
        }
        proof {
            let bm1 = self.bmodel();
            assert forall|i: int, j: int| 0 <= i < j < self.logs_v().len() implies (
            #[trigger] self.logs_v()[i].gen) < (#[trigger] self.logs_v()[j].gen) by {
                assert(self.logs_v()[i].gen == old(self).logs_v()[i].gen);
                assert(self.logs_v()[j].gen == old(self).logs_v()[j].gen);
                assert(old(self).logs_v()[i].gen < old(self).logs_v()[j].gen);
            }
            assert forall|kb2: Seq<u8>|
                (#[trigger] bm1.contains_key(kb2)) && valid_utf8(kb2) implies valid_utf8(
                bm1[kb2].val,
            ) by {
                assert(bm0.contains_key(kb2) && bm1[kb2] == bm0[kb2]);
            }
            lemma_bm_to_kv_remove(bm0, key@);
            assert(self.kv() == old(self).kv().remove(key@));
            assert(self.wf());
        }
        Ok(())
    }

    /// Copies every live record into a fresh generation, retires all older
    /// ones, and opens a new empty active generation above it. Every key
    /// keeps its value, the store takes no more space than before, no stale
    /// bytes remain, and every live record now sits at or above the
    /// compaction generation.
    #[verifier::loop_isolation(false)]
    fn compact(&mut self)
        requires
            old(self).wf(),
            old(self).active_gen <= u64::MAX - 3,
        ensures
            final(self).wf(),
            final(self).kv() == old(self).kv(),
            final(self).total_bytes() <= old(self).total_bytes(),
            final(self).stale_bytes() == 0,
            forall|kb: Seq<u8>|
                #[trigger] final(self).bmodel().contains_key(kb) ==> final(self).bmodel()[kb].gen
                    > old(self).active_gen,
    {
        let cg = self.active_gen + 1;
        let ng = self.active_gen + 2;
        let ghost bm0 = self.bmodel();
        let ghost lv0 = self.logs_v();
        proof {
            lemma_replay_logs_locs(lv0, Map::empty());
            assert(replay_logs(lv0, Map::empty()) == Some(bm0));
        }
        let ns = self.slots.len();
        let mut out: Vec<u8> = Vec::new();
        let mut new_slots: Vec<Slot> = Vec::new();
        let ghost mut bm1: Map<Seq<u8>, LocV> = Map::empty();
        let mut i: usize = 0;
        proof {
            assert(self.slots@.take(0) =~= Seq::<Slot>::empty());
        }
        while i < ns
            invariant
                0 <= i <= ns,
                replay_from(cg, out@, 0, Map::empty()) == Some(bm1),
                forall|kb: Seq<u8>| #![trigger bm1.contains_key(kb)]
                    bm1.contains_key(kb) <==> has_key(self.slots@.take(i as int), kb),
                forall|kb: Seq<u8>|
                    #[trigger] bm1.contains_key(kb) ==> bm0.contains_key(kb) && bm1[kb].val
                        == bm0[kb].val && bm1[kb].gen == cg,
                index_matches(new_slots@, bm1),
                out@.len() == live_sum(self.slots@.take(i as int)),
                live_sum(new_slots@) == out@.len(),
            decreases ns - i,
        {
            let entry = self.slots[i].entry;
            let ghost kb = self.slots@[i as int].key@;
            proof {
                lemma_entry_at(self.slots@, i as int);
                assert(bm0.contains_key(kb));
                assert(replay_logs(lv0, Map::empty()).unwrap().contains_key(kb));
                assert(!Map::<Seq<u8>, LocV>::empty().contains_key(kb));
                assert(loc_in_logs(kb, bm0[kb], lv0));
            }
            let ghost loc = bm0[kb];
            let ghost w = choose|w: int| 0 <= w < lv0.len() && loc_in_log(kb, loc, #[trigger] lv0[w]);
            proof {
                assert(loc.gen == entry.gen && loc.pos == entry.pos as int && loc.len
                    == entry.len as int);
                assert(lv0[w].gen == entry.gen);
            }
            let data = self.log_data(entry.gen);
            proof {
                assert(data@ == lv0[w].data);
                assert(entry.pos + entry.len <= data@.len());
            }
            let key_copy = copy_range(&self.slots[i].key, 0, self.slots[i].key.len());
            let new_pos = out.len();
            let ghost out0 = out@;
            let dlen = data.len();
            proof {
                assert(entry.pos + entry.len <= dlen);
            }
            out.extend_from_slice(&data.as_slice()[entry.pos..entry.pos + entry.len]);
            proof {
                let c = CmdB::SetB { key: kb, value: loc.val };
                assert(out@ =~= out0 + enc_cmd(c));
                crate::replay::lemma_replay_append_record(cg, out0, 0, Map::empty(), c);
                assert(key_copy@ =~= kb);
                bm1 = bm1.insert(
                    kb,
                    LocV { gen: cg, pos: new_pos as int, len: entry.len as int, val: loc.val },
                );
                assert(replay_from(cg, out@, 0, Map::empty()) == Some(bm1));
            }
            let replaced = index_put(
                &mut new_slots,
                key_copy,
                Entry { gen: cg, pos: new_pos, len: entry.len },
            );
            proof {
                match replaced {
                    Some(_) => {
                        assert(has_key(self.slots@.take(i as int), kb));
                        let jj = choose|jj: int|
                            0 <= jj < self.slots@.take(i as int).len() && (#[trigger] self.slots@.take(
                                i as int,
                            )[jj]).key@ == kb;
                        assert(self.slots@[jj].key@ == kb);
                        assert(false);
                    },
                    None => {},
                }
                assert forall|kb2: Seq<u8>| #![trigger bm1.contains_key(kb2)]
                    bm1.contains_key(kb2) <==> has_key(self.slots@.take(i as int + 1), kb2) by {
                    if bm1.contains_key(kb2) {
                        if kb2 == kb {
                            assert(self.slots@.take(i as int + 1)[i as int].key@ == kb);
                            assert(has_key(self.slots@.take(i as int + 1), kb2));
                        } else {
                            let jj = choose|jj: int|
                                0 <= jj < self.slots@.take(i as int).len() && (
                                #[trigger] self.slots@.take(i as int)[jj]).key@ == kb2;
                            assert(self.slots@.take(i as int + 1)[jj].key@ == kb2);
                        }
                    }
                    if has_key(self.slots@.take(i as int + 1), kb2) {
                        let jj = choose|jj: int|
                            0 <= jj < self.slots@.take(i as int + 1).len() && (
                            #[trigger] self.slots@.take(i as int + 1)[jj]).key@ == kb2;
                        if jj == i as int {
                        } else {
                            assert(self.slots@.take(i as int)[jj].key@ == kb2);
                        }
                    }
                }
                assert(self.slots@.take(i as int + 1).drop_last() =~= self.slots@.take(i as int));
                assert(self.slots@.take(i as int + 1).last() == self.slots@[i as int]);
                assert(live_sum(self.slots@.take(i as int + 1)) == live_sum(
                    self.slots@.take(i as int),
                ) + entry.len);
            }
            i = i + 1;
        }
        proof {
            assert(self.slots@.take(ns as int) =~= self.slots@);
            assert forall|kb: Seq<u8>| #[trigger] bm0.contains_key(kb) implies bm1.contains_key(
                kb,
            ) by {
                assert(has_key(self.slots@, kb));
            }
        }
        let ghost old_total = self.total_bytes();
        let ghost old_live = self.live_bytes();
        self.past = Vec::new();
        self.past.push(LogFile { gen: cg, data: out });
        self.active_gen = ng;
        self.active = Vec::new();
        self.slots = new_slots;
        self.uncompacted = 0;
        proof {
            let lv1 = self.logs_v();
            assert(logs_view(self.past@) =~= seq![LogV { gen: cg, data: self.past@[0].data@ }]);
            assert(lv1 =~= seq![
                LogV { gen: cg, data: self.past@[0].data@ },
                LogV { gen: ng, data: Seq::<u8>::empty() },
            ]);
            assert(lv1[0].data == self.past@[0].data@);
            assert(replay_from(cg, lv1[0].data, 0, Map::empty()) == Some(bm1));
            assert(lv1.drop_first() =~= seq![LogV { gen: ng, data: Seq::<u8>::empty() }]);
            assert(replay_from(ng, Seq::<u8>::empty(), 0, bm1) == Some(bm1));
            assert(replay_logs(lv1.drop_first(), bm1) == replay_logs(
                lv1.drop_first().drop_first(),
                bm1,
            ));
            assert(lv1.drop_first().drop_first() =~= Seq::<LogV>::empty());
            assert(log_model(lv1) == Some(bm1));
            assert(self.bmodel() == bm1);
            // generations are ordered and the index matches the model
            assert(self.gens_sorted());
            assert(self.index_ok());
            // sizes: the new store holds exactly the live bytes
            let single = seq![LogV { gen: cg, data: self.past@[0].data@ }];
            assert(lv1.drop_last() =~= single);
            assert(single.drop_last() =~= Seq::<LogV>::empty());
            assert(single.len() == 1);
            assert(single.last() == (LogV { gen: cg, data: self.past@[0].data@ }));
            assert(total_len(Seq::<LogV>::empty()) == 0);
            assert(total_len(single.drop_last()) == 0);
            assert(total_len(single) == self.past@[0].data@.len());
            assert(lv1.last().data.len() == 0);
            assert(total_len(lv1) == total_len(single) + 0);
            assert(total_len(lv1) == self.past@[0].data@.len());
            assert(self.total_bytes() == old_live);
            assert(old_total - old_live >= 0);
            assert(self.stale_bytes() == 0);
            assert(self.counter_ok());
            // every value survives unchanged
            assert forall|kb: Seq<u8>|
                (#[trigger] bm1.contains_key(kb)) && valid_utf8(kb) implies valid_utf8(
                bm1[kb].val,
            ) by {
                assert(bm0.contains_key(kb));
            }
            assert(self.wf());
            assert forall|k: Seq<char>| bm_to_kv(bm1).contains_key(k) <==> bm_to_kv(
                bm0,
            ).contains_key(k) by {}
            assert forall|k: Seq<char>| #[trigger] bm_to_kv(bm1).contains_key(k) implies bm_to_kv(
                bm1,
            )[k] == bm_to_kv(bm0)[k] by {
                assert(bm1[encode_utf8(k)].val == bm0[encode_utf8(k)].val);
            }
            assert(bm_to_kv(bm1) =~= bm_to_kv(bm0));
            assert(self.kv() == old(self).kv());
        }
    }

    /// A copy of the store's generations, oldest first, the active one last:
    /// the files that sit in the store's directory. Opening an engine over
    /// exactly these generations yields the same string map, since the map is
    /// determined by the generations' bytes alone.
    #[verifier::loop_isolation(false)]
    pub fn logs(&self) -> (r: Vec<LogFile>)
        requires
            self.wf(),
        ensures
            logs_view(r@) == self.logs_v(),
            forall|i: int, j: int|
                0 <= i < j < r@.len() ==> (#[trigger] r@[i].gen) < (#[trigger] r@[j].gen),
            r@.len() > 0,
            r@.last().gen < u64::MAX,
    {
        let mut r: Vec<LogFile> = Vec::new();
        let n = self.past.len();
        let mut i: usize = 0;
        while i < n
            invariant
                0 <= i <= n,
                r@.len() == i,
                forall|j: int| 0 <= j < i ==> (#[trigger] r@[j])@ == self.past@[j]@,
            decreases n - i,
        {
            let gen = self.past[i].gen;
            let data = copy_range(&self.past[i].data, 0, self.past[i].data.len());
            proof {
                assert(data@ =~= self.past@[i as int].data@);
            }
            r.push(LogFile { gen, data });
            proof {
                assert(r@[i as int]@ == self.past@[i as int]@);
            }
            i = i + 1;
        }
        let data = copy_range(&self.active, 0, self.active.len());
        proof {
            assert(data@ =~= self.active@);
        }
        r.push(LogFile { gen: self.active_gen, data });
        proof {
            assert(r@.last()@ == (LogV { gen: self.active_gen, data: self.active@ }));
            assert forall|j: int| 0 <= j < r@.len() implies (#[trigger] r@[j])@ == self.logs_v()[j]
                by {
                if j < n as int {
                    assert(self.logs_v()[j] == self.past@[j]@);
                }
            }
            assert(logs_view(r@) =~= self.logs_v());
            assert forall|i2: int, j2: int| 0 <= i2 < j2 < r@.len() implies (
            #[trigger] r@[i2].gen) < (#[trigger] r@[j2].gen) by {
                assert(r@[i2].gen == self.logs_v()[i2].gen);
                assert(r@[j2].gen == self.logs_v()[j2].gen);
            }
            assert(r@.last().gen == self.active_gen);
        }
        r
    }
}

/// The generations' bytes alone decide what the engine observes: two
/// well-formed engines over the same generations hold the same string map.
/// In particular, reopening an engine against the same directory yields one
/// whose `get` agrees with the last successful mutation for every key.
pub proof fn lemma_reopen_agrees(a: KvStore, b: KvStore)
    requires
        a.wf(),
        b.wf(),
        a.logs_v() == b.logs_v(),
    ensures
        a.kv() == b.kv(),
{
}

/// After a successful `set(k, v)`, `get(k)` observes `v`; a `set` or
/// `remove` of a different key leaves that observation standing. The next
/// `set(k, _)` or `remove(k)` is the only way to change it.
pub proof fn lemma_set_then_get(
    m: Map<Seq<char>, Seq<char>>,
    k: Seq<char>,
    v: Seq<char>,
    k2: Seq<char>,
    v2: Seq<char>,
)
    requires
        k2 != k,
    ensures
        m.insert(k, v).contains_key(k),
        m.insert(k, v)[k] == v,
        m.insert(k, v).insert(k2, v2).contains_key(k),
        m.insert(k, v).insert(k2, v2)[k] == v,
        m.insert(k, v).remove(k2).contains_key(k),
        m.insert(k, v).remove(k2)[k] == v,
{
}

/// After a successful `remove(k)`, `get(k)` observes no value; a `set` or
/// `remove` of a different key leaves that observation standing. The next
/// `set(k, _)` is the only way to bind `k` again.
pub proof fn lemma_remove_then_get(
    m: Map<Seq<char>, Seq<char>>,
    k: Seq<char>,
    k2: Seq<char>,
    v2: Seq<char>,
)
    requires
        k2 != k,
    ensures
        !m.remove(k).contains_key(k),
        !m.remove(k).insert(k2, v2).contains_key(k),
        !m.remove(k).remove(k2).contains_key(k),
{
}

/// The map after a batch of `set` operations, applied in serialization order.
pub open spec fn apply_sets(
    m: Map<Seq<char>, Seq<char>>,
    ops: Seq<(Seq<char>, Seq<char>)>,
) -> Map<Seq<char>, Seq<char>>
    decreases ops.len(),
{
    if ops.len() == 0 {
        m
    } else {
        apply_sets(m, ops.drop_last()).insert(ops.last().0, ops.last().1)
    }
}

/// A batch of `set` operations over pairwise distinct keys, serialized by the
/// writer in any order, leaves every key of the batch bound to its own value:
/// a later sweep of `get` observes each one.
pub proof fn lemma_distinct_sets_all_observed(
    m: Map<Seq<char>, Seq<char>>,
    ops: Seq<(Seq<char>, Seq<char>)>,
    i: int,
)
    requires
        0 <= i < ops.len(),
        forall|a: int, b: int| 0 <= a < b < ops.len() ==> (#[trigger] ops[a]).0 != (
        #[trigger] ops[b]).0,
    ensures
        apply_sets(m, ops).contains_key(ops[i].0),
        apply_sets(m, ops)[ops[i].0] == ops[i].1,
    decreases ops.len(),
{
    if i == ops.len() - 1 {
    } else {
        assert(forall|a: int|
            0 <= a < ops.len() - 1 ==> (#[trigger] ops.drop_last()[a]) == ops[a]);
        lemma_distinct_sets_all_observed(m, ops.drop_last(), i);
        assert(ops[i].0 != ops[ops.len() - 1].0);
    }
}

} // verus!
