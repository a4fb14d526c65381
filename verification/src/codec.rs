//! The command record codec.
//!
//! A write record (`Set { key, value }` or `Remove { key }`) is stored as a
//! contiguous, self-delimiting byte blob: a one-byte tag, then each string as
//! an eight-byte big-endian length followed by that many bytes of UTF-8.
//! A decoder starting at a record boundary reads exactly one record and
//! advances to the next boundary.

use vstd::prelude::*;

use crate::error::KvsError;

verus! {

/// The eight big-endian base-256 digits of `x`, most significant first.
pub open spec fn be64_bytes(x: u64) -> Seq<u8> {
    seq![
        (x / 0x100000000000000 % 0x100) as u8,
        (x / 0x1000000000000 % 0x100) as u8,
        (x / 0x10000000000 % 0x100) as u8,
        (x / 0x100000000 % 0x100) as u8,
        (x / 0x1000000 % 0x100) as u8,
        (x / 0x10000 % 0x100) as u8,
        (x / 0x100 % 0x100) as u8,
        (x % 0x100) as u8,
    ]
}

/// The value of eight big-endian base-256 digits.
pub open spec fn be64_val(b: Seq<u8>) -> int
    recommends
        b.len() == 8,
{
    b[0] * 0x100000000000000 + b[1] * 0x1000000000000 + b[2] * 0x10000000000 + b[3] * 0x100000000
        + b[4] * 0x1000000 + b[5] * 0x10000 + b[6] * 0x100 + b[7]
}

/// Reading back the eight digits of `x` yields `x`.
pub proof fn lemma_be64_roundtrip(x: u64)
    ensures
        be64_val(be64_bytes(x)) == x,
{
    assert((x / 0x100000000000000 % 0x100) * 0x100000000000000 + (x / 0x1000000000000 % 0x100)
        * 0x1000000000000 + (x / 0x10000000000 % 0x100) * 0x10000000000 + (x / 0x100000000 % 0x100)
        * 0x100000000 + (x / 0x1000000 % 0x100) * 0x1000000 + (x / 0x10000 % 0x100) * 0x10000 + (x
        / 0x100 % 0x100) * 0x100 + (x % 0x100) == x) by (bit_vector);
}

/// Eight digits are pinned down by their value: re-encoding `be64_val(b)`
/// yields `b` again, and the value always fits in a `u64`.
pub proof fn lemma_be64_inverse(b: Seq<u8>)
    requires
        b.len() == 8,
    ensures
        0 <= be64_val(b) < 0x10000000000000000,
        be64_bytes(be64_val(b) as u64) =~= b,
{
    let b0 = b[0];
    let b1 = b[1];
    let b2 = b[2];
    let b3 = b[3];
    let b4 = b[4];
    let b5 = b[5];
    let b6 = b[6];
    let b7 = b[7];
    assert({
        let v = (b0 as u64) * 0x100000000000000 + (b1 as u64) * 0x1000000000000 + (b2 as u64)
            * 0x10000000000 + (b3 as u64) * 0x100000000 + (b4 as u64) * 0x1000000 + (b5 as u64)
            * 0x10000 + (b6 as u64) * 0x100 + (b7 as u64);
        v / 0x100000000000000 % 0x100 == b0 && v / 0x1000000000000 % 0x100 == b1 && v
            / 0x10000000000 % 0x100 == b2 && v / 0x100000000 % 0x100 == b3 && v / 0x1000000 % 0x100
            == b4 && v / 0x10000 % 0x100 == b5 && v / 0x100 % 0x100 == b6 && v % 0x100 == b7
    }) by (bit_vector);
    assert(be64_val(b) == (b0 as u64) * 0x100000000000000 + (b1 as u64) * 0x1000000000000 + (
    b2 as u64) * 0x10000000000 + (b3 as u64) * 0x100000000 + (b4 as u64) * 0x1000000 + (b5 as u64)
        * 0x10000 + (b6 as u64) * 0x100 + (b7 as u64));
}

/// Appends the eight big-endian digits of `x` to `out`.
pub fn write_be64(out: &mut Vec<u8>, x: u64)
    ensures
        final(out)@ =~= old(out)@ + be64_bytes(x),
{
    out.push((x / 0x100000000000000 % 0x100) as u8);
    out.push((x / 0x1000000000000 % 0x100) as u8);
    out.push((x / 0x10000000000 % 0x100) as u8);
    out.push((x / 0x100000000 % 0x100) as u8);
    out.push((x / 0x1000000 % 0x100) as u8);
    out.push((x / 0x10000 % 0x100) as u8);
    out.push((x / 0x100 % 0x100) as u8);
    out.push((x % 0x100) as u8);
}

/// Reads the eight big-endian digits of `data` starting at `pos`.
pub fn read_be64(data: &Vec<u8>, pos: usize) -> (r: u64)
    requires
        pos + 8 <= data@.len(),
    ensures
        r == be64_val(data@.subrange(pos as int, pos + 8)),
{
    let b = data.as_slice();
    let r: u64 = (b[pos] as u64) * 0x100000000000000 + (b[pos + 1] as u64) * 0x1000000000000 + (b[
        pos + 2] as u64) * 0x10000000000 + (b[pos + 3] as u64) * 0x100000000 + (b[pos + 4] as u64)
        * 0x1000000 + (b[pos + 5] as u64) * 0x10000 + (b[pos + 6] as u64) * 0x100 + (b[pos
        + 7] as u64);
    proof {
        let s = data@.subrange(pos as int, pos + 8);
        assert(s[0] == data@[pos as int]);
        assert(s[1] == data@[pos + 1]);
        assert(s[2] == data@[pos + 2]);
        assert(s[3] == data@[pos + 3]);
        assert(s[4] == data@[pos + 4]);
        assert(s[5] == data@[pos + 5]);
        assert(s[6] == data@[pos + 6]);
        assert(s[7] == data@[pos + 7]);
    }
    r
}

/// Tag byte of an encoded `Set` record.
pub const SET_TAG: u8 = 0;

/// Tag byte of an encoded `Remove` record.
pub const REMOVE_TAG: u8 = 1;

/// Byte-level view of a command record.
pub enum CmdB {
    /// Asserts `key` maps to `value`.
    SetB { key: Seq<u8>, value: Seq<u8> },
    /// Asserts `key` has no value.
    RmB { key: Seq<u8> },
}

/// The string lengths of `c` fit in the eight-byte length prefixes.
pub open spec fn cmd_ok(c: CmdB) -> bool {
    match c {
        CmdB::SetB { key, value } => key.len() < 0x10000000000000000 && value.len()
            < 0x10000000000000000,
        CmdB::RmB { key } => key.len() < 0x10000000000000000,
    }
}

/// A length-prefixed string: eight big-endian digits of the length, then the bytes.
pub open spec fn enc_str(s: Seq<u8>) -> Seq<u8> {
    be64_bytes(s.len() as u64) + s
}

/// The encoding of one command record.
pub open spec fn enc_cmd(c: CmdB) -> Seq<u8> {
    match c {
        CmdB::SetB { key, value } => seq![SET_TAG] + enc_str(key) + enc_str(value),
        CmdB::RmB { key } => seq![REMOVE_TAG] + enc_str(key),
    }
}

/// Decodes the record starting at `pos`: the command and the number of bytes
/// it occupies, or `None` when no well-formed record starts there.
pub open spec fn dec_cmd(data: Seq<u8>, pos: int) -> Option<(CmdB, int)> {
    if pos < 0 || pos >= data.len() {
        None
    } else if data[pos] == SET_TAG {
        if pos + 9 <= data.len() {
            let klen = be64_val(data.subrange(pos + 1, pos + 9));
            if pos + 9 + klen + 8 <= data.len() {
                let vlen = be64_val(data.subrange(pos + 9 + klen, pos + 17 + klen));
                if pos + 17 + klen + vlen <= data.len() {
                    Some(
                        (
                            CmdB::SetB {
                                key: data.subrange(pos + 9, pos + 9 + klen),
                                value: data.subrange(pos + 17 + klen, pos + 17 + klen + vlen),
                            },
                            17 + klen + vlen,
                        ),
                    )
                } else {
                    None
                }
            } else {
                None
            }
        } else {
            None
        }
    } else if data[pos] == REMOVE_TAG {
        if pos + 9 <= data.len() {
            let klen = be64_val(data.subrange(pos + 1, pos + 9));
            if pos + 9 + klen <= data.len() {
                Some((CmdB::RmB { key: data.subrange(pos + 9, pos + 9 + klen) }, 9 + klen))
            } else {
                None
            }
        } else {
            None
        }
    } else {
        None
    }
}

/// A subrange splits at any interior point into the two adjacent subranges.
pub proof fn lemma_subrange_split(s: Seq<u8>, a: int, b: int, c: int)
    requires
        0 <= a <= b <= c <= s.len(),
    ensures
        s.subrange(a, c) == s.subrange(a, b) + s.subrange(b, c),
{
    assert(s.subrange(a, c) =~= s.subrange(a, b) + s.subrange(b, c));
}

/// Whatever `dec_cmd` reads is the exact encoding of what it returns: the
/// decoded record is well formed and occupies precisely the reported bytes.
pub proof fn lemma_dec_cmd_some(data: Seq<u8>, pos: int, c: CmdB, n: int)
    requires
        dec_cmd(data, pos) == Some((c, n)),
    ensures
        cmd_ok(c),
        9 <= n,
        pos + n <= data.len(),
        0 <= pos,
        data.subrange(pos, pos + n) == enc_cmd(c),
        n == enc_cmd(c).len(),
{
    if data[pos] == SET_TAG {
        let klen = be64_val(data.subrange(pos + 1, pos + 9));
        lemma_be64_inverse(data.subrange(pos + 1, pos + 9));
        let vlen = be64_val(data.subrange(pos + 9 + klen, pos + 17 + klen));
        lemma_be64_inverse(data.subrange(pos + 9 + klen, pos + 17 + klen));
        let key = data.subrange(pos + 9, pos + 9 + klen);
        let value = data.subrange(pos + 17 + klen, pos + 17 + klen + vlen);
        assert(data.subrange(pos, pos + 1) =~= seq![SET_TAG]);
        lemma_subrange_split(data, pos, pos + 1, pos + n);
        lemma_subrange_split(data, pos + 1, pos + 9, pos + n);
        lemma_subrange_split(data, pos + 9, pos + 9 + klen, pos + n);
        lemma_subrange_split(data, pos + 9 + klen, pos + 17 + klen, pos + n);
        assert(enc_str(key) =~= data.subrange(pos + 1, pos + 9) + key);
        assert(enc_str(value) =~= data.subrange(pos + 9 + klen, pos + 17 + klen) + value);
        assert(data.subrange(pos + 17 + klen, pos + n) =~= value);
        assert(data.subrange(pos, pos + n) == enc_cmd(c));
    } else {
        let klen = be64_val(data.subrange(pos + 1, pos + 9));
        lemma_be64_inverse(data.subrange(pos + 1, pos + 9));
        let key = data.subrange(pos + 9, pos + 9 + klen);
        assert(data.subrange(pos, pos + 1) =~= seq![REMOVE_TAG]);
        lemma_subrange_split(data, pos, pos + 1, pos + n);
        lemma_subrange_split(data, pos + 1, pos + 9, pos + n);
        assert(enc_str(key) =~= data.subrange(pos + 1, pos + 9) + key);
        assert(data.subrange(pos + 9, pos + n) =~= key);
        assert(data.subrange(pos, pos + n) == enc_cmd(c));
    }
}

/// A subrange of a subrange reads from the outer sequence at the shifted offsets.
pub proof fn lemma_subrange_of_subrange(s: Seq<u8>, i: int, j: int, a: int, b: int)
    requires
        0 <= i <= j <= s.len(),
        0 <= a <= b <= j - i,
    ensures
        s.subrange(i, j).subrange(a, b) == s.subrange(i + a, i + b),
{
    assert(s.subrange(i, j).subrange(a, b) =~= s.subrange(i + a, i + b));
}

/// The encoding of a `Set` record, split into its five chunks.
pub proof fn lemma_enc_set_chunks(key: Seq<u8>, value: Seq<u8>)
    requires
        key.len() < 0x10000000000000000,
        value.len() < 0x10000000000000000,
    ensures
        ({
            let e = enc_cmd(CmdB::SetB { key, value });
            let k = key.len() as int;
            let v = value.len() as int;
            &&& e.len() == 17 + k + v
            &&& e[0] == SET_TAG
            &&& e.subrange(1, 9) == be64_bytes(key.len() as u64)
            &&& e.subrange(9, 9 + k) == key
            &&& e.subrange(9 + k, 17 + k) == be64_bytes(value.len() as u64)
            &&& e.subrange(17 + k, 17 + k + v) == value
        }),
{
    let e = enc_cmd(CmdB::SetB { key, value });
    let k = key.len() as int;
    let v = value.len() as int;
    assert(e.subrange(1, 9) =~= be64_bytes(key.len() as u64));
    assert(e.subrange(9, 9 + k) =~= key);
    assert(e.subrange(9 + k, 17 + k) =~= be64_bytes(value.len() as u64));
    assert(e.subrange(17 + k, 17 + k + v) =~= value);
}

/// The encoding of a `Remove` record, split into its three chunks.
pub proof fn lemma_enc_rm_chunks(key: Seq<u8>)
    requires
        key.len() < 0x10000000000000000,
    ensures
        ({
            let e = enc_cmd(CmdB::RmB { key });
            let k = key.len() as int;
            &&& e.len() == 9 + k
            &&& e[0] == REMOVE_TAG
            &&& e.subrange(1, 9) == be64_bytes(key.len() as u64)
            &&& e.subrange(9, 9 + k) == key
        }),
{
    let e = enc_cmd(CmdB::RmB { key });
    let k = key.len() as int;
    assert(e.subrange(1, 9) =~= be64_bytes(key.len() as u64));
    assert(e.subrange(9, 9 + k) =~= key);
}

/// Where the exact encoding of a well-formed record `c` sits at `pos`,
/// `dec_cmd` returns `c` and consumes exactly its encoding.
pub proof fn lemma_dec_of_enc(data: Seq<u8>, pos: int, c: CmdB)
    requires
        cmd_ok(c),
        0 <= pos,
        pos + enc_cmd(c).len() <= data.len(),
        data.subrange(pos, pos + enc_cmd(c).len()) == enc_cmd(c),
    ensures
        dec_cmd(data, pos) == Some((c, enc_cmd(c).len() as int)),
{
    let e = enc_cmd(c);
    let n = e.len() as int;
    match c {
        CmdB::SetB { key, value } => {
            let k = key.len() as int;
            let v = value.len() as int;
            lemma_enc_set_chunks(key, value);
            lemma_be64_roundtrip(key.len() as u64);
            lemma_be64_roundtrip(value.len() as u64);
            assert(data[pos] == e[0]) by {
                assert(data.subrange(pos, pos + n)[0] == e[0]);
            }
            lemma_subrange_of_subrange(data, pos, pos + n, 1, 9);
            assert(data.subrange(pos + 1, pos + 9) == be64_bytes(key.len() as u64));
            lemma_subrange_of_subrange(data, pos, pos + n, 9, 9 + k);
            assert(data.subrange(pos + 9, pos + 9 + k) == key);
            lemma_subrange_of_subrange(data, pos, pos + n, 9 + k, 17 + k);
            assert(data.subrange(pos + 9 + k, pos + 17 + k) == be64_bytes(value.len() as u64));
            lemma_subrange_of_subrange(data, pos, pos + n, 17 + k, 17 + k + v);
            assert(data.subrange(pos + 17 + k, pos + 17 + k + v) == value);
        },
        CmdB::RmB { key } => {
            let k = key.len() as int;
            lemma_enc_rm_chunks(key);
            lemma_be64_roundtrip(key.len() as u64);
            assert(data[pos] == e[0]) by {
                assert(data.subrange(pos, pos + n)[0] == e[0]);
            }
            lemma_subrange_of_subrange(data, pos, pos + n, 1, 9);
            assert(data.subrange(pos + 1, pos + 9) == be64_bytes(key.len() as u64));
            lemma_subrange_of_subrange(data, pos, pos + n, 9, 9 + k);
            assert(data.subrange(pos + 9, pos + 9 + k) == key);
        },
    }
}

/// A write record, with its strings as UTF-8 bytes.
pub enum Command {
    /// Asserts `key` maps to `value`.
    Put { key: Vec<u8>, value: Vec<u8> },
    /// Asserts `key` has no value.
    Remove { key: Vec<u8> },
}

impl View for Command {
    type V = CmdB;

    open spec fn view(&self) -> CmdB {
        match self {
            Command::Put { key, value } => CmdB::SetB { key: key@, value: value@ },
            Command::Remove { key } => CmdB::RmB { key: key@ },
        }
    }
}

/// Copies `data[from..to]` into a fresh vector.
pub fn copy_range(data: &Vec<u8>, from: usize, to: usize) -> (r: Vec<u8>)
    requires
        from <= to <= data@.len(),
    ensures
        r@ == data@.subrange(from as int, to as int),
{
    let mut r: Vec<u8> = Vec::new();
    r.extend_from_slice(&data.as_slice()[from..to]);
    proof {
        assert(r@ =~= data@.subrange(from as int, to as int));
    }
    r
}

/// Appends the encoding of `Set { key, value }` to `out`.
pub fn append_set(out: &mut Vec<u8>, key: &Vec<u8>, value: &Vec<u8>)
    ensures
        final(out)@ == old(out)@ + enc_cmd(CmdB::SetB { key: key@, value: value@ }),
{
    out.push(SET_TAG);
    write_be64(out, key.len() as u64);
    out.extend_from_slice(key.as_slice());
    write_be64(out, value.len() as u64);
    out.extend_from_slice(value.as_slice());
    proof {
        assert(out@ =~= old(out)@ + enc_cmd(CmdB::SetB { key: key@, value: value@ }));
    }
}

/// Appends the encoding of `Remove { key }` to `out`.
pub fn append_remove(out: &mut Vec<u8>, key: &Vec<u8>)
    ensures
        final(out)@ == old(out)@ + enc_cmd(CmdB::RmB { key: key@ }),
{
    out.push(REMOVE_TAG);
    write_be64(out, key.len() as u64);
    out.extend_from_slice(key.as_slice());
    proof {
        assert(out@ =~= old(out)@ + enc_cmd(CmdB::RmB { key: key@ }));
    }
}

/// Decodes the record starting at byte `pos` of `data`, returning the record
/// and the number of bytes it occupies. The clean end of the stream is
/// reported as no record, distinct from malformed input, so that replay
/// knows when to stop.
pub fn decode_at(data: &Vec<u8>, pos: usize) -> (r: Result<Option<(Command, usize)>, KvsError>)
    ensures
        match r {
            Ok(step) => match step {
                Some(p) => dec_cmd(data@, pos as int) == Some((p.0@, p.1 as int)),
                None => pos as int == data@.len(),
            },
            Err(e) => pos as int != data@.len() && dec_cmd(data@, pos as int) is None
                && e is Codec,
        },
{
    let n = data.len();
    if pos == n {
        return Ok(None);
    }
    if pos > n {
        return Err(KvsError::Codec("record truncated".to_owned()));
    }
    let tag = data[pos];
    if tag != SET_TAG && tag != REMOVE_TAG {
        return Err(KvsError::Codec("unknown record tag".to_owned()));
    }
    if n - pos < 9 {
        return Err(KvsError::Codec("record truncated".to_owned()));
    }
    let klen64 = read_be64(data, pos + 1);
    if klen64 > (n - (pos + 9)) as u64 {
        return Err(KvsError::Codec("record truncated".to_owned()));
    }
    let klen = klen64 as usize;
    let key = copy_range(data, pos + 9, pos + 9 + klen);
    if tag == REMOVE_TAG {
        return Ok(Some((Command::Remove { key }, 9 + klen)));
    }
    if n - (pos + 9 + klen) < 8 {
        return Err(KvsError::Codec("record truncated".to_owned()));
    }
    let vlen64 = read_be64(data, pos + 9 + klen);
    if vlen64 > (n - (pos + 17 + klen)) as u64 {
        return Err(KvsError::Codec("record truncated".to_owned()));
    }
    let vlen = vlen64 as usize;
    let value = copy_range(data, pos + 17 + klen, pos + 17 + klen + vlen);
    Ok(Some((Command::Put { key, value }, 17 + klen + vlen)))
}

} // verus!
