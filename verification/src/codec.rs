//! The log codec: one record on disk is
//! `[1 byte liveness][4 bytes key length, big-endian][4 bytes value length,
//! big-endian][key bytes][value bytes]`, keys and values being UTF-8 text.

use vstd::prelude::*;
use vstd::string::StringSliceAdditionalSpecFns;
use vstd::utf8::{
    decode_utf8, encode_utf8, encode_utf8_decode_utf8, encode_utf8_valid_utf8, valid_utf8,
};

use crate::HEADER_SIZE;
use crate::StoreError;

verus! {

/// The mathematical value of one log record.
///
/// `offset` is the byte position of the record's first byte within the log it
/// was read from, and `len` its total size on disk.
pub struct SpecEntry {
    pub live: bool,
    pub key: Seq<char>,
    pub value: Seq<char>,
    pub offset: int,
    pub len: int,
}

/// The four big-endian bytes of a 32-bit length field.
pub open spec fn spec_size_bytes(n: u32) -> Seq<u8> {
    seq![(n >> 24) as u8, (n >> 16) as u8, (n >> 8) as u8, n as u8]
}

/// The 32-bit value held by four big-endian bytes.
pub open spec fn spec_size_value(b0: u8, b1: u8, b2: u8, b3: u8) -> u32 {
    ((b0 as u32) << 24) | ((b1 as u32) << 16) | ((b2 as u32) << 8) | (b3 as u32)
}

/// A length field reads back as the number it was written from.
pub proof fn lemma_size_bytes_roundtrip(n: u32)
    ensures
        spec_size_value(
            spec_size_bytes(n)[0],
            spec_size_bytes(n)[1],
            spec_size_bytes(n)[2],
            spec_size_bytes(n)[3],
        ) == n,
{
    assert(((((n >> 24) as u8) as u32) << 24 | (((n >> 16) as u8) as u32) << 16 | (((n >> 8)
        as u8) as u32) << 8 | ((n as u8) as u32)) == n) by (bit_vector);
}

/// The on-disk bytes of one record holding `key` and `value`, its liveness
/// byte already set to `live`.
pub open spec fn spec_encode_record(live: bool, key: Seq<char>, value: Seq<char>) -> Seq<u8>
    recommends
        encode_utf8(key).len() <= u32::MAX,
        encode_utf8(value).len() <= u32::MAX,
{
    seq![if live { 1u8 } else { 0u8 }] + spec_size_bytes(encode_utf8(key).len() as u32)
        + spec_size_bytes(encode_utf8(value).len() as u32) + encode_utf8(key) + encode_utf8(value)
}

/// The record starting at byte `start` of `log`, if one parses there: the
/// header must lie within the log, the key and value bytes must fit in what
/// remains, and both must be valid UTF-8.
pub open spec fn spec_decode_at(log: Seq<u8>, start: int) -> Option<SpecEntry> {
    if start < 0 || log.len() < start + HEADER_SIZE {
        None
    } else {
        let klen = spec_size_value(
            log[start + 1],
            log[start + 2],
            log[start + 3],
            log[start + 4],
        ) as int;
        let vlen = spec_size_value(
            log[start + 5],
            log[start + 6],
            log[start + 7],
            log[start + 8],
        ) as int;
        if log.len() < start + HEADER_SIZE + klen + vlen {
            None
        } else {
            let kb = log.subrange(start + HEADER_SIZE, start + HEADER_SIZE + klen);
            let vb = log.subrange(start + HEADER_SIZE + klen, start + HEADER_SIZE + klen + vlen);
            if valid_utf8(kb) && valid_utf8(vb) {
                Some(
                    SpecEntry {
                        live: log[start] == 1,
                        key: decode_utf8(kb),
                        value: decode_utf8(vb),
                        offset: start,
                        len: HEADER_SIZE + klen + vlen,
                    },
                )
            } else {
                None
            }
        }
    }
}

/// Every record that parses from byte `start` of `log` forward, stopping at
/// the first position where no record parses.
pub open spec fn spec_records_prefix(log: Seq<u8>, start: int) -> Seq<SpecEntry>
    decreases log.len() - start,
    when 0 <= start <= log.len()
{
    match spec_decode_at(log, start) {
        None => seq![],
        Some(r) => seq![r] + spec_records_prefix(log, start + r.len),
    }
}

/// The byte position where parsing from `start` stops: the log's length when
/// the whole tail parses as records, an earlier position otherwise.
pub open spec fn spec_scan_end(log: Seq<u8>, start: int) -> int
    decreases log.len() - start,
    when 0 <= start <= log.len()
{
    match spec_decode_at(log, start) {
        None => start,
        Some(r) => spec_scan_end(log, start + r.len),
    }
}

/// The log is a whole number of well-formed records.
pub open spec fn spec_parses(log: Seq<u8>) -> bool {
    spec_scan_end(log, 0) == log.len()
}

/// All records of the log, in file order.
pub open spec fn spec_records(log: Seq<u8>) -> Seq<SpecEntry> {
    spec_records_prefix(log, 0)
}

/// One log record in memory.
pub struct Entry {
    pub offset: usize,
    pub live: bool,
    pub key: String,
    pub value: String,
    pub len: usize,
}

impl View for Entry {
    type V = SpecEntry;

    open spec fn view(&self) -> SpecEntry {
        SpecEntry {
            live: self.live,
            key: self.key@,
            value: self.value@,
            offset: self.offset as int,
            len: self.len as int,
        }
    }
}

impl Entry {
    /// A fresh live record for `key` and `value`, not yet placed in any log.
    pub fn new(key: &str, value: &str) -> (e: Entry)
        requires
            HEADER_SIZE + encode_utf8(key@).len() + encode_utf8(value@).len() <= usize::MAX,
        ensures
            e@ == (SpecEntry {
                live: true,
                key: key@,
                value: value@,
                offset: 0,
                len: HEADER_SIZE + encode_utf8(key@).len() + encode_utf8(value@).len(),
            }),
    {
        Entry {
            live: true,
            offset: 0,
            key: key.to_owned(),
            value: value.to_owned(),
            len: HEADER_SIZE + key.len() + value.len(),
        }
    }

    /// The number held by a four-byte big-endian length field.
    pub fn parse_size(bytes: &[u8]) -> (r: usize)
        requires
            bytes@.len() == 4,
        ensures
            r == spec_size_value(bytes@[0], bytes@[1], bytes@[2], bytes@[3]) as usize,
            r <= u32::MAX,
    {
        let n: u32 = ((bytes[0] as u32) << 24) | ((bytes[1] as u32) << 16) | ((bytes[2] as u32)
            << 8) | (bytes[3] as u32);
        n as usize
    }

    /// The four-byte big-endian form of a length.
    pub fn size_to_bytes(size: u32) -> (r: [u8; 4])
        ensures
            r@ == spec_size_bytes(size),
    {
        let r = [(size >> 24) as u8, (size >> 16) as u8, (size >> 8) as u8, size as u8];
        assert(r@ =~= spec_size_bytes(size));
        r
    }

    /// The record starting at byte `start` of `bytes`, or `None` where no
    /// record parses there.
    pub fn from_bytes(bytes: &[u8], start: usize) -> (r: Option<Entry>)
        ensures
            r is Some <==> spec_decode_at(bytes@, start as int) is Some,
            r matches Some(e) ==> Some(e@) == spec_decode_at(bytes@, start as int),
    {
        if bytes.len() < start || bytes.len() - start < HEADER_SIZE {
            return None;
        }
        let live = bytes[start] == 1;
        let klen = Entry::parse_size(&bytes[start + 1..start + 5]);
        let vlen = Entry::parse_size(&bytes[start + 5..start + 9]);
        let rest = bytes.len() - start - HEADER_SIZE;
        if rest < klen || rest - klen < vlen {
            return None;
        }
        let key_bytes = &bytes[start + HEADER_SIZE..start + HEADER_SIZE + klen];
        let value_bytes = &bytes[start + HEADER_SIZE + klen..start + HEADER_SIZE + klen + vlen];
        let key = match utf8_to_string(key_bytes) {
            Some(s) => s,
            None => {
                return None;
            },
        };
        let value = match utf8_to_string(value_bytes) {
            Some(s) => s,
            None => {
                return None;
            },
        };
        Some(Entry { live, offset: start, key, value, len: HEADER_SIZE + klen + vlen })
    }

    /// The on-disk bytes of this record's key and value, with a live
    /// liveness byte; `Err(StoreError::Encoding)` where the key or the value
    /// is too long for its length field.
    pub fn to_bytes(&self) -> (r: Result<Vec<u8>, StoreError>)
        ensures
            r is Ok <==> encode_utf8(self.key@).len() <= u32::MAX && encode_utf8(
                self.value@,
            ).len() <= u32::MAX,
            r matches Ok(b) ==> b@ == spec_encode_record(true, self.key@, self.value@),
            r matches Err(e) ==> e == StoreError::Encoding,
    {
        let kb = self.key.as_str().as_bytes_vec();
        let vb = self.value.as_str().as_bytes_vec();
        if kb.len() > u32::MAX as usize || vb.len() > u32::MAX as usize {
            return Err(StoreError::Encoding);
        }
        let key_size_bytes = Entry::size_to_bytes(kb.len() as u32);
        let value_size_bytes = Entry::size_to_bytes(vb.len() as u32);
        let mut buf: Vec<u8> = Vec::new();
        buf.push(1u8);
        buf.push(key_size_bytes[0]);
        buf.push(key_size_bytes[1]);
        buf.push(key_size_bytes[2]);
        buf.push(key_size_bytes[3]);
        buf.push(value_size_bytes[0]);
        buf.push(value_size_bytes[1]);
        buf.push(value_size_bytes[2]);
        buf.push(value_size_bytes[3]);
        assert(buf@ =~= seq![1u8] + spec_size_bytes(kb@.len() as u32) + spec_size_bytes(
            vb@.len() as u32,
        ) + kb@.subrange(0, 0));
        let mut i: usize = 0;
        while i < kb.len()
            invariant
                i <= kb@.len(),
                kb@.len() <= u32::MAX,
                vb@.len() <= u32::MAX,
                buf@ == seq![1u8] + spec_size_bytes(kb@.len() as u32) + spec_size_bytes(
                    vb@.len() as u32,
                ) + kb@.subrange(0, i as int),
            decreases kb@.len() - i,
        {
            buf.push(kb[i]);
            i = i + 1;
            assert(kb@.subrange(0, i as int) =~= kb@.subrange(0, i - 1) + seq![kb@[i - 1]]);
        }
        assert(kb@.subrange(0, kb@.len() as int) =~= kb@);
        assert(buf@ =~= seq![1u8] + spec_size_bytes(kb@.len() as u32) + spec_size_bytes(
            vb@.len() as u32,
        ) + kb@ + vb@.subrange(0, 0));
        let mut j: usize = 0;
        while j < vb.len()
            invariant
                j <= vb@.len(),
                kb@.len() <= u32::MAX,
                vb@.len() <= u32::MAX,
                buf@ == seq![1u8] + spec_size_bytes(kb@.len() as u32) + spec_size_bytes(
                    vb@.len() as u32,
                ) + kb@ + vb@.subrange(0, j as int),
            decreases vb@.len() - j,
        {
            buf.push(vb[j]);
            j = j + 1;
            assert(vb@.subrange(0, j as int) =~= vb@.subrange(0, j - 1) + seq![vb@[j - 1]]);
        }
        assert(vb@.subrange(0, vb@.len() as int) =~= vb@);
        assert(buf@ =~= spec_encode_record(true, self.key@, self.value@));
        Ok(buf)
    }
}

/// A record's encoding, placed anywhere in a log, decodes to that record.
pub proof fn lemma_decode_encoded_at(log: Seq<u8>, start: int, live: bool, key: Seq<char>, value: Seq<char>)
    requires
        encode_utf8(key).len() <= u32::MAX,
        encode_utf8(value).len() <= u32::MAX,
        0 <= start,
        start + HEADER_SIZE + encode_utf8(key).len() + encode_utf8(value).len() <= log.len(),
        log.subrange(
            start,
            start + HEADER_SIZE + encode_utf8(key).len() + encode_utf8(value).len(),
        ) == spec_encode_record(live, key, value),
    ensures
        spec_decode_at(log, start) == Some(
            SpecEntry {
                live,
                key,
                value,
                offset: start,
                len: HEADER_SIZE + encode_utf8(key).len() + encode_utf8(value).len(),
            },
        ),
{
    let kb = encode_utf8(key);
    let vb = encode_utf8(value);
    let klen = kb.len() as int;
    let vlen = vb.len() as int;
    let enc = spec_encode_record(live, key, value);
    let n = HEADER_SIZE + klen + vlen;
    assert(enc.len() == n);
    assert forall|i: int| 0 <= i < n implies log[start + i] == enc[i] by {
        assert(log.subrange(start, start + n)[i] == log[start + i]);
    }
    let sb1 = spec_size_bytes(klen as u32);
    let sb2 = spec_size_bytes(vlen as u32);
    assert forall|i: int| 0 <= i < 4 implies enc[1 + i] == sb1[i] && enc[5 + i] == sb2[i] by {}
    lemma_size_bytes_roundtrip(klen as u32);
    lemma_size_bytes_roundtrip(vlen as u32);
    assert(spec_size_value(log[start + 1], log[start + 2], log[start + 3], log[start + 4])
        == klen as u32);
    assert(spec_size_value(log[start + 5], log[start + 6], log[start + 7], log[start + 8])
        == vlen as u32);
    assert forall|i: int| 0 <= i < klen implies log.subrange(
        start + HEADER_SIZE,
        start + HEADER_SIZE + klen,
    )[i] == kb[i] by {
        assert(log[start + (HEADER_SIZE + i)] == enc[HEADER_SIZE + i]);
        assert(enc[HEADER_SIZE + i] == kb[i]);
    }
    assert(log.subrange(start + HEADER_SIZE, start + HEADER_SIZE + klen) =~= kb);
    assert forall|i: int| 0 <= i < vlen implies log.subrange(
        start + HEADER_SIZE + klen,
        start + HEADER_SIZE + klen + vlen,
    )[i] == vb[i] by {
        assert(log[start + (HEADER_SIZE + klen + i)] == enc[HEADER_SIZE + klen + i]);
        assert(enc[HEADER_SIZE + klen + i] == vb[i]);
    }
    assert(log.subrange(start + HEADER_SIZE + klen, start + HEADER_SIZE + klen + vlen) =~= vb);
    encode_utf8_valid_utf8(key);
    encode_utf8_valid_utf8(value);
    encode_utf8_decode_utf8(key);
    encode_utf8_decode_utf8(value);
    assert(log[start] == enc[0]);
}

/// Round-trip: encoding any key and value and decoding the bytes yields back
/// the identical key, value and liveness.
pub proof fn lemma_encode_decode(live: bool, key: Seq<char>, value: Seq<char>)
    requires
        encode_utf8(key).len() <= u32::MAX,
        encode_utf8(value).len() <= u32::MAX,
    ensures
        spec_decode_at(spec_encode_record(live, key, value), 0) == Some(
            SpecEntry {
                live,
                key,
                value,
                offset: 0,
                len: HEADER_SIZE + encode_utf8(key).len() + encode_utf8(value).len(),
            },
        ),
{
    let enc = spec_encode_record(live, key, value);
    assert(enc.subrange(0, enc.len() as int) =~= enc);
    lemma_decode_encoded_at(enc, 0, live, key, value);
}

/// The mathematical records behind a sequence of in-memory entries.
pub open spec fn views_of(entries: Seq<Entry>) -> Seq<SpecEntry> {
    entries.map_values(|e: Entry| e@)
}

/// Every record of `bytes` in file order, live and dead alike, together with
/// the byte position where parsing stopped: the buffer's length exactly when
/// the whole buffer is well-formed records.
pub fn scan_records(bytes: &[u8]) -> (r: (Vec<Entry>, usize))
    ensures
        views_of(r.0@) == spec_records(bytes@),
        r.1 == spec_scan_end(bytes@, 0),
        r.1 <= bytes@.len(),
{
    let n = bytes.len();
    let mut acc: Vec<Entry> = Vec::new();
    let mut off: usize = 0;
    proof {
        assert(views_of(acc@) =~= Seq::<SpecEntry>::empty());
        assert(views_of(acc@) + spec_records_prefix(bytes@, 0) =~= spec_records_prefix(
            bytes@,
            0,
        ));
    }
    loop
        invariant
            bytes@.len() == n,
            off <= bytes@.len(),
            spec_records(bytes@) == views_of(acc@) + spec_records_prefix(bytes@, off as int),
            spec_scan_end(bytes@, 0) == spec_scan_end(bytes@, off as int),
        ensures
            off <= bytes@.len(),
            spec_decode_at(bytes@, off as int) is None,
            spec_records(bytes@) == views_of(acc@) + spec_records_prefix(bytes@, off as int),
            spec_scan_end(bytes@, 0) == spec_scan_end(bytes@, off as int),
        decreases bytes@.len() - off,
    {
        match Entry::from_bytes(bytes, off) {
            None => {
                break ;
            },
            Some(e) => {
                proof {
                    let r = spec_decode_at(bytes@, off as int).unwrap();
                    assert(HEADER_SIZE <= r.len && off + r.len <= bytes@.len());
                }
                let ghost old_acc = acc@;
                let ghost old_off = off as int;
                let elen = e.len;
                acc.push(e);
                off = off + elen;
                proof {
                    let r = spec_decode_at(bytes@, old_off).unwrap();
                    assert(views_of(acc@) =~= views_of(old_acc) + seq![e@]);
                    assert(spec_records_prefix(bytes@, old_off) == seq![r]
                        + spec_records_prefix(bytes@, off as int));
                    assert(views_of(old_acc) + spec_records_prefix(bytes@, old_off) =~= (
                    views_of(old_acc) + seq![r]) + spec_records_prefix(bytes@, off as int));
                }
            },
        }
    }
    proof {
        assert(spec_records_prefix(bytes@, off as int) =~= Seq::<SpecEntry>::empty());
        assert(views_of(acc@) + Seq::<SpecEntry>::empty() =~= views_of(acc@));
    }
    (acc, off)
}

/// Decoding reads nothing past the record: appending bytes to the log leaves
/// an existing record's decoding unchanged.
proof fn lemma_decode_append(log: Seq<u8>, ext: Seq<u8>, s: int)
    requires
        spec_decode_at(log, s) is Some,
    ensures
        spec_decode_at(log + ext, s) == spec_decode_at(log, s),
{
    let r = spec_decode_at(log, s).unwrap();
    let log2 = log + ext;
    assert(forall|i: int| 0 <= i < log.len() ==> log2[i] == log[i]);
    let klen = spec_size_value(log[s + 1], log[s + 2], log[s + 3], log[s + 4]) as int;
    let vlen = spec_size_value(log[s + 5], log[s + 6], log[s + 7], log[s + 8]) as int;
    assert(log2.subrange(s + HEADER_SIZE, s + HEADER_SIZE + klen) =~= log.subrange(
        s + HEADER_SIZE,
        s + HEADER_SIZE + klen,
    ));
    assert(log2.subrange(s + HEADER_SIZE + klen, s + HEADER_SIZE + klen + vlen) =~= log.subrange(
        s + HEADER_SIZE + klen,
        s + HEADER_SIZE + klen + vlen,
    ));
}

/// Decoding reads only the record's own bytes: changing a byte outside them
/// leaves the decoding unchanged.
proof fn lemma_decode_update_outside(log: Seq<u8>, s: int, p: int, b: u8)
    requires
        spec_decode_at(log, s) is Some,
        0 <= p < log.len(),
        p < s || p >= s + spec_decode_at(log, s).unwrap().len,
    ensures
        spec_decode_at(log.update(p, b), s) == spec_decode_at(log, s),
{
    let r = spec_decode_at(log, s).unwrap();
    let log2 = log.update(p, b);
    let klen = spec_size_value(log[s + 1], log[s + 2], log[s + 3], log[s + 4]) as int;
    let vlen = spec_size_value(log[s + 5], log[s + 6], log[s + 7], log[s + 8]) as int;
    assert(log2.subrange(s + HEADER_SIZE, s + HEADER_SIZE + klen) =~= log.subrange(
        s + HEADER_SIZE,
        s + HEADER_SIZE + klen,
    ));
    assert(log2.subrange(s + HEADER_SIZE + klen, s + HEADER_SIZE + klen + vlen) =~= log.subrange(
        s + HEADER_SIZE + klen,
        s + HEADER_SIZE + klen + vlen,
    ));
}

/// Writing a zero over a record's first byte tombstones it: the record still
/// decodes, now dead, with the same key, value and extent.
proof fn lemma_decode_update_liveness(log: Seq<u8>, s: int)
    requires
        spec_decode_at(log, s) is Some,
    ensures
        spec_decode_at(log.update(s, 0u8), s) == Some(
            SpecEntry {
                live: false,
                key: spec_decode_at(log, s).unwrap().key,
                value: spec_decode_at(log, s).unwrap().value,
                offset: s,
                len: spec_decode_at(log, s).unwrap().len,
            },
        ),
{
    let r = spec_decode_at(log, s).unwrap();
    let log2 = log.update(s, 0u8);
    let klen = spec_size_value(log[s + 1], log[s + 2], log[s + 3], log[s + 4]) as int;
    let vlen = spec_size_value(log[s + 5], log[s + 6], log[s + 7], log[s + 8]) as int;
    assert(log2.subrange(s + HEADER_SIZE, s + HEADER_SIZE + klen) =~= log.subrange(
        s + HEADER_SIZE,
        s + HEADER_SIZE + klen,
    ));
    assert(log2.subrange(s + HEADER_SIZE + klen, s + HEADER_SIZE + klen + vlen) =~= log.subrange(
        s + HEADER_SIZE + klen,
        s + HEADER_SIZE + klen + vlen,
    ));
}

/// Two logs of one length that agree from byte `start` on parse alike there.
proof fn lemma_parse_same_suffix(log: Seq<u8>, log2: Seq<u8>, start: int)
    requires
        0 <= start <= log.len(),
        log2.len() == log.len(),
        forall|i: int| start <= i < log.len() ==> log2[i] == log[i],
    ensures
        spec_records_prefix(log2, start) == spec_records_prefix(log, start),
        spec_scan_end(log2, start) == spec_scan_end(log, start),
    decreases log.len() - start,
{
    if log.len() < start + HEADER_SIZE {
        assert(spec_decode_at(log, start) is None);
        assert(spec_decode_at(log2, start) is None);
    } else {
        let klen = spec_size_value(log[start + 1], log[start + 2], log[start + 3], log[start + 4]) as int;
        let vlen = spec_size_value(log[start + 5], log[start + 6], log[start + 7], log[start + 8]) as int;
        if log.len() < start + HEADER_SIZE + klen + vlen {
            assert(spec_decode_at(log, start) is None);
            assert(spec_decode_at(log2, start) is None);
        } else {
            assert(log2.subrange(start + HEADER_SIZE, start + HEADER_SIZE + klen) =~= log.subrange(
                start + HEADER_SIZE,
                start + HEADER_SIZE + klen,
            ));
            assert(log2.subrange(
                start + HEADER_SIZE + klen,
                start + HEADER_SIZE + klen + vlen,
            ) =~= log.subrange(start + HEADER_SIZE + klen, start + HEADER_SIZE + klen + vlen));
            assert(spec_decode_at(log2, start) == spec_decode_at(log, start));
            match spec_decode_at(log, start) {
                None => {},
                Some(r) => {
                    lemma_parse_same_suffix(log, log2, start + r.len);
                },
            }
        }
    }
}

/// Every record of a parse carries its own position: it decodes at its
/// `offset`, lies within the log, and the first one starts at `start`.
pub proof fn lemma_records_offsets(log: Seq<u8>, start: int)
    requires
        0 <= start <= log.len(),
    ensures
        ({
            let rs = spec_records_prefix(log, start);
            &&& forall|k: int|
                0 <= k < rs.len() ==> start <= #[trigger] rs[k].offset && HEADER_SIZE <= rs[k].len
                    && rs[k].offset + rs[k].len <= log.len() && spec_decode_at(log, rs[k].offset)
                    == Some(rs[k])
            &&& rs.len() > 0 ==> rs[0].offset == start
        }),
    decreases log.len() - start,
{
    let rs = spec_records_prefix(log, start);
    match spec_decode_at(log, start) {
        None => {},
        Some(r) => {
            lemma_records_offsets(log, start + r.len);
            let rest = spec_records_prefix(log, start + r.len);
            assert(forall|k: int| 1 <= k < rs.len() ==> rs[k] == rest[k - 1]);
        },
    }
}

/// The records of a parse sit back to back: each starts where the one before
/// ends, from `start` up to where parsing stopped.
pub proof fn lemma_records_contiguous(log: Seq<u8>, start: int)
    requires
        0 <= start <= log.len(),
    ensures
        ({
            let rs = spec_records_prefix(log, start);
            &&& forall|k: int|
                1 <= k < rs.len() ==> #[trigger] rs[k].offset == rs[k - 1].offset + rs[k - 1].len
            &&& rs.len() > 0 ==> rs[0].offset == start
            &&& rs.len() > 0 ==> rs[rs.len() - 1].offset + rs[rs.len() - 1].len == spec_scan_end(
                log,
                start,
            )
            &&& rs.len() == 0 ==> spec_scan_end(log, start) == start
        }),
    decreases log.len() - start,
{
    let rs = spec_records_prefix(log, start);
    match spec_decode_at(log, start) {
        None => {},
        Some(r) => {
            lemma_records_contiguous(log, start + r.len);
            let rest = spec_records_prefix(log, start + r.len);
            assert(forall|k: int| 1 <= k < rs.len() ==> rs[k] == rest[k - 1]);
            if rest.len() == 0 {
                assert(rs.len() == 1);
                assert(spec_scan_end(log, start) == spec_scan_end(log, start + r.len));
            }
        },
    }
}

/// A decoded record's key and value re-encode to exactly the bytes they were
/// read from: its on-disk length is determined by them.
pub proof fn lemma_decoded_lens(log: Seq<u8>, s: int)
    requires
        spec_decode_at(log, s) is Some,
    ensures
        ({
            let r = spec_decode_at(log, s).unwrap();
            &&& encode_utf8(r.key).len() <= u32::MAX
            &&& encode_utf8(r.value).len() <= u32::MAX
            &&& HEADER_SIZE + encode_utf8(r.key).len() + encode_utf8(r.value).len() == r.len
        }),
{
    let klen = spec_size_value(log[s + 1], log[s + 2], log[s + 3], log[s + 4]) as int;
    let vlen = spec_size_value(log[s + 5], log[s + 6], log[s + 7], log[s + 8]) as int;
    let kb = log.subrange(s + HEADER_SIZE, s + HEADER_SIZE + klen);
    let vb = log.subrange(s + HEADER_SIZE + klen, s + HEADER_SIZE + klen + vlen);
    vstd::utf8::decode_utf8_encode_utf8(kb);
    vstd::utf8::decode_utf8_encode_utf8(vb);
}

/// Appending to a fully parsed tail splits the new parse at the old end.
proof fn lemma_records_append(log: Seq<u8>, ext: Seq<u8>, start: int)
    requires
        0 <= start <= log.len(),
        spec_scan_end(log, start) == log.len(),
    ensures
        spec_records_prefix(log + ext, start) == spec_records_prefix(log, start)
            + spec_records_prefix(log + ext, log.len() as int),
        spec_scan_end(log + ext, start) == spec_scan_end(log + ext, log.len() as int),
    decreases log.len() - start,
{
    let log2 = log + ext;
    match spec_decode_at(log, start) {
        None => {
            assert(start == log.len());
            assert(spec_records_prefix(log, start) =~= Seq::<SpecEntry>::empty());
            assert(spec_records_prefix(log, start) + spec_records_prefix(log2, log.len() as int)
                =~= spec_records_prefix(log2, log.len() as int));
        },
        Some(r) => {
            lemma_decode_append(log, ext, start);
            lemma_records_append(log, ext, start + r.len);
            assert(spec_records_prefix(log2, start) =~= spec_records_prefix(log, start)
                + spec_records_prefix(log2, log.len() as int));
        },
    }
}

/// Appending one encoded record to a well-formed log appends exactly that
/// record to its parse, and the log stays well-formed.
pub proof fn lemma_append_record(log: Seq<u8>, live: bool, key: Seq<char>, value: Seq<char>)
    requires
        spec_parses(log),
        encode_utf8(key).len() <= u32::MAX,
        encode_utf8(value).len() <= u32::MAX,
    ensures
        ({
            let enc = spec_encode_record(live, key, value);
            let appended = SpecEntry {
                live,
                key,
                value,
                offset: log.len() as int,
                len: HEADER_SIZE + encode_utf8(key).len() + encode_utf8(value).len(),
            };
            &&& spec_records(log + enc) == spec_records(log) + seq![appended]
            &&& spec_parses(log + enc)
        }),
{
    let enc = spec_encode_record(live, key, value);
    let log2 = log + enc;
    let n = log.len() as int;
    let rlen = HEADER_SIZE + encode_utf8(key).len() + encode_utf8(value).len();
    lemma_records_append(log, enc, 0);
    assert(log2.subrange(n, n + rlen) =~= enc);
    lemma_decode_encoded_at(log2, n, live, key, value);
    let appended = spec_decode_at(log2, n).unwrap();
    assert(log2.len() == n + rlen);
    assert(spec_decode_at(log2, n + rlen) is None);
    assert(spec_records_prefix(log2, n + rlen) =~= Seq::<SpecEntry>::empty());
    assert(spec_scan_end(log2, n + rlen) == n + rlen);
    assert(spec_records_prefix(log2, n) =~= seq![appended]);
    assert(spec_records(log2) =~= spec_records(log) + seq![appended]);
    assert(spec_scan_end(log2, n) == n + rlen);
}

/// Tombstoning one record in place — writing a zero over its liveness byte —
/// kills exactly that record in the parse and moves nothing else.
pub proof fn lemma_tombstone(log: Seq<u8>, start: int, i: int)
    requires
        0 <= start <= log.len(),
        0 <= i < spec_records_prefix(log, start).len(),
    ensures
        ({
            let rs = spec_records_prefix(log, start);
            let killed = SpecEntry {
                live: false,
                key: rs[i].key,
                value: rs[i].value,
                offset: rs[i].offset,
                len: rs[i].len,
            };
            let log2 = log.update(rs[i].offset, 0u8);
            &&& spec_records_prefix(log2, start) == rs.update(i, killed)
            &&& spec_scan_end(log2, start) == spec_scan_end(log, start)
        }),
    decreases log.len() - start,
{
    let rs = spec_records_prefix(log, start);
    let r0 = spec_decode_at(log, start).unwrap();
    let p = rs[i].offset;
    let log2 = log.update(p, 0u8);
    lemma_records_offsets(log, start);
    if i == 0 {
        assert(p == start);
        lemma_decode_update_liveness(log, start);
        lemma_parse_same_suffix(log, log2, start + r0.len);
        assert(spec_records_prefix(log2, start) =~= rs.update(
            i,
            SpecEntry {
                live: false,
                key: rs[i].key,
                value: rs[i].value,
                offset: rs[i].offset,
                len: rs[i].len,
            },
        ));
    } else {
        let rest = spec_records_prefix(log, start + r0.len);
        assert(rs[i] == rest[i - 1]);
        lemma_records_offsets(log, start + r0.len);
        assert(p >= start + r0.len);
        lemma_decode_update_outside(log, start, p, 0u8);
        lemma_tombstone(log, start + r0.len, i - 1);
        assert(spec_records_prefix(log2, start) =~= rs.update(
            i,
            SpecEntry {
                live: false,
                key: rs[i].key,
                value: rs[i].value,
                offset: rs[i].offset,
                len: rs[i].len,
            },
        ));
    }
}

/// Relies on `str::from_utf8`: it succeeds exactly on valid UTF-8, and the
/// string it returns holds the characters that the bytes encode.
#[verifier::external_body]
fn utf8_to_string(bytes: &[u8]) -> (r: Option<String>)
    ensures
        r is Some <==> valid_utf8(bytes@),
        r matches Some(s) ==> s@ == decode_utf8(bytes@),
{
    match core::str::from_utf8(bytes) {
        Ok(s) => Some(s.to_owned()),
        Err(_) => None,
    }
}

} // verus!
