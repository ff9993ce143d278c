//! The store engine: get, set, delete, dump, size and compact over the bytes
//! of one append-only log.
//!
//! A `DiskMap` holds the log bytes it was given; every operation is exact
//! about the bytes and the records it leaves behind.  The code that owns the
//! log file reads it into a `DiskMap`, calls one operation under the file
//! lock, and writes the outcome back.

use vstd::prelude::*;

use crate::codec::{
    lemma_append_record, lemma_decoded_lens, lemma_records_contiguous, lemma_records_offsets,
    lemma_tombstone, scan_records, spec_decode_at, spec_encode_record, spec_parses, spec_records,
    spec_records_prefix, views_of, Entry, SpecEntry,
};
use crate::text::str_eq;
use crate::StoreError;
use crate::HEADER_SIZE;
use vstd::utf8::encode_utf8;

verus! {

/// Index of the first live record with this key, searching from `i` on.
pub open spec fn spec_find_live_from(rs: Seq<SpecEntry>, key: Seq<char>, i: int) -> Option<int>
    decreases rs.len() - i,
    when 0 <= i <= rs.len()
{
    if i >= rs.len() {
        None
    } else if rs[i].live && rs[i].key == key {
        Some(i)
    } else {
        spec_find_live_from(rs, key, i + 1)
    }
}

/// Index of the first live record with this key, if any.
pub open spec fn spec_find_live(rs: Seq<SpecEntry>, key: Seq<char>) -> Option<int> {
    spec_find_live_from(rs, key, 0)
}

/// The value a forward scan reports for this key: that of the first live
/// record carrying it.
pub open spec fn spec_lookup(rs: Seq<SpecEntry>, key: Seq<char>) -> Option<Seq<char>> {
    match spec_find_live(rs, key) {
        None => None,
        Some(i) => Some(rs[i].value),
    }
}

/// The key/value pairs of the live records from `i` on, in file order.
pub open spec fn spec_live_pairs_from(rs: Seq<SpecEntry>, i: int) -> Seq<(Seq<char>, Seq<char>)>
    decreases rs.len() - i,
    when 0 <= i <= rs.len()
{
    if i >= rs.len() {
        seq![]
    } else if rs[i].live {
        seq![(rs[i].key, rs[i].value)] + spec_live_pairs_from(rs, i + 1)
    } else {
        spec_live_pairs_from(rs, i + 1)
    }
}

/// The key/value pairs of all live records, in file order.
pub open spec fn spec_live_pairs(rs: Seq<SpecEntry>) -> Seq<(Seq<char>, Seq<char>)> {
    spec_live_pairs_from(rs, 0)
}

/// No key has two live records: the store's central invariant, established
/// by the empty log and kept by every `set` and `delete`.
pub open spec fn spec_at_most_one_live(rs: Seq<SpecEntry>) -> bool {
    forall|i: int, j: int|
        #![trigger rs[i], rs[j]]
        0 <= i < j < rs.len() && rs[i].live && rs[j].live ==> rs[i].key != rs[j].key
}

/// What a found index means: the record there is the first live match, and a
/// missing index means no live match at all.
pub proof fn lemma_find_live_from_props(rs: Seq<SpecEntry>, key: Seq<char>, i: int)
    requires
        0 <= i <= rs.len(),
    ensures
        match spec_find_live_from(rs, key, i) {
            Some(j) => i <= j < rs.len() && rs[j].live && rs[j].key == key && (forall|m: int|
                i <= m < j ==> !(rs[m].live && rs[m].key == key)),
            None => forall|m: int| i <= m < rs.len() ==> !(rs[m].live && rs[m].key == key),
        },
    decreases rs.len() - i,
{
    if i < rs.len() {
        if !(rs[i].live && rs[i].key == key) {
            lemma_find_live_from_props(rs, key, i + 1);
        }
    }
}

/// A live match with no earlier live match is what the search finds.
proof fn lemma_find_live_determined(rs: Seq<SpecEntry>, key: Seq<char>, j: int)
    requires
        0 <= j < rs.len(),
        rs[j].live,
        rs[j].key == key,
        forall|m: int| 0 <= m < j ==> !(rs[m].live && rs[m].key == key),
    ensures
        spec_find_live(rs, key) == Some(j),
{
    lemma_find_live_from_props(rs, key, 0);
    match spec_find_live(rs, key) {
        None => {
            assert(false);
        },
        Some(i) => {
            if i < j {
                assert(!(rs[i].live && rs[i].key == key));
            }
            if j < i {
                assert(!(rs[j].live && rs[j].key == key));
            }
        },
    }
}

/// The value paired with the first occurrence of this key in a pair list.
pub open spec fn spec_pairs_lookup(ps: Seq<(Seq<char>, Seq<char>)>, key: Seq<char>) -> Option<
    Seq<char>,
>
    decreases ps.len(),
{
    if ps.len() == 0 {
        None
    } else if ps[0].0 == key {
        Some(ps[0].1)
    } else {
        spec_pairs_lookup(ps.drop_first(), key)
    }
}

/// No key occurs twice in a pair list.
pub open spec fn spec_pairs_keys_distinct(ps: Seq<(Seq<char>, Seq<char>)>) -> bool {
    forall|a: int, b: int| #![trigger ps[a], ps[b]] 0 <= a < b < ps.len() ==> ps[a].0 != ps[b].0
}

/// A lookup in the records is a lookup in their live pairs: the tail of the
/// pair list from record `i` on answers as the record search from `i` does.
proof fn lemma_lookup_pairs_from(rs: Seq<SpecEntry>, key: Seq<char>, i: int)
    requires
        0 <= i <= rs.len(),
    ensures
        spec_pairs_lookup(spec_live_pairs_from(rs, i), key) == match spec_find_live_from(
            rs,
            key,
            i,
        ) {
            None => None::<Seq<char>>,
            Some(j) => Some(rs[j].value),
        },
    decreases rs.len() - i,
{
    if i < rs.len() {
        lemma_lookup_pairs_from(rs, key, i + 1);
        if rs[i].live {
            let ps = spec_live_pairs_from(rs, i);
            let rest = spec_live_pairs_from(rs, i + 1);
            assert(ps == seq![(rs[i].key, rs[i].value)] + rest);
            assert(ps.drop_first() =~= rest);
        }
    }
}

/// A lookup among the records equals a lookup in their live pairs.
pub proof fn lemma_lookup_pairs(rs: Seq<SpecEntry>, key: Seq<char>)
    ensures
        spec_lookup(rs, key) == spec_pairs_lookup(spec_live_pairs(rs), key),
{
    lemma_lookup_pairs_from(rs, key, 0);
}

/// Appending one record to a list appends its pair, or nothing if dead.
proof fn lemma_live_pairs_snoc(rs: Seq<SpecEntry>, x: SpecEntry, i: int)
    requires
        0 <= i <= rs.len(),
    ensures
        spec_live_pairs_from(rs + seq![x], i) == spec_live_pairs_from(rs, i) + (if x.live {
            seq![(x.key, x.value)]
        } else {
            Seq::<(Seq<char>, Seq<char>)>::empty()
        }),
    decreases rs.len() - i,
{
    let rs2 = rs + seq![x];
    let tail: Seq<(Seq<char>, Seq<char>)> = if x.live {
        seq![(x.key, x.value)]
    } else {
        Seq::<(Seq<char>, Seq<char>)>::empty()
    };
    if i == rs.len() {
        assert(spec_live_pairs_from(rs2, rs.len() as int + 1) =~= Seq::<
            (Seq<char>, Seq<char>),
        >::empty());
        assert(spec_live_pairs_from(rs, i) =~= Seq::<(Seq<char>, Seq<char>)>::empty());
        if x.live {
            assert(spec_live_pairs_from(rs2, i) =~= seq![(x.key, x.value)]);
            assert(spec_live_pairs_from(rs, i) + tail =~= seq![(x.key, x.value)]);
        } else {
            assert(spec_live_pairs_from(rs2, i) =~= Seq::<(Seq<char>, Seq<char>)>::empty());
            assert(spec_live_pairs_from(rs, i) + tail =~= Seq::<(Seq<char>, Seq<char>)>::empty());
        }
    } else {
        lemma_live_pairs_snoc(rs, x, i + 1);
        assert(rs2[i] == rs[i]);
        if rs[i].live {
            assert(seq![(rs[i].key, rs[i].value)] + (spec_live_pairs_from(rs, i + 1) + tail) =~= (
            seq![(rs[i].key, rs[i].value)] + spec_live_pairs_from(rs, i + 1)) + tail);
        }
    }
}

/// Some live record at or past `lo` carries this pair.
pub open spec fn spec_pair_of_live_suffix(
    rs: Seq<SpecEntry>,
    lo: int,
    p: (Seq<char>, Seq<char>),
) -> bool {
    exists|j: int|
        #![trigger rs[j]]
        lo <= j < rs.len() && rs[j].live && p == (rs[j].key, rs[j].value)
}

/// Each live pair comes from a live record at or past `i`, and under the
/// one-live-record invariant no key occurs twice among them.
proof fn lemma_live_pairs_from_props(rs: Seq<SpecEntry>, i: int)
    requires
        0 <= i <= rs.len(),
    ensures
        forall|m: int|
            0 <= m < spec_live_pairs_from(rs, i).len() ==> spec_pair_of_live_suffix(
                rs,
                i,
                #[trigger] spec_live_pairs_from(rs, i)[m],
            ),
        spec_at_most_one_live(rs) ==> spec_pairs_keys_distinct(spec_live_pairs_from(rs, i)),
    decreases rs.len() - i,
{
    if i < rs.len() {
        lemma_live_pairs_from_props(rs, i + 1);
        let ps = spec_live_pairs_from(rs, i);
        let rest = spec_live_pairs_from(rs, i + 1);
        assert forall|m: int| 0 <= m < ps.len() implies spec_pair_of_live_suffix(
            rs,
            i,
            #[trigger] ps[m],
        ) by {
            if rs[i].live {
                assert(ps == seq![(rs[i].key, rs[i].value)] + rest);
                if m == 0 {
                    assert(i <= i < rs.len() && rs[i].live && ps[0] == (rs[i].key, rs[i].value));
                } else {
                    assert(ps[m] == rest[m - 1]);
                    assert(spec_pair_of_live_suffix(rs, i + 1, rest[m - 1]));
                    let j = choose|j: int|
                        #![trigger rs[j]]
                        i + 1 <= j < rs.len() && rs[j].live && rest[m - 1] == (
                        rs[j].key,
                        rs[j].value,
                        );
                    assert(i <= j < rs.len() && rs[j].live && ps[m] == (rs[j].key, rs[j].value));
                }
            } else {
                assert(ps == rest);
                assert(ps[m] == rest[m]);
                assert(spec_pair_of_live_suffix(rs, i + 1, rest[m]));
                let j = choose|j: int|
                    #![trigger rs[j]]
                    i + 1 <= j < rs.len() && rs[j].live && rest[m] == (rs[j].key, rs[j].value);
                assert(i <= j < rs.len() && rs[j].live && ps[m] == (rs[j].key, rs[j].value));
            }
        }
        if spec_at_most_one_live(rs) {
            assert forall|a: int, b: int|
                #![trigger ps[a], ps[b]]
                0 <= a < b < ps.len() implies ps[a].0 != ps[b].0 by {
                if rs[i].live {
                    assert(ps == seq![(rs[i].key, rs[i].value)] + rest);
                    if a == 0 {
                        assert(ps[b] == rest[b - 1]);
                        assert(spec_pair_of_live_suffix(rs, i + 1, rest[b - 1]));
                        let j = choose|j: int|
                            #![trigger rs[j]]
                            i + 1 <= j < rs.len() && rs[j].live && rest[b - 1] == (
                            rs[j].key,
                            rs[j].value,
                            );
                        assert(rs[i].key != rs[j].key);
                    } else {
                        assert(ps[a] == rest[a - 1] && ps[b] == rest[b - 1]);
                    }
                } else {
                    assert(ps == rest);
                    assert(ps[a] == rest[a] && ps[b] == rest[b]);
                }
            }
        }
    }
}

/// In a list of only live records the live pairs are the records' pairs,
/// index for index.
proof fn lemma_all_live_pairs(rs: Seq<SpecEntry>, i: int)
    requires
        0 <= i <= rs.len(),
        forall|j: int| 0 <= j < rs.len() ==> #[trigger] rs[j].live,
    ensures
        spec_live_pairs_from(rs, i).len() == rs.len() - i,
        forall|m: int|
            0 <= m < rs.len() - i ==> #[trigger] spec_live_pairs_from(rs, i)[m] == (
            rs[i + m].key,
            rs[i + m].value,
            ),
    decreases rs.len() - i,
{
    if i < rs.len() {
        lemma_all_live_pairs(rs, i + 1);
        let ps = spec_live_pairs_from(rs, i);
        let rest = spec_live_pairs_from(rs, i + 1);
        assert(ps == seq![(rs[i].key, rs[i].value)] + rest);
        assert(forall|m: int| 1 <= m < ps.len() ==> ps[m] == rest[m - 1]);
    }
}

/// The bytes of a compacted log: the encodings of the live records from `i`
/// on, back to back, in file order.
pub open spec fn spec_compact_from(rs: Seq<SpecEntry>, i: int) -> Seq<u8>
    decreases rs.len() - i,
    when 0 <= i <= rs.len()
{
    if i >= rs.len() {
        seq![]
    } else if rs[i].live {
        spec_encode_record(true, rs[i].key, rs[i].value) + spec_compact_from(rs, i + 1)
    } else {
        spec_compact_from(rs, i + 1)
    }
}

/// The bytes of a compacted log: the encodings of all live records.
pub open spec fn spec_compact_bytes(rs: Seq<SpecEntry>) -> Seq<u8> {
    spec_compact_from(rs, 0)
}

/// One record of a well-formed log, with its place and its re-encoded size.
proof fn lemma_record_at(oldlog: Seq<u8>, i: int)
    requires
        spec_parses(oldlog),
        0 <= i < spec_records(oldlog).len(),
    ensures
        ({
            let rs = spec_records(oldlog);
            &&& HEADER_SIZE <= rs[i].len
            &&& 0 <= rs[i].offset
            &&& rs[i].offset + rs[i].len <= oldlog.len()
            &&& encode_utf8(rs[i].key).len() <= u32::MAX
            &&& encode_utf8(rs[i].value).len() <= u32::MAX
            &&& HEADER_SIZE + encode_utf8(rs[i].key).len() + encode_utf8(rs[i].value).len()
                == rs[i].len
            &&& i + 1 < rs.len() ==> rs[i + 1].offset == rs[i].offset + rs[i].len
            &&& i + 1 == rs.len() ==> rs[i].offset + rs[i].len == oldlog.len()
        }),
{
    let rs = spec_records(oldlog);
    lemma_records_offsets(oldlog, 0);
    lemma_records_contiguous(oldlog, 0);
    lemma_decoded_lens(oldlog, rs[i].offset);
}

/// One live record carried over during compaction: what appending its fresh
/// encoding does to the new log's parse, pairs and length.
proof fn lemma_compact_step_live(oldlog: Seq<u8>, i: int, out0: Seq<u8>, out1: Seq<u8>)
    requires
        spec_parses(oldlog),
        0 <= i < spec_records(oldlog).len(),
        spec_records(oldlog)[i].live,
        spec_parses(out0),
        forall|j: int|
            0 <= j < spec_records(out0).len() ==> (#[trigger] spec_records(out0)[j]).live,
        spec_compact_bytes(spec_records(oldlog)) == out0 + spec_compact_from(
            spec_records(oldlog),
            i,
        ),
        spec_live_pairs(spec_records(oldlog)) == spec_live_pairs(spec_records(out0))
            + spec_live_pairs_from(spec_records(oldlog), i),
        out0.len() <= spec_records(oldlog)[i].offset,
        out1 == out0 + spec_encode_record(
            true,
            spec_records(oldlog)[i].key,
            spec_records(oldlog)[i].value,
        ),
    ensures
        ({
            let rs = spec_records(oldlog);
            &&& spec_parses(out1)
            &&& forall|j: int|
                0 <= j < spec_records(out1).len() ==> (#[trigger] spec_records(out1)[j]).live
            &&& spec_compact_bytes(rs) == out1 + spec_compact_from(rs, i + 1)
            &&& spec_live_pairs(rs) == spec_live_pairs(spec_records(out1)) + spec_live_pairs_from(
                rs,
                i + 1,
            )
            &&& out1.len() == out0.len() + rs[i].len
            &&& i + 1 < rs.len() ==> out1.len() <= rs[i + 1].offset
            &&& i + 1 == rs.len() ==> out1.len() <= oldlog.len()
            &&& out0.len() < rs[i].offset && i + 1 < rs.len() ==> out1.len() < rs[i + 1].offset
            &&& out0.len() < rs[i].offset && i + 1 == rs.len() ==> out1.len() < oldlog.len()
        }),
{
    let rs = spec_records(oldlog);
    let key = rs[i].key;
    let value = rs[i].value;
    lemma_record_at(oldlog, i);
    lemma_append_record(out0, true, key, value);
    let x = SpecEntry {
        live: true,
        key,
        value,
        offset: out0.len() as int,
        len: HEADER_SIZE + encode_utf8(key).len() + encode_utf8(value).len(),
    };
    assert(spec_records(out1) == spec_records(out0) + seq![x]);
    assert forall|j: int| 0 <= j < spec_records(out1).len() implies (#[trigger] spec_records(
        out1,
    )[j]).live by {
        if j < spec_records(out0).len() {
            assert(spec_records(out1)[j] == spec_records(out0)[j]);
        } else {
            assert(spec_records(out1)[j] == x);
        }
    }
    lemma_live_pairs_snoc(spec_records(out0), x, 0);
    assert(spec_live_pairs(spec_records(out1)) == spec_live_pairs(spec_records(out0)) + seq![
        (key, value),
    ]);
    assert(spec_live_pairs_from(rs, i) == seq![(key, value)] + spec_live_pairs_from(rs, i + 1));
    assert(spec_live_pairs(spec_records(out0)) + (seq![(key, value)] + spec_live_pairs_from(
        rs,
        i + 1,
    )) =~= spec_live_pairs(spec_records(out1)) + spec_live_pairs_from(rs, i + 1));
    assert(spec_compact_from(rs, i) == spec_encode_record(true, key, value) + spec_compact_from(
        rs,
        i + 1,
    ));
    assert(out0 + (spec_encode_record(true, key, value) + spec_compact_from(rs, i + 1)) =~= out1
        + spec_compact_from(rs, i + 1));
}

/// One dead record skipped during compaction: the new log is unchanged and
/// now runs strictly behind the old one.
proof fn lemma_compact_step_dead(oldlog: Seq<u8>, i: int, out0: Seq<u8>)
    requires
        spec_parses(oldlog),
        0 <= i < spec_records(oldlog).len(),
        !spec_records(oldlog)[i].live,
        spec_compact_bytes(spec_records(oldlog)) == out0 + spec_compact_from(
            spec_records(oldlog),
            i,
        ),
        spec_live_pairs(spec_records(oldlog)) == spec_live_pairs(spec_records(out0))
            + spec_live_pairs_from(spec_records(oldlog), i),
        out0.len() <= spec_records(oldlog)[i].offset,
    ensures
        ({
            let rs = spec_records(oldlog);
            &&& spec_compact_bytes(rs) == out0 + spec_compact_from(rs, i + 1)
            &&& spec_live_pairs(rs) == spec_live_pairs(spec_records(out0)) + spec_live_pairs_from(
                rs,
                i + 1,
            )
            &&& i + 1 < rs.len() ==> out0.len() < rs[i + 1].offset
            &&& i + 1 == rs.len() ==> out0.len() < oldlog.len()
        }),
{
    let rs = spec_records(oldlog);
    lemma_record_at(oldlog, i);
    assert(spec_compact_from(rs, i) == spec_compact_from(rs, i + 1));
    assert(spec_live_pairs_from(rs, i) == spec_live_pairs_from(rs, i + 1));
}

/// The same record, tombstoned.
pub open spec fn spec_killed(r: SpecEntry) -> SpecEntry {
    SpecEntry { live: false, key: r.key, value: r.value, offset: r.offset, len: r.len }
}

/// The records after the first live record with this key is tombstoned;
/// unchanged where there is none.
pub open spec fn spec_kill_first(rs: Seq<SpecEntry>, key: Seq<char>) -> Seq<SpecEntry> {
    match spec_find_live(rs, key) {
        None => rs,
        Some(i) => rs.update(i, spec_killed(rs[i])),
    }
}

/// The log bytes after the first live record with this key is tombstoned in
/// place; unchanged where there is none.
pub open spec fn spec_tombstone_bytes(log: Seq<u8>, key: Seq<char>) -> Seq<u8> {
    match spec_find_live(spec_records(log), key) {
        None => log,
        Some(i) => log.update(spec_records(log)[i].offset, 0u8),
    }
}

/// What tombstoning the first live record with a key does to lookups: other
/// keys see no change, and under the one-live-record invariant the key
/// itself is gone and the invariant is kept.
pub proof fn lemma_kill_first_lookup(rs: Seq<SpecEntry>, key: Seq<char>)
    ensures
        forall|k2: Seq<char>|
            k2 != key ==> #[trigger] spec_lookup(spec_kill_first(rs, key), k2) == spec_lookup(
                rs,
                k2,
            ),
        spec_at_most_one_live(rs) ==> spec_lookup(spec_kill_first(rs, key), key) is None,
        spec_at_most_one_live(rs) ==> spec_at_most_one_live(spec_kill_first(rs, key)),
{
    match spec_find_live(rs, key) {
        None => {
            lemma_find_live_from_props(rs, key, 0);
        },
        Some(i) => {
            lemma_find_live_from_props(rs, key, 0);
            let rs2 = rs.update(i, spec_killed(rs[i]));
            assert(spec_kill_first(rs, key) == rs2);
            assert forall|k2: Seq<char>| k2 != key implies #[trigger] spec_lookup(
                spec_kill_first(rs, key),
                k2,
            ) == spec_lookup(rs, k2) by {
                lemma_find_live_from_props(rs, k2, 0);
                lemma_find_live_from_props(rs2, k2, 0);
                match spec_find_live(rs, k2) {
                    Some(j) => {
                        assert(rs[j].key == k2);
                        assert(j != i);
                        assert(rs2[j] == rs[j]);
                        assert(forall|m: int|
                            0 <= m < j ==> !(rs2[m].live && rs2[m].key == k2));
                        lemma_find_live_determined(rs2, k2, j);
                    },
                    None => {
                        match spec_find_live(rs2, k2) {
                            Some(j2) => {
                                assert(rs2[j2].live && rs2[j2].key == k2);
                                assert(j2 != i);
                                assert(rs[j2].live && rs[j2].key == k2);
                                assert(false);
                            },
                            None => {},
                        }
                    },
                }
            }
            if spec_at_most_one_live(rs) {
                lemma_find_live_from_props(rs2, key, 0);
                match spec_find_live(rs2, key) {
                    Some(j2) => {
                        assert(rs2[j2].live && rs2[j2].key == key);
                        assert(j2 != i);
                        assert(rs[j2].live && rs[j2].key == key);
                        assert(rs[i].live && rs[i].key == key);
                        if i < j2 {
                            assert(rs[i].key != rs[j2].key);
                        } else {
                            assert(rs[j2].key != rs[i].key);
                        }
                        assert(false);
                    },
                    None => {},
                }
                assert forall|a: int, b: int|
                    0 <= a < b < rs2.len() && rs2[a].live && rs2[b].live implies rs2[a].key
                    != rs2[b].key by {
                    assert(a != i && b != i);
                    assert(rs2[a] == rs[a] && rs2[b] == rs[b]);
                }
            }
        },
    }
}

/// What appending one record does to lookups: other keys see no change, a
/// live appended record answers for its key where the key had no live
/// record, and the one-live-record invariant is kept where the appended
/// key was not live before.
pub proof fn lemma_append_lookup(rs: Seq<SpecEntry>, x: SpecEntry)
    ensures
        forall|k2: Seq<char>|
            k2 != x.key ==> #[trigger] spec_lookup(rs + seq![x], k2) == spec_lookup(rs, k2),
        x.live && spec_find_live(rs, x.key) is None ==> spec_lookup(rs + seq![x], x.key)
            == Some(x.value),
        spec_at_most_one_live(rs) && spec_find_live(rs, x.key) is None
            ==> spec_at_most_one_live(rs + seq![x]),
{
    let rs2 = rs + seq![x];
    let last = rs.len() as int;
    assert(forall|m: int| 0 <= m < last ==> rs2[m] == rs[m]);
    assert(rs2[last] == x);
    assert forall|k2: Seq<char>| k2 != x.key implies #[trigger] spec_lookup(rs + seq![x], k2)
        == spec_lookup(rs, k2) by {
        lemma_find_live_from_props(rs, k2, 0);
        lemma_find_live_from_props(rs2, k2, 0);
        match spec_find_live(rs, k2) {
            Some(j) => {
                lemma_find_live_determined(rs2, k2, j);
            },
            None => {
                match spec_find_live(rs2, k2) {
                    Some(j2) => {
                        assert(rs2[j2].live && rs2[j2].key == k2);
                        assert(j2 != last);
                        assert(false);
                    },
                    None => {},
                }
            },
        }
    }
    if x.live && spec_find_live(rs, x.key) is None {
        lemma_find_live_from_props(rs, x.key, 0);
        assert(forall|m: int| 0 <= m < last ==> !(rs2[m].live && rs2[m].key == x.key));
        lemma_find_live_determined(rs2, x.key, last);
    }
    if spec_at_most_one_live(rs) && spec_find_live(rs, x.key) is None {
        lemma_find_live_from_props(rs, x.key, 0);
        assert forall|a: int, b: int|
            0 <= a < b < rs2.len() && rs2[a].live && rs2[b].live implies rs2[a].key
            != rs2[b].key by {
            if b == last {
                assert(rs2[a] == rs[a]);
                if rs2[a].key == x.key {
                    assert(rs[a].live && rs[a].key == x.key);
                    assert(false);
                }
            } else {
                assert(rs2[a] == rs[a] && rs2[b] == rs[b]);
            }
        }
    }
}

/// The empty log — the state every fresh store file starts from — is well
/// formed, holds no records, and satisfies the one-live-record invariant.
/// With the preservation clauses of `set`, `delete` and `compact`, every
/// store reached from it by those calls keeps the invariant.
pub proof fn lemma_empty_log()
    ensures
        spec_parses(Seq::<u8>::empty()),
        spec_records(Seq::<u8>::empty()) == Seq::<SpecEntry>::empty(),
        spec_at_most_one_live(spec_records(Seq::<u8>::empty())),
{
    assert(spec_decode_at(Seq::<u8>::empty(), 0) is None);
    assert(spec_records(Seq::<u8>::empty()) =~= Seq::<SpecEntry>::empty());
}

/// A dump reads and changes nothing: two dumps of one store state with no
/// write between them return the same mapping.
pub proof fn lemma_dump_idempotent(
    log: Seq<u8>,
    d1: Seq<(Seq<char>, Seq<char>)>,
    d2: Seq<(Seq<char>, Seq<char>)>,
)
    requires
        d1 == spec_live_pairs(spec_records(log)),
        d2 == spec_live_pairs(spec_records(log)),
    ensures
        d1 == d2,
{
}

/// The single-file key-value store, held as the bytes of its log.
pub struct DiskMap {
    log: Vec<u8>,
}

impl View for DiskMap {
    type V = Seq<u8>;

    closed spec fn view(&self) -> Seq<u8> {
        self.log@
    }
}

impl DiskMap {
    /// A store over the given log bytes, exactly as read from the file.
    pub fn new(log: Vec<u8>) -> (r: DiskMap)
        ensures
            r@ == log@,
    {
        DiskMap { log }
    }

    /// The log's length in bytes.
    pub fn size(&self) -> (r: usize)
        ensures
            r == self@.len(),
    {
        self.log.len()
    }

    /// The raw log bytes.
    pub fn as_bytes(&self) -> (r: &Vec<u8>)
        ensures
            r@ == self@,
    {
        &self.log
    }

    /// The first live record holding `k`, if the scan reaches one before the
    /// log's end or its first ill-formed byte.
    pub fn find_key(&self, k: &str) -> (r: Option<Entry>)
        ensures
            match spec_find_live(spec_records(self@), k@) {
                Some(i) => r matches Some(e) && e@ == spec_records(self@)[i],
                None => r is None,
            },
    {
        let (entries, _end) = scan_records(self.log.as_slice());
        let ghost rs = spec_records(self@);
        let n = entries.len();
        let mut i: usize = 0;
        while i < n
            invariant
                0 <= i <= n,
                n == entries@.len(),
                rs == spec_records(self@),
                views_of(entries@) == rs,
                spec_find_live(rs, k@) == spec_find_live_from(rs, k@, i as int),
            decreases n - i,
        {
            let e = &entries[i];
            if e.live && str_eq(e.key.as_str(), k) {
                assert(rs[i as int] == e@);
                assert(spec_find_live_from(rs, k@, i as int) == Some(i as int));
                return Some(
                    Entry {
                        offset: e.offset,
                        live: e.live,
                        key: e.key.clone(),
                        value: e.value.clone(),
                        len: e.len,
                    },
                );
            }
            assert(rs[i as int] == views_of(entries@)[i as int]);
            i = i + 1;
        }
        None
    }

    /// Tombstones the first live record holding `k`: its liveness byte is
    /// overwritten with zero in place, and nothing is appended.
    ///
    /// Fails with `NotFound` where no live record holds the key, and with
    /// `Corruption` where the log bytes do not parse; the log is unchanged
    /// on failure.
    pub fn delete(&mut self, k: &str) -> (r: Result<(), StoreError>)
        ensures
            match r {
                Ok(u) => {
                    &&& spec_parses(old(self)@)
                    &&& spec_find_live(spec_records(old(self)@), k@) is Some
                    &&& final(self)@ == spec_tombstone_bytes(old(self)@, k@)
                    &&& final(self)@.len() == old(self)@.len()
                    &&& spec_parses(final(self)@)
                    &&& spec_records(final(self)@) == spec_kill_first(spec_records(old(self)@), k@)
                    &&& spec_at_most_one_live(spec_records(old(self)@))
                        ==> spec_at_most_one_live(spec_records(final(self)@)) && spec_lookup(
                        spec_records(final(self)@),
                        k@,
                    ) is None
                    &&& forall|k2: Seq<char>|
                        k2 != k@ ==> #[trigger] spec_lookup(spec_records(final(self)@), k2)
                            == spec_lookup(spec_records(old(self)@), k2)
                },
                Err(e) => final(self)@ == old(self)@ && ((e == StoreError::Corruption && !spec_parses(
                    old(self)@,
                )) || (e == StoreError::NotFound && spec_parses(old(self)@) && spec_find_live(
                    spec_records(old(self)@),
                    k@,
                ) is None)),
            },
    {
        let (_entries, end) = scan_records(self.log.as_slice());
        if end != self.log.len() {
            return Err(StoreError::Corruption);
        }
        let ghost rs = spec_records(self@);
        match self.find_key(k) {
            None => Err(StoreError::NotFound),
            Some(e) => {
                let ghost i = spec_find_live(rs, k@).unwrap();
                proof {
                    lemma_find_live_from_props(rs, k@, 0);
                    lemma_records_offsets(self@, 0);
                    assert(0 <= i < rs.len());
                    assert(e@ == rs[i]);
                    assert(spec_records_prefix(self@, 0)[i].offset + spec_records_prefix(
                        self@,
                        0,
                    )[i].len <= self@.len());
                    assert(e.offset < self@.len());
                    lemma_tombstone(self@, 0, i);
                    lemma_kill_first_lookup(rs, k@);
                }
                self.log[e.offset] = 0u8;
                proof {
                    assert(spec_records(self@) =~= spec_kill_first(rs, k@));
                }
                Ok(())
            },
        }
    }

    /// Writes `k = v`: tombstones the first live record holding `k`, if one
    /// exists, then appends one fresh live record for the pair at the log's
    /// end.  Returns the number of bytes appended.
    ///
    /// Fails with `Encoding` where the key or the value is longer than a
    /// 32-bit length field can say, and with `Corruption` where the log
    /// bytes do not parse; the log is unchanged on failure.
    pub fn set(&mut self, k: &str, v: &str) -> (r: Result<usize, StoreError>)
        ensures
            match r {
                Ok(n) => {
                    &&& spec_parses(old(self)@)
                    &&& encode_utf8(k@).len() <= u32::MAX
                    &&& encode_utf8(v@).len() <= u32::MAX
                    &&& n == crate::HEADER_SIZE + encode_utf8(k@).len() + encode_utf8(v@).len()
                    &&& final(self)@ == spec_tombstone_bytes(old(self)@, k@) + spec_encode_record(
                        true,
                        k@,
                        v@,
                    )
                    &&& spec_parses(final(self)@)
                    &&& spec_records(final(self)@) == spec_kill_first(spec_records(old(self)@), k@)
                        + seq![
                        SpecEntry {
                            live: true,
                            key: k@,
                            value: v@,
                            offset: old(self)@.len() as int,
                            len: n as int,
                        },
                    ]
                    &&& spec_at_most_one_live(spec_records(old(self)@))
                        ==> spec_at_most_one_live(spec_records(final(self)@)) && spec_lookup(
                        spec_records(final(self)@),
                        k@,
                    ) == Some(v@)
                    &&& forall|k2: Seq<char>|
                        k2 != k@ ==> #[trigger] spec_lookup(spec_records(final(self)@), k2)
                            == spec_lookup(spec_records(old(self)@), k2)
                },
                Err(e) => final(self)@ == old(self)@ && ((e == StoreError::Corruption && !spec_parses(
                    old(self)@,
                )) || (e == StoreError::Encoding && spec_parses(old(self)@) && (encode_utf8(
                    k@,
                ).len() > u32::MAX || encode_utf8(v@).len() > u32::MAX))),
            },
    {
        let (_entries, end) = scan_records(self.log.as_slice());
        if end != self.log.len() {
            return Err(StoreError::Corruption);
        }
        let rec = Entry { live: true, offset: 0, key: k.to_owned(), value: v.to_owned(), len: 0 };
        let mut enc = match rec.to_bytes() {
            Ok(b) => b,
            Err(_) => {
                return Err(StoreError::Encoding);
            },
        };
        let n = enc.len();
        let ghost rs = spec_records(self@);
        match self.find_key(k) {
            None => {
                proof {
                    assert(spec_kill_first(rs, k@) == rs);
                    assert(spec_tombstone_bytes(self@, k@) == self@);
                }
            },
            Some(e) => {
                let ghost i = spec_find_live(rs, k@).unwrap();
                proof {
                    lemma_find_live_from_props(rs, k@, 0);
                    lemma_records_offsets(self@, 0);
                    assert(0 <= i < rs.len());
                    assert(e@ == rs[i]);
                    assert(spec_records_prefix(self@, 0)[i].offset + spec_records_prefix(
                        self@,
                        0,
                    )[i].len <= self@.len());
                    assert(e.offset < self@.len());
                    lemma_tombstone(self@, 0, i);
                }
                self.log[e.offset] = 0u8;
                proof {
                    assert(spec_records(self@) =~= spec_kill_first(rs, k@));
                }
            },
        }
        let ghost mid = self@;
        proof {
            assert(spec_records(mid) == spec_kill_first(rs, k@));
            assert(spec_parses(mid));
            lemma_kill_first_lookup(rs, k@);
            lemma_append_record(mid, true, k@, v@);
            lemma_append_lookup(
                spec_records(mid),
                SpecEntry {
                    live: true,
                    key: k@,
                    value: v@,
                    offset: mid.len() as int,
                    len: n as int,
                },
            );
        }
        self.log.append(&mut enc);
        proof {
            assert(self@ == mid + spec_encode_record(true, k@, v@));
        }
        Ok(n)
    }

    /// Rewrites the log to hold exactly its live records, in file order, and
    /// returns the new size.  This is the only operation that reclaims the
    /// space of tombstoned records: the log shrinks by exactly their bytes.
    ///
    /// Fails with `Corruption` where the log bytes do not parse; the log is
    /// unchanged then.
    #[verifier::rlimit(100)]
    pub fn compact(&mut self) -> (r: Result<usize, StoreError>)
        ensures
            match r {
                Ok(n) => {
                    &&& spec_parses(old(self)@)
                    &&& final(self)@ == spec_compact_bytes(spec_records(old(self)@))
                    &&& n == final(self)@.len()
                    &&& spec_parses(final(self)@)
                    &&& forall|j: int|
                        0 <= j < spec_records(final(self)@).len() ==> (#[trigger] spec_records(
                            final(self)@,
                        )[j]).live
                    &&& spec_live_pairs(spec_records(final(self)@)) == spec_live_pairs(
                        spec_records(old(self)@),
                    )
                    &&& forall|k2: Seq<char>|
                        #[trigger] spec_lookup(spec_records(final(self)@), k2) == spec_lookup(
                            spec_records(old(self)@),
                            k2,
                        )
                    &&& final(self)@.len() <= old(self)@.len()
                    &&& (exists|j: int|
                        #![trigger spec_records(old(self)@)[j]]
                        0 <= j < spec_records(old(self)@).len() && !spec_records(old(self)@)[j].live)
                        ==> final(self)@.len() < old(self)@.len()
                    &&& spec_at_most_one_live(spec_records(old(self)@))
                        ==> spec_at_most_one_live(spec_records(final(self)@))
                },
                Err(e) => final(self)@ == old(self)@ && e == StoreError::Corruption
                    && !spec_parses(old(self)@),
            },
    {
        let (entries, end) = scan_records(self.log.as_slice());
        if end != self.log.len() {
            return Err(StoreError::Corruption);
        }
        let ghost rs = spec_records(self@);
        let ghost oldlog = self@;
        let mut out: Vec<u8> = Vec::new();
        let ghost mut dead_seen: bool = false;
        let n = entries.len();
        let mut i: usize = 0;
        proof {
            assert(spec_decode_at(out@, 0) is None);
            assert(spec_records(out@) =~= Seq::<SpecEntry>::empty());
            assert(out@ + spec_compact_from(rs, 0) =~= spec_compact_from(rs, 0));
            assert(spec_live_pairs(spec_records(out@)) =~= Seq::<(Seq<char>, Seq<char>)>::empty());
            assert(spec_live_pairs(spec_records(out@)) + spec_live_pairs_from(rs, 0)
                =~= spec_live_pairs_from(rs, 0));
            lemma_records_contiguous(oldlog, 0);
            if n > 0 {
                assert(out@.len() <= rs[0].offset);
            }
        }
        while i < n
            invariant
                0 <= i <= n,
                n == entries@.len(),
                self@ == oldlog,
                rs == spec_records(oldlog),
                views_of(entries@) == rs,
                spec_parses(oldlog),
                oldlog.len() <= usize::MAX,
                spec_parses(out@),
                forall|j: int|
                    0 <= j < spec_records(out@).len() ==> (#[trigger] spec_records(out@)[j]).live,
                spec_compact_bytes(rs) == out@ + spec_compact_from(rs, i as int),
                spec_live_pairs(rs) == spec_live_pairs(spec_records(out@)) + spec_live_pairs_from(
                    rs,
                    i as int,
                ),
                i < n ==> out@.len() <= rs[i as int].offset,
                i == n ==> out@.len() <= oldlog.len(),
                dead_seen <==> exists|j: int| #![trigger rs[j]] 0 <= j < i && !rs[j].live,
                dead_seen && i < n ==> out@.len() < rs[i as int].offset,
                dead_seen && i == n ==> out@.len() < oldlog.len(),
            decreases n - i,
        {
            let e = &entries[i];
            proof {
                assert(rs[i as int] == e@);
                lemma_record_at(oldlog, i as int);
            }
            let ghost old_out = out@;
            if e.live {
                let mut enc = match e.to_bytes() {
                    Ok(b) => b,
                    Err(_) => {
                        proof {
                            assert(false);
                        }
                        return Err(StoreError::Corruption);
                    },
                };
                out.append(&mut enc);
                proof {
                    assert(out@ == old_out + spec_encode_record(true, e.key@, e.value@));
                    lemma_compact_step_live(oldlog, i as int, old_out, out@);
                }
            } else {
                proof {
                    lemma_compact_step_dead(oldlog, i as int, out@);
                    dead_seen = true;
                }
            }
            proof {
                if !(rs[i as int].live) {
                    assert(0 <= (i as int) && (i as int) < (i as int) + 1 && !rs[i as int].live);
                } else {
                    assert forall|j: int|
                        #![trigger rs[j]]
                        0 <= j < i + 1 && !rs[j].live implies 0 <= j < i && !rs[j].live by {
                        assert(j != i);
                    }
                }
            }
            i = i + 1;
        }
        proof {
            assert(spec_compact_from(rs, n as int) =~= Seq::<u8>::empty());
            assert(out@ + spec_compact_from(rs, n as int) =~= out@);
            assert(spec_live_pairs_from(rs, n as int) =~= Seq::<(Seq<char>, Seq<char>)>::empty());
            assert(spec_live_pairs(spec_records(out@)) + spec_live_pairs_from(rs, n as int)
                =~= spec_live_pairs(spec_records(out@)));
            let rs2 = spec_records(out@);
            assert forall|k2: Seq<char>| #[trigger] spec_lookup(rs2, k2) == spec_lookup(
                rs,
                k2,
            ) by {
                lemma_lookup_pairs(rs2, k2);
                lemma_lookup_pairs(rs, k2);
            }
            if spec_at_most_one_live(rs) {
                lemma_live_pairs_from_props(rs, 0);
                lemma_all_live_pairs(rs2, 0);
                assert forall|a: int, b: int|
                    #![trigger rs2[a], rs2[b]]
                    0 <= a < b < rs2.len() && rs2[a].live && rs2[b].live implies rs2[a].key
                    != rs2[b].key by {
                    assert(spec_live_pairs(rs2)[a] == (rs2[a].key, rs2[a].value));
                    assert(spec_live_pairs(rs2)[b] == (rs2[b].key, rs2[b].value));
                    assert(spec_live_pairs(rs2)[a].0 != spec_live_pairs(rs2)[b].0);
                }
            }
        }
        self.log = out;
        Ok(self.log.len())
    }

    /// The value of the first live record holding `k`.
    ///
    /// Fails with `NotFound` where no live record holds the key, and with
    /// `Corruption` where the log bytes do not parse.
    pub fn get(&self, k: &str) -> (r: Result<String, StoreError>)
        ensures
            match r {
                Ok(v) => spec_parses(self@) && spec_lookup(spec_records(self@), k@) == Some(v@),
                Err(e) => (e == StoreError::Corruption && !spec_parses(self@)) || (e
                    == StoreError::NotFound && spec_parses(self@) && spec_lookup(
                    spec_records(self@),
                    k@,
                ) is None),
            },
    {
        let (_entries, end) = scan_records(self.log.as_slice());
        if end != self.log.len() {
            return Err(StoreError::Corruption);
        }
        match self.find_key(k) {
            Some(e) => Ok(e.value),
            None => Err(StoreError::NotFound),
        }
    }

    /// Every live key with its value, in file order.
    ///
    /// Fails with `Corruption` where the log bytes do not parse.
    pub fn dump(&self) -> (r: Result<Vec<(String, String)>, StoreError>)
        ensures
            match r {
                Ok(m) => spec_parses(self@) && m@.map_values(|p: (String, String)| (p.0@, p.1@))
                    == spec_live_pairs(spec_records(self@)),
                Err(e) => e == StoreError::Corruption && !spec_parses(self@),
            },
    {
        let (entries, end) = scan_records(self.log.as_slice());
        if end != self.log.len() {
            return Err(StoreError::Corruption);
        }
        let ghost rs = spec_records(self@);
        let ghost pview = |p: (String, String)| (p.0@, p.1@);
        let mut out: Vec<(String, String)> = Vec::new();
        proof {
            assert(out@.map_values(pview) =~= Seq::<(Seq<char>, Seq<char>)>::empty());
            assert(out@.map_values(pview) + spec_live_pairs_from(rs, 0) =~= spec_live_pairs_from(
                rs,
                0,
            ));
        }
        let n = entries.len();
        let mut i: usize = 0;
        while i < n
            invariant
                0 <= i <= n,
                n == entries@.len(),
                rs == spec_records(self@),
                views_of(entries@) == rs,
                pview == (|p: (String, String)| (p.0@, p.1@)),
                spec_live_pairs(rs) == out@.map_values(pview) + spec_live_pairs_from(
                    rs,
                    i as int,
                ),
            decreases n - i,
        {
            let e = &entries[i];
            assert(rs[i as int] == e@);
            let ghost old_out = out@;
            if e.live {
                out.push((e.key.clone(), e.value.clone()));
                proof {
                    assert(out@.map_values(pview) =~= old_out.map_values(pview) + seq![
                        (e.key@, e.value@),
                    ]);
                    assert(old_out.map_values(pview) + (seq![(e.key@, e.value@)]
                        + spec_live_pairs_from(rs, i + 1)) =~= out@.map_values(pview)
                        + spec_live_pairs_from(rs, i + 1));
                }
            }
            i = i + 1;
        }
        proof {
            assert(spec_live_pairs_from(rs, n as int) =~= Seq::<(Seq<char>, Seq<char>)>::empty());
            assert(out@.map_values(pview) + Seq::<(Seq<char>, Seq<char>)>::empty() =~= out@
                .map_values(pview));
        }
        Ok(out)
    }
}

} // verus!
