//! The command dispatcher: one line of input in, one reply out.
//!
//! A line is split into whitespace-delimited tokens; the first token selects
//! the verb, the following ones its arguments.  Store failures never escape:
//! each is rendered as an error reply for the one connection that caused it.

use vstd::prelude::*;
use vstd::string::StringExecFns;
use vstd::utf8::encode_utf8;

use crate::codec::{spec_encode_record, spec_parses, spec_records};
use crate::store::{
    spec_compact_bytes, spec_find_live, spec_live_pairs, spec_lookup, spec_tombstone_bytes,
    DiskMap,
};
use crate::text::{nth_token, spec_dec, spec_has_token, spec_token, str_eq, dec_string};
use crate::HEADER_SIZE;
use crate::StoreError;

verus! {

/// What one handled command leaves behind: whether it succeeded, the text
/// of its reply, and the log bytes afterwards.
pub struct SpecReply {
    pub ok: bool,
    pub text: Seq<char>,
    pub log: Seq<u8>,
}

/// The reply to `get <key>`.
pub open spec fn spec_handle_get(log: Seq<u8>, line: Seq<char>) -> SpecReply {
    if !spec_has_token(line, 1) {
        SpecReply { ok: false, text: "missing key argument"@, log }
    } else {
        let k = spec_token(line, 1);
        if !spec_parses(log) {
            SpecReply { ok: false, text: "corrupt log"@, log }
        } else {
            match spec_lookup(spec_records(log), k) {
                Some(v) => SpecReply { ok: true, text: v, log },
                None => SpecReply { ok: false, text: k + " not found"@, log },
            }
        }
    }
}

/// The reply to `set <key> <value>`: the store is changed exactly where the
/// reply reports success.
pub open spec fn spec_handle_set(log: Seq<u8>, line: Seq<char>) -> SpecReply {
    if !spec_has_token(line, 1) {
        SpecReply { ok: false, text: "missing key argument"@, log }
    } else if !spec_has_token(line, 2) {
        SpecReply { ok: false, text: "missing value argument"@, log }
    } else {
        let k = spec_token(line, 1);
        let v = spec_token(line, 2);
        if !spec_parses(log) {
            SpecReply { ok: false, text: "corrupt log"@, log }
        } else if encode_utf8(k).len() > u32::MAX || encode_utf8(v).len() > u32::MAX {
            SpecReply { ok: false, text: "key or value too long"@, log }
        } else {
            let n = HEADER_SIZE + encode_utf8(k).len() + encode_utf8(v).len();
            SpecReply {
                ok: true,
                text: "wrote "@ + k + "="@ + v + ". "@ + spec_dec(n as int) + " bytes"@,
                log: spec_tombstone_bytes(log, k) + spec_encode_record(true, k, v),
            }
        }
    }
}

/// The reply to `delete <key>`.
pub open spec fn spec_handle_delete(log: Seq<u8>, line: Seq<char>) -> SpecReply {
    if !spec_has_token(line, 1) {
        SpecReply { ok: false, text: "missing key argument"@, log }
    } else {
        let k = spec_token(line, 1);
        if !spec_parses(log) {
            SpecReply { ok: false, text: "corrupt log"@, log }
        } else {
            match spec_find_live(spec_records(log), k) {
                Some(i) => SpecReply {
                    ok: true,
                    text: "deleted "@ + k,
                    log: spec_tombstone_bytes(log, k),
                },
                None => SpecReply { ok: false, text: k + " not found"@, log },
            }
        }
    }
}

/// The reply to `compact`.
pub open spec fn spec_handle_compact(log: Seq<u8>) -> SpecReply {
    if !spec_parses(log) {
        SpecReply { ok: false, text: "corrupt log"@, log }
    } else {
        let newlog = spec_compact_bytes(spec_records(log));
        SpecReply {
            ok: true,
            text: "compacted to "@ + spec_dec(newlog.len() as int) + " bytes"@,
            log: newlog,
        }
    }
}

/// The text of a `dump` reply: one `key=value` line per live pair, from
/// pair `i` on.
pub open spec fn spec_dump_text_from(ps: Seq<(Seq<char>, Seq<char>)>, i: int) -> Seq<char>
    decreases ps.len() - i,
    when 0 <= i <= ps.len()
{
    if i >= ps.len() {
        Seq::empty()
    } else {
        ps[i].0 + "="@ + ps[i].1 + "\n"@ + spec_dump_text_from(ps, i + 1)
    }
}

/// The reply to `dump`.
pub open spec fn spec_handle_dump(log: Seq<u8>) -> SpecReply {
    if !spec_parses(log) {
        SpecReply { ok: false, text: "corrupt log"@, log }
    } else {
        SpecReply {
            ok: true,
            text: spec_dump_text_from(spec_live_pairs(spec_records(log)), 0),
            log,
        }
    }
}

/// The reply to one line of input, and the store bytes it leaves behind.
pub open spec fn spec_handle(log: Seq<u8>, line: Seq<char>) -> SpecReply {
    if !spec_has_token(line, 0) {
        SpecReply { ok: false, text: "empty body"@, log }
    } else {
        let verb = spec_token(line, 0);
        if verb == "get"@ {
            spec_handle_get(log, line)
        } else if verb == "set"@ {
            spec_handle_set(log, line)
        } else if verb == "delete"@ {
            spec_handle_delete(log, line)
        } else if verb == "compact"@ {
            spec_handle_compact(log)
        } else if verb == "size"@ {
            SpecReply { ok: true, text: spec_dec(log.len() as int), log }
        } else if verb == "dump"@ {
            spec_handle_dump(log)
        } else {
            SpecReply { ok: true, text: "unrecognized"@, log }
        }
    }
}

/// Something that answers one line of input with one reply.
pub trait Handler {
    /// The reply to one line of input.
    fn handle(&mut self, s: &str) -> String;

    /// The command forms this handler understands.
    fn supported_commands(&self) -> Vec<String>;
}

/// The dispatcher over the disk-backed store.
pub struct DiskHandler {
    disk_map: DiskMap,
}

impl View for DiskHandler {
    type V = Seq<u8>;

    closed spec fn view(&self) -> Seq<u8> {
        self.disk_map@
    }
}

impl DiskHandler {
    /// A dispatcher owning this store.
    pub fn new(disk_map: DiskMap) -> (r: DiskHandler)
        ensures
            r@ == disk_map@,
    {
        DiskHandler { disk_map }
    }

    /// The store behind the dispatcher.
    pub fn store(&self) -> (r: &DiskMap)
        ensures
            r@ == self@,
    {
        &self.disk_map
    }

    /// Routes one line to the store and words the reply: `Ok` text on
    /// success, `Err` message where the command or the store refuses.
    pub fn handle_result(&mut self, s: &str) -> (r: Result<String, String>)
        ensures
            ({
                let rep = spec_handle(old(self)@, s@);
                &&& final(self)@ == rep.log
                &&& match r {
                    Ok(t) => rep.ok && t@ == rep.text,
                    Err(m) => !rep.ok && m@ == rep.text,
                }
            }),
    {
        let verb = match nth_token(s, 0) {
            None => {
                return Err("empty body".to_owned());
            },
            Some(v) => v,
        };
        if str_eq(verb.as_str(), "get") {
            let k = match nth_token(s, 1) {
                None => {
                    return Err("missing key argument".to_owned());
                },
                Some(k) => k,
            };
            match self.disk_map.get(k.as_str()) {
                Ok(v) => Ok(v),
                Err(StoreError::NotFound) => {
                    let mut m = k;
                    m.append(" not found");
                    Err(m)
                },
                Err(StoreError::Corruption) => Err("corrupt log".to_owned()),
                Err(StoreError::Encoding) => {
                    proof {
                        assert(false);
                    }
                    Err("corrupt log".to_owned())
                },
            }
        } else if str_eq(verb.as_str(), "set") {
            let k = match nth_token(s, 1) {
                None => {
                    return Err("missing key argument".to_owned());
                },
                Some(k) => k,
            };
            let v = match nth_token(s, 2) {
                None => {
                    return Err("missing value argument".to_owned());
                },
                Some(v) => v,
            };
            match self.disk_map.set(k.as_str(), v.as_str()) {
                Ok(n) => {
                    let mut m = "wrote ".to_owned();
                    m.append(k.as_str());
                    m.append("=");
                    m.append(v.as_str());
                    m.append(". ");
                    let d = dec_string(n);
                    m.append(d.as_str());
                    m.append(" bytes");
                    Ok(m)
                },
                Err(StoreError::Corruption) => Err("corrupt log".to_owned()),
                Err(StoreError::Encoding) => Err("key or value too long".to_owned()),
                Err(StoreError::NotFound) => {
                    proof {
                        assert(false);
                    }
                    Err("corrupt log".to_owned())
                },
            }
        } else if str_eq(verb.as_str(), "delete") {
            let k = match nth_token(s, 1) {
                None => {
                    return Err("missing key argument".to_owned());
                },
                Some(k) => k,
            };
            match self.disk_map.delete(k.as_str()) {
                Ok(()) => {
                    let mut m = "deleted ".to_owned();
                    m.append(k.as_str());
                    Ok(m)
                },
                Err(StoreError::NotFound) => {
                    let mut m = k;
                    m.append(" not found");
                    Err(m)
                },
                Err(StoreError::Corruption) => Err("corrupt log".to_owned()),
                Err(StoreError::Encoding) => {
                    proof {
                        assert(false);
                    }
                    Err("corrupt log".to_owned())
                },
            }
        } else if str_eq(verb.as_str(), "compact") {
            match self.disk_map.compact() {
                Ok(n) => {
                    let mut m = "compacted to ".to_owned();
                    let d = dec_string(n);
                    m.append(d.as_str());
                    m.append(" bytes");
                    Ok(m)
                },
                Err(e) => Err("corrupt log".to_owned()),
            }
        } else if str_eq(verb.as_str(), "size") {
            Ok(dec_string(self.disk_map.size()))
        } else if str_eq(verb.as_str(), "dump") {
            match self.disk_map.dump() {
                Ok(pairs) => {
                    let ghost ps = pairs@.map_values(|p: (String, String)| (p.0@, p.1@));
                    let mut m = String::new();
                    proof {
                        assert(m@ + spec_dump_text_from(ps, 0) =~= spec_dump_text_from(ps, 0));
                    }
                    let n = pairs.len();
                    let mut i: usize = 0;
                    while i < n
                        invariant
                            0 <= i <= n,
                            n == pairs@.len(),
                            ps == pairs@.map_values(|p: (String, String)| (p.0@, p.1@)),
                            spec_dump_text_from(ps, 0) == m@ + spec_dump_text_from(ps, i as int),
                        decreases n - i,
                    {
                        let pair = &pairs[i];
                        proof {
                            assert(ps[i as int] == (pair.0@, pair.1@));
                        }
                        m.append(pair.0.as_str());
                        m.append("=");
                        m.append(pair.1.as_str());
                        m.append("\n");
                        proof {
                            assert(spec_dump_text_from(ps, i as int) == ps[i as int].0 + "="@
                                + ps[i as int].1 + "\n"@ + spec_dump_text_from(ps, i + 1));
                            assert(m@ + spec_dump_text_from(ps, i + 1) =~= spec_dump_text_from(
                                ps,
                                0,
                            ));
                        }
                        i = i + 1;
                    }
                    proof {
                        assert(spec_dump_text_from(ps, n as int) =~= Seq::<char>::empty());
                        assert(m@ + spec_dump_text_from(ps, n as int) =~= m@);
                    }
                    Ok(m)
                },
                Err(e) => Err("corrupt log".to_owned()),
            }
        } else {
            Ok("unrecognized".to_owned())
        }
    }
}

impl Handler for DiskHandler {
    fn handle(&mut self, s: &str) -> (r: String)
        ensures
            ({
                let rep = spec_handle(old(self)@, s@);
                &&& final(self)@ == rep.log
                &&& r@ == if rep.ok {
                    rep.text
                } else {
                    "error: "@ + rep.text
                }
            }),
    {
        match self.handle_result(s) {
            Ok(out) => out,
            Err(msg) => {
                let mut m = "error: ".to_owned();
                m.append(msg.as_str());
                m
            },
        }
    }

    fn supported_commands(&self) -> (r: Vec<String>)
        ensures
            r@.map_values(|c: String| c@) == seq![
                "get <key>"@,
                "set <key> <value>"@,
                "delete <key>"@,
                "compact"@,
                "size"@,
                "dump"@,
            ],
    {
        let mut v: Vec<String> = Vec::new();
        v.push("get <key>".to_owned());
        v.push("set <key> <value>".to_owned());
        v.push("delete <key>".to_owned());
        v.push("compact".to_owned());
        v.push("size".to_owned());
        v.push("dump".to_owned());
        proof {
            assert(v@.map_values(|c: String| c@) =~= seq![
                "get <key>"@,
                "set <key> <value>"@,
                "delete <key>"@,
                "compact"@,
                "size"@,
                "dump"@,
            ]);
        }
        v
    }
}

/// A handler that answers every line with one fixed reply.
pub struct GetHandler {
    temp: String,
}

impl View for GetHandler {
    type V = Seq<char>;

    closed spec fn view(&self) -> Seq<char> {
        self.temp@
    }
}

impl GetHandler {
    /// A handler that always replies with this text.
    pub fn new(s: &str) -> (r: GetHandler)
        ensures
            r@ == s@,
    {
        GetHandler { temp: s.to_owned() }
    }
}

impl Handler for GetHandler {
    fn handle(&mut self, _s: &str) -> (r: String)
        ensures
            r@ == old(self)@,
            final(self)@ == old(self)@,
    {
        self.temp.clone()
    }

    fn supported_commands(&self) -> (r: Vec<String>)
        ensures
            r@.len() == 0,
    {
        Vec::new()
    }
}

} // verus!
