//! A case-insensitive header multimap and the incremental parser for one
//! header block. Keys are stored lowercased; setting a name twice merges
//! the values as `"old, new"`.

use vstd::prelude::*;

verus! {

use vstd::map::*;
use vstd::slice::{slice_index_get, slice_subrange};
use vstd::utf8::{valid_utf8, decode_utf8};
use crate::text::{
    is_token,
    is_token_byte,
    check_token,
    trim_spec,
    trim_bytes,
    first_byte,
    find_byte,
    first_crlf,
    find_crlf,
    lemma_first_crlf_characterization,
    lemma_first_crlf_append,
    lemma_first_byte_characterization,
    ascii_chars_of,
    lemma_ascii_bytes_decode,
    lemma_token_is_ascii,
    lower_chars,
    lemma_lower_chars_idempotent,
    ascii_lower,
    bytes_to_string,
};
use crate::error::ParseError;

/// One header block on the wire: each entry as `name: value` with CRLF,
/// then a bare CRLF.
pub open spec fn spec_header_lines(es: Seq<(Seq<char>, Seq<char>)>) -> Seq<char>
    decreases es.len(),
{
    if es.len() == 0 {
        "\r\n"@
    } else {
        es[0].0 + ": "@ + es[0].1 + "\r\n"@ + spec_header_lines(es.skip(1))
    }
}

/// The map that a sequence of (name, value) entries denotes: later entries
/// shadow earlier ones with the same name.
pub open spec fn assoc_map(es: Seq<(String, String)>) -> Map<Seq<char>, Seq<char>>
    decreases es.len(),
{
    if es.len() == 0 {
        Map::empty()
    } else {
        assoc_map(es.drop_last()).insert(es.last().0@, es.last().1@)
    }
}

/// An entry's key is in the map and maps to that entry's value, as long as
/// keys are distinct.
proof fn lemma_assoc_map_index(es: Seq<(String, String)>, i: int)
    requires
        0 <= i < es.len(),
        forall|a: int, b: int| 0 <= a < b < es.len() ==> es[a].0@ != es[b].0@,
    ensures
        assoc_map(es).contains_key(es[i].0@),
        assoc_map(es)[es[i].0@] == es[i].1@,
    decreases es.len(),
{
    if i == es.len() - 1 {
    } else {
        lemma_assoc_map_index(es.drop_last(), i);
        assert(es.drop_last()[i] == es[i]);
        assert(es.last().0@ != es[i].0@);
    }
}

/// A key that no entry carries is absent from the map.
proof fn lemma_assoc_map_absent(es: Seq<(String, String)>, k: Seq<char>)
    requires
        forall|i: int| 0 <= i < es.len() ==> (#[trigger] es[i].0@) != k,
    ensures
        !assoc_map(es).contains_key(k),
    decreases es.len(),
{
    if es.len() > 0 {
        lemma_assoc_map_absent(es.drop_last(), k);
    }
}

/// Every key in the map is carried by some entry.
proof fn lemma_assoc_map_keys(es: Seq<(String, String)>, k: Seq<char>)
    requires
        assoc_map(es).contains_key(k),
    ensures
        exists|i: int| 0 <= i < es.len() && (#[trigger] es[i].0@) == k,
    decreases es.len(),
{
    if es.len() > 0 {
        if es.last().0@ == k {
            assert(es[es.len() - 1].0@ == k);
        } else {
            lemma_assoc_map_keys(es.drop_last(), k);
            let i = choose|i: int| 0 <= i < es.drop_last().len() && (#[trigger] es.drop_last()[i].0@)
                == k;
            assert(es[i].0@ == k);
        }
    }
}

/// A case-insensitive map from header field names to values.
#[derive(Debug)]
pub struct Headers {
    entries: Vec<(String, String)>,
}

impl View for Headers {
    type V = Map<Seq<char>, Seq<char>>;

    closed spec fn view(&self) -> Map<Seq<char>, Seq<char>> {
        assoc_map(self.entries@)
    }
}

/// Looking a name up: lowercase it, then find it exactly.
pub open spec fn spec_get(m: Map<Seq<char>, Seq<char>>, key: Seq<char>) -> Option<Seq<char>> {
    if m.contains_key(lower_chars(key)) {
        Some(m[lower_chars(key)])
    } else {
        None
    }
}

/// Setting a name: lowercase it; a repeated name appends to the stored
/// value as `"old, new"`, a fresh one is inserted.
pub open spec fn spec_set(m: Map<Seq<char>, Seq<char>>, key: Seq<char>, value: Seq<char>) -> Map<
    Seq<char>,
    Seq<char>,
> {
    let k = lower_chars(key);
    if m.contains_key(k) {
        m.insert(k, m[k] + ", "@ + value)
    } else {
        m.insert(k, value)
    }
}

/// Header lookup is case-insensitive: keys that agree up to ASCII case find
/// the same value.
pub proof fn lemma_get_case_insensitive(m: Map<Seq<char>, Seq<char>>, k1: Seq<char>, k2: Seq<char>)
    requires
        lower_chars(k1) == lower_chars(k2),
    ensures
        spec_get(m, k1) == spec_get(m, k2),
{
}

impl Headers {
    /// Internal shape: keys are stored lowercased, and no key repeats.
    pub closed spec fn wf(&self) -> bool {
        let es = self.entries@;
        (forall|a: int, b: int| 0 <= a < b < es.len() ==> es[a].0@ != es[b].0@) && (forall|i: int|
            0 <= i < es.len() ==> (#[trigger] es[i].0@) == lower_chars(es[i].0@))
    }

    /// The stored entries in insertion order, as (name, value) views.
    pub closed spec fn entries_seq(&self) -> Seq<(Seq<char>, Seq<char>)> {
        self.entries@.map_values(|e: (String, String)| (e.0@, e.1@))
    }

    /// Each stored entry is reflected in the map.
    pub proof fn lemma_entries_in_view(&self, i: int)
        requires
            self.wf(),
            0 <= i < self.entries_seq().len(),
        ensures
            self@.contains_key(self.entries_seq()[i].0),
            self@[self.entries_seq()[i].0] == self.entries_seq()[i].1,
    {
        lemma_assoc_map_index(self.entries@, i);
    }

    /// An empty header map.
    pub fn new() -> (r: Headers)
        ensures
            r.wf(),
            r@ == Map::<Seq<char>, Seq<char>>::empty(),
            r.entries_seq().len() == 0,
    {
        Headers { entries: Vec::new() }
    }

    /// True when no header has been stored.
    pub fn is_empty(&self) -> (r: bool)
        requires
            self.wf(),
        ensures
            r == (self@ == Map::<Seq<char>, Seq<char>>::empty()),
            r == (self.entries_seq().len() == 0),
    {
        let r = self.entries.is_empty();
        proof {
            if self.entries@.len() == 0 {
                assert(self@ =~= Map::<Seq<char>, Seq<char>>::empty());
            } else {
                lemma_assoc_map_index(self.entries@, 0);
                assert(self@ != Map::<Seq<char>, Seq<char>>::empty());
            }
        }
        r
    }

    /// Looks a field name up, ignoring ASCII case.
    pub fn get(&self, key: &str) -> (r: Option<&String>)
        requires
            self.wf(),
        ensures
            match r {
                Some(v) => spec_get(self@, key@) == Some(v@),
                None => spec_get(self@, key@) is None,
            },
    {
        let lk = ascii_lower(key);
        let n = self.entries.len();
        let mut i: usize = 0;
        while i < n
            invariant
                self.wf(),
                n == self.entries@.len(),
                i <= n,
                lk@ == lower_chars(key@),
                forall|j: int| 0 <= j < i ==> (#[trigger] self.entries@[j].0@) != lk@,
            decreases n - i,
        {
            if self.entries[i].0 == lk {
                proof {
                    lemma_assoc_map_index(self.entries@, i as int);
                }
                return Some(&self.entries[i].1);
            }
            i = i + 1;
        }
        proof {
            lemma_assoc_map_absent(self.entries@, lk@);
        }
        None
    }

    /// Stores a field. The name is lowercased; when it is already present
    /// the new value is appended to the old one as `"old, new"`.
    pub fn set(&mut self, key: &str, value: &str)
        requires
            old(self).wf(),
        ensures
            final(self).wf(),
            final(self)@ == spec_set(old(self)@, key@, value@),
            old(self)@.contains_key(lower_chars(key@)) ==> (exists|i: int|
                0 <= i < old(self).entries_seq().len() && (#[trigger] old(self).entries_seq()[i]).0
                    == lower_chars(key@) && final(self).entries_seq() == old(
                    self,
                ).entries_seq().update(
                    i,
                    (lower_chars(key@), old(self)@[lower_chars(key@)] + ", "@ + value@),
                )),
            !old(self)@.contains_key(lower_chars(key@)) ==> final(self).entries_seq() == old(
                self,
            ).entries_seq().push((lower_chars(key@), value@)),
    {
        let lk = ascii_lower(key);
        proof {
            lemma_lower_chars_idempotent(key@);
        }
        let n = self.entries.len();
        let mut i: usize = 0;
        while i < n
            invariant
                *self == *old(self),
                self.wf(),
                n == self.entries@.len(),
                lk@ == lower_chars(key@),
                i <= n,
                forall|j: int| 0 <= j < i ==> (#[trigger] self.entries@[j].0@) != lk@,
            decreases n - i,
        {
            if self.entries[i].0 == lk {
                proof {
                    lemma_assoc_map_index(self.entries@, i as int);
                }
                let merged = self.entries[i].1.clone().concat(", ").concat(value);
                let mut nv: Vec<(String, String)> = Vec::new();
                let mut j: usize = 0;
                while j < n
                    invariant
                        *self == *old(self),
                        self.wf(),
                        lk@ == lower_chars(key@),
                        n == self.entries@.len(),
                        i < n,
                        j <= n,
                        nv@.len() == j,
                        merged@ == self.entries@[i as int].1@ + ", "@ + value@,
                        lk@ == self.entries@[i as int].0@,
                        forall|t: int| 0 <= t < j && t != i ==> #[trigger] nv@[t] == self.entries@[t],
                        i < j ==> nv@[i as int].0@ == lk@ && nv@[i as int].1@ == merged@,
                    decreases n - j,
                {
                    if j == i {
                        nv.push((lk.clone(), merged.clone()));
                    } else {
                        nv.push((self.entries[j].0.clone(), self.entries[j].1.clone()));
                    }
                    j = j + 1;
                }
                proof {
                    let es = self.entries@;
                    let es2 = nv@;
                    let k = lk@;
                    lemma_assoc_map_index(es, i as int);
                    assert forall|a: int, b: int| 0 <= a < b < es2.len() implies es2[a].0@ != es2[b].0@ by {
                        assert(es2[a].0@ == es[a].0@);
                        assert(es2[b].0@ == es[b].0@);
                    }
                    assert forall|t: int| 0 <= t < es2.len() implies (#[trigger] es2[t].0@)
                        == lower_chars(es2[t].0@) by {
                        assert(es2[t].0@ == es[t].0@);
                    }
                    assert forall|t: int| 0 <= t < es2.len() implies assoc_map(es2).contains_key(
                        (#[trigger] es2[t].0@),
                    ) && assoc_map(es2)[es2[t].0@] == es2[t].1@ by {
                        lemma_assoc_map_index(es2, t);
                    }
                    let target = spec_set(assoc_map(es), key@, value@);
                    assert(target == assoc_map(es).insert(k, es[i as int].1@ + ", "@ + value@));
                    let am2 = assoc_map(es2);
                    assert(old(self).entries_seq()[i as int].0 == k);
                    assert(es2.map_values(|e: (String, String)| (e.0@, e.1@)) =~= old(
                        self,
                    ).entries_seq().update(i as int, (k, assoc_map(es)[k] + ", "@ + value@)));
                    assert_maps_equal!(am2, target, q => {
                        if assoc_map(es2).contains_key(q) {
                            lemma_assoc_map_keys(es2, q);
                            let t = choose|t: int|
                                0 <= t < es2.len() && (#[trigger] es2[t].0@) == q;
                            lemma_assoc_map_index(es2, t);
                            assert(es[t].0@ == q);
                            lemma_assoc_map_index(es, t);
                            if t == i {
                                assert(assoc_map(es2)[q] == merged@);
                            } else {
                                assert(q != k);
                                assert(assoc_map(es2)[q] == es[t].1@);
                            }
                            assert(target.contains_key(q));
                        } else {
                            if target.contains_key(q) {
                                if q == k {
                                    lemma_assoc_map_index(es2, i as int);
                                    assert(false);
                                } else {
                                    lemma_assoc_map_keys(es, q);
                                    let t = choose|t: int|
                                        0 <= t < es.len() && (#[trigger] es[t].0@) == q;
                                    assert(es2[t].0@ == q);
                                    lemma_assoc_map_index(es2, t);
                                    assert(false);
                                }
                            }
                        }
                    });
                }
                self.entries = nv;
                return ;
            }
            i = i + 1;
        }
        proof {
            lemma_assoc_map_absent(self.entries@, lk@);
        }
        let mut sv = String::new();
        sv.append(value);
        self.entries.push((lk, sv));
        proof {
            let es2 = self.entries@;
            let es = old(self).entries@;
            assert(es2.drop_last() =~= es);
            assert(es2.last().0@ == lower_chars(key@));
            assert forall|a: int, b: int| 0 <= a < b < es2.len() implies es2[a].0@ != es2[b].0@ by {
                if b < es2.len() - 1 {
                    assert(es[a].0@ != es[b].0@);
                } else {
                    assert(es[a].0@ != lower_chars(key@));
                }
            }
            assert(assoc_map(es2) == spec_set(assoc_map(es), key@, value@));
            assert(es2.last().1@ =~= value@);
            assert(es2.map_values(|e: (String, String)| (e.0@, e.1@)) =~= old(
                self,
            ).entries_seq().push((lower_chars(key@), value@)));
        }
    }

    /// Calls `f` on each stored (name, value) pair, in insertion order.
    pub fn for_each<F: Fn(&String, &String)>(&self, f: F)
        requires
            self.wf(),
            forall|k: &String, v: &String| #[trigger] call_requires(f, (k, v)),
    {
        let n = self.entries.len();
        let mut i: usize = 0;
        while i < n
            invariant
                n == self.entries@.len(),
                forall|k: &String, v: &String| #[trigger] call_requires(f, (k, v)),
            decreases n - i,
        {
            f(&self.entries[i].0, &self.entries[i].1);
            i = i + 1;
        }
    }

    /// Serializes the stored entries, each as `name: value` followed by
    /// CRLF, then a terminating blank line. Entries appear in storage
    /// order; cross-header order is not part of the wire contract.
    pub fn serialize(&self) -> (r: String)
        requires
            self.wf(),
        ensures
            r@ == spec_header_lines(self.entries_seq()),
    {
        let mut out = String::new();
        let n = self.entries.len();
        let mut i: usize = 0;
        proof {
            assert(self.entries_seq().skip(0) =~= self.entries_seq());
        }
        while i < n
            invariant
                n == self.entries@.len(),
                i <= n,
                spec_header_lines(self.entries_seq()) == out@ + spec_header_lines(
                    self.entries_seq().skip(i as int),
                ),
            decreases n - i,
        {
            let ghost pre = out@;
            out.append(self.entries[i].0.as_str());
            out.append(": ");
            out.append(self.entries[i].1.as_str());
            out.append("\r\n");
            proof {
                let es = self.entries_seq();
                assert(es.skip(i as int)[0] == es[i as int]);
                assert(es.skip(i as int).skip(1) =~= es.skip(i + 1));
                assert(out@ =~= pre + (es[i as int].0 + ": "@ + es[i as int].1 + "\r\n"@));
                assert(pre + (es[i as int].0 + ": "@ + es[i as int].1 + "\r\n"@)
                    + spec_header_lines(es.skip(i + 1)) =~= pre + ((es[i as int].0 + ": "@
                    + es[i as int].1 + "\r\n"@) + spec_header_lines(es.skip(i + 1))));
            }
            i = i + 1;
        }
        out.append("\r\n");
        proof {
            assert(self.entries_seq().skip(n as int) =~= Seq::<(Seq<char>, Seq<char>)>::empty());
        }
        out
    }

    /// Parses complete `name: value` lines out of `buffer` into the map,
    /// until a bare CRLF ends the block. Returns whether the block is
    /// complete and how many bytes were consumed; a trailing partial line
    /// is never consumed.
    pub fn parse(&mut self, buffer: &[u8]) -> (r: Result<(bool, usize), ParseError>)
        requires
            old(self).wf(),
        ensures
            final(self).wf(),
            ({
                let o = parse_block(buffer@, old(self)@);
                match o {
                    BlockOutcome::Incomplete { used, hs } => r == Ok::<(bool, usize), ParseError>(
                        (false, used as usize),
                    ) && final(self)@ == hs,
                    BlockOutcome::Complete { used, hs } => r == Ok::<(bool, usize), ParseError>(
                        (true, used as usize),
                    ) && final(self)@ == hs,
                    BlockOutcome::Malformed { hs } => r == Err::<(bool, usize), ParseError>(
                        ParseError::MalformedHeader,
                    ) && final(self)@ == hs,
                }
            }),
    {
        let ghost m0 = old(self)@;
        let n = buffer.len();
        let mut consumed: usize = 0;
        proof {
            assert(buffer@.skip(0) =~= buffer@);
            assert(add_used(parse_block(buffer@, m0), 0) == parse_block(buffer@, m0));
        }
        loop
            invariant
                self.wf(),
                m0 == old(self)@,
                n == buffer@.len(),
                consumed <= n,
                parse_block(buffer@, m0) == add_used(
                    parse_block(buffer@.skip(consumed as int), self@),
                    consumed as int,
                ),
            decreases n - consumed,
        {
            let rest = slice_subrange(buffer, consumed, n);
            proof {
                assert(rest@ =~= buffer@.skip(consumed as int));
                lemma_first_crlf_characterization(rest@);
                lemma_parse_block_used(buffer@, m0);
                lemma_parse_block_used(rest@, self@);
            }
            match find_crlf(rest) {
                None => {
                    proof {
                        assert(parse_block(rest@, self@) == BlockOutcome::Incomplete {
                            used: 0,
                            hs: self@,
                        });
                    }
                    return Ok((false, consumed));
                },
                Some(i) => {
                    if i == 0 {
                        proof {
                            assert(parse_block(rest@, self@) == BlockOutcome::Complete {
                                used: 2,
                                hs: self@,
                            });
                        }
                        return Ok((true, consumed + 2));
                    }
                    let line = trim_bytes(slice_subrange(rest, 0, i));
                    proof {
                        assert(rest@.subrange(0, i as int) =~= rest@.take(i as int));
                    }
                    match parse_header(line) {
                        Err(e) => {
                            proof {
                                assert(parse_block(rest@, self@) == BlockOutcome::Malformed {
                                    hs: self@,
                                });
                            }
                            return Err(e);
                        },
                        Ok((name, value)) => {
                            let ghost prev = self@;
                            self.set(name.as_str(), value.as_str());
                            proof {
                                let b = rest@;
                                let ii = i as int;
                                let nv = parse_header_line(trim_spec(b.take(ii)))->Some_0;
                                assert(name@ == ascii_chars_of(nv.0));
                                assert(value@ == decode_utf8(nv.1));
                                assert(self@ == spec_set(prev, ascii_chars_of(nv.0), decode_utf8(nv.1)));
                                assert(parse_block(b, prev) == add_used(
                                    parse_block(b.skip(ii + 2), self@),
                                    ii + 2,
                                ));
                                assert(b.skip(ii + 2) =~= buffer@.skip(consumed + ii + 2));
                                lemma_add_used_assoc(
                                    parse_block(b.skip(ii + 2), self@),
                                    ii + 2,
                                    consumed as int,
                                );
                            }
                            consumed = consumed + i + 2;
                        },
                    }
                },
            }
        }
    }
}

/// One call of the block parser, described on the byte sequence: which
/// complete lines it consumes, what it stores, and how it ends.
pub enum BlockOutcome {
    /// No terminating blank line yet: `used` bytes of complete lines were
    /// consumed and stored in `hs`; the rest must be re-presented later.
    Incomplete { used: int, hs: Map<Seq<char>, Seq<char>> },
    /// A bare CRLF ended the block right after `used` bytes.
    Complete { used: int, hs: Map<Seq<char>, Seq<char>> },
    /// A complete line failed to parse; `hs` holds the lines stored before
    /// the bad one.
    Malformed { hs: Map<Seq<char>, Seq<char>> },
}

/// Shifts an outcome's consumed count by `d`.
pub open spec fn add_used(o: BlockOutcome, d: int) -> BlockOutcome {
    match o {
        BlockOutcome::Incomplete { used, hs } => BlockOutcome::Incomplete { used: used + d, hs },
        BlockOutcome::Complete { used, hs } => BlockOutcome::Complete { used: used + d, hs },
        BlockOutcome::Malformed { hs } => BlockOutcome::Malformed { hs },
    }
}

proof fn lemma_add_used_assoc(o: BlockOutcome, a: int, b: int)
    ensures
        add_used(add_used(o, a), b) == add_used(o, a + b),
{
}

/// Splits one trimmed header line into its name and trimmed value bytes.
/// Rejects a missing colon, a name outside the token character set, a
/// space immediately before the colon, and a value that is not UTF-8.
pub open spec fn parse_header_line(line: Seq<u8>) -> Option<(Seq<u8>, Seq<u8>)> {
    match first_byte(line, 58) {
        None => None,
        Some(ci) => {
            let name = line.take(ci);
            let value = trim_spec(line.skip(ci + 1));
            if !is_token(name) {
                None
            } else if ci > 0 && line[ci - 1] == 32 {
                None
            } else if !valid_utf8(value) {
                None
            } else {
                Some((name, value))
            }
        },
    }
}

/// What one call of [`Headers::parse`] does with buffer `b`, starting from
/// the stored map `m`: consume each complete `name: value` line in order,
/// stopping at a bare CRLF, at a partial trailing line, or at the first
/// line that does not parse.
pub open spec fn parse_block(b: Seq<u8>, m: Map<Seq<char>, Seq<char>>) -> BlockOutcome
    decreases b.len(),
    via parse_block_decreases
{
    match first_crlf(b) {
        None => BlockOutcome::Incomplete { used: 0, hs: m },
        Some(i) => {
            if i == 0 {
                BlockOutcome::Complete { used: 2, hs: m }
            } else {
                match parse_header_line(trim_spec(b.take(i))) {
                    None => BlockOutcome::Malformed { hs: m },
                    Some(nv) => add_used(
                        parse_block(
                            b.skip(i + 2),
                            spec_set(m, ascii_chars_of(nv.0), decode_utf8(nv.1)),
                        ),
                        i + 2,
                    ),
                }
            }
        },
    }
}

#[via_fn]
proof fn parse_block_decreases(b: Seq<u8>, m: Map<Seq<char>, Seq<char>>) {
    lemma_first_crlf_characterization(b);
}

/// Consumed counts reported by [`parse_block`] stay within the buffer.
pub proof fn lemma_parse_block_used(b: Seq<u8>, m: Map<Seq<char>, Seq<char>>)
    ensures
        match parse_block(b, m) {
            BlockOutcome::Incomplete { used, .. } => 0 <= used <= b.len(),
            BlockOutcome::Complete { used, .. } => 2 <= used <= b.len(),
            BlockOutcome::Malformed { .. } => true,
        },
    decreases b.len(),
{
    lemma_first_crlf_characterization(b);
    match first_crlf(b) {
        None => {},
        Some(i) => {
            if i > 0 {
                match parse_header_line(trim_spec(b.take(i))) {
                    None => {},
                    Some(nv) => {
                        lemma_parse_block_used(
                            b.skip(i + 2),
                            spec_set(m, ascii_chars_of(nv.0), decode_utf8(nv.1)),
                        );
                    },
                }
            }
        },
    }
}

/// Parses one trimmed header line into its name and value strings.
pub fn parse_header(line: &[u8]) -> (r: Result<(String, String), ParseError>)
    ensures
        match parse_header_line(line@) {
            Some(nv) => r matches Ok(p) && p.0@ == ascii_chars_of(nv.0) && p.1@ == decode_utf8(
                nv.1,
            ),
            None => r == Err::<(String, String), ParseError>(ParseError::MalformedHeader),
        },
{
    match find_byte(line, 58) {
        None => Err(ParseError::MalformedHeader),
        Some(ci) => {
            let llen = line.len();
            proof {
                lemma_first_byte_characterization(line@, 58);
                assert(ci < line@.len());
            }
            let name = slice_subrange(line, 0, ci);
            let value = trim_bytes(slice_subrange(line, ci + 1, llen));
            proof {
                assert(name@ =~= line@.take(ci as int));
                assert(line@.subrange(ci + 1, line@.len() as int) =~= line@.skip(ci + 1));
            }
            if !check_token(name) {
                return Err(ParseError::MalformedHeader);
            }
            if ci > 0 && *slice_index_get(line, ci - 1) == 32u8 {
                return Err(ParseError::MalformedHeader);
            }
            let vs = match bytes_to_string(value) {
                Some(s) => s,
                None => {
                    return Err(ParseError::MalformedHeader);
                },
            };
            proof {
                lemma_token_is_ascii(name@);
                lemma_ascii_bytes_decode(name@);
            }
            let ns = match bytes_to_string(name) {
                Some(s) => s,
                None => {
                    proof {
                        assert(false);
                    }
                    return Err(ParseError::MalformedHeader);
                },
            };
            Ok((ns, vs))
        },
    }
}

/// A header block may be fed in arbitrary fragments: after a partial parse
/// consumed `used` bytes and stored `hs`, presenting the unconsumed
/// remainder plus any further bytes continues exactly where it left off.
/// Feeding a block whole or one byte at a time therefore ends in the same
/// outcome, at the same offset, with the same stored headers.
pub proof fn lemma_parse_block_resumable(b: Seq<u8>, ext: Seq<u8>, m: Map<Seq<char>, Seq<char>>)
    requires
        parse_block(b, m) is Incomplete,
    ensures
        ({
            let used = parse_block(b, m)->Incomplete_used;
            let hs = parse_block(b, m)->Incomplete_hs;
            parse_block(b + ext, m) == add_used(parse_block(b.skip(used) + ext, hs), used)
        }),
    decreases b.len(),
{
    lemma_first_crlf_characterization(b);
    match first_crlf(b) {
        None => {
            assert(b.skip(0) + ext =~= b + ext);
            let o = parse_block(b + ext, m);
            assert(add_used(o, 0) == o);
        },
        Some(i) => {
            lemma_first_crlf_append(b, ext);
            assert((b + ext).take(i) =~= b.take(i));
            let nv = parse_header_line(trim_spec(b.take(i)))->Some_0;
            let m2 = spec_set(m, ascii_chars_of(nv.0), decode_utf8(nv.1));
            let inner = parse_block(b.skip(i + 2), m2);
            let used2 = inner->Incomplete_used;
            let hs = inner->Incomplete_hs;
            lemma_parse_block_used(b.skip(i + 2), m2);
            lemma_parse_block_resumable(b.skip(i + 2), ext, m2);
            assert((b + ext).skip(i + 2) =~= b.skip(i + 2) + ext);
            assert(b.skip(i + 2).skip(used2) =~= b.skip(i + 2 + used2));
            lemma_add_used_assoc(
                parse_block(b.skip(i + 2 + used2) + ext, hs),
                used2,
                i + 2,
            );
        },
    }
}

/// Extra bytes after a block's outcome do not change it: once the parser
/// has completed or rejected a block, appending input leaves the result
/// untouched.
pub proof fn lemma_parse_block_append_stable(b: Seq<u8>, ext: Seq<u8>, m: Map<Seq<char>, Seq<char>>)
    requires
        !(parse_block(b, m) is Incomplete),
    ensures
        parse_block(b + ext, m) == parse_block(b, m),
    decreases b.len(),
{
    lemma_first_crlf_characterization(b);
    match first_crlf(b) {
        None => {},
        Some(i) => {
            lemma_first_crlf_append(b, ext);
            if i > 0 {
                assert((b + ext).take(i) =~= b.take(i));
                match parse_header_line(trim_spec(b.take(i))) {
                    None => {},
                    Some(nv) => {
                        let m2 = spec_set(m, ascii_chars_of(nv.0), decode_utf8(nv.1));
                        lemma_parse_block_append_stable(b.skip(i + 2), ext, m2);
                        assert((b + ext).skip(i + 2) =~= b.skip(i + 2) + ext);
                    },
                }
            }
        },
    }
}

/// Parsing a block only ever adds keys: one that is present stays present.
pub proof fn lemma_parse_block_monotone(b: Seq<u8>, m: Map<Seq<char>, Seq<char>>, k: Seq<char>)
    requires
        m.contains_key(k),
    ensures
        match parse_block(b, m) {
            BlockOutcome::Incomplete { hs, .. } => hs.contains_key(k),
            BlockOutcome::Complete { hs, .. } => hs.contains_key(k),
            BlockOutcome::Malformed { hs } => hs.contains_key(k),
        },
    decreases b.len(),
{
    lemma_first_crlf_characterization(b);
    match first_crlf(b) {
        None => {},
        Some(i) => {
            if i > 0 {
                match parse_header_line(trim_spec(b.take(i))) {
                    None => {},
                    Some(nv) => {
                        let m2 = spec_set(m, ascii_chars_of(nv.0), decode_utf8(nv.1));
                        assert(m2.contains_key(k));
                        lemma_parse_block_monotone(b.skip(i + 2), m2, k);
                    },
                }
            }
        },
    }
}

/// A line with no colon, or whose field name holds a byte outside the
/// token character set, never parses as a header.
pub proof fn lemma_malformed_header_line(line: Seq<u8>)
    requires
        ({
            match first_byte(line, 58) {
                None => true,
                Some(ci) => exists|i: int| 0 <= i < ci && !is_token_byte(#[trigger] line[i]),
            }
        }),
    ensures
        parse_header_line(line) is None,
{
    match first_byte(line, 58) {
        None => {},
        Some(ci) => {
            lemma_first_byte_characterization(line, 58);
            let i = choose|i: int| 0 <= i < ci && !is_token_byte(#[trigger] line[i]);
            assert(line.take(ci)[i] == line[i]);
            assert(!is_token(line.take(ci)));
        },
    }
}

} // verus!
