//! From the raw status response to a snapshot of key/value pairs.
use vstd::prelude::*;
use crate::framing::terminator;
use crate::records::{lemma_split_recovers_records, split, split_records, texts, well_framed, wire_records};
use crate::snapshot::Snapshot;
use crate::text::{
    is_white_space, lemma_trimmed_has_no_outer_white_space, no_outer_white_space, trim_end,
    trim_start, trim_text, trimmed,
};
use crate::units::{strip_unit, strip_units_from_lines};

verus! {

/// `i` is the position of the first `:` of `s`.
pub open spec fn first_colon_at(s: Seq<char>, i: int) -> bool {
    &&& 0 <= i < s.len()
    &&& s[i] == ':'
    &&& forall|j: int| 0 <= j < i ==> s[j] != ':'
}

/// The key/value pair that a record yields: the record is cut at its first
/// `:` and both sides are trimmed of white space. A record without `:`, or
/// whose key is empty once trimmed, yields nothing.
pub open spec fn record_entry(line: Seq<char>) -> Option<(Seq<char>, Seq<char>)> {
    if exists|i: int| first_colon_at(line, i) {
        let i = choose|i: int| first_colon_at(line, i);
        let key = trimmed(line.subrange(0, i));
        if key.len() > 0 {
            Some((key, trimmed(line.subrange(i + 1, line.len() as int))))
        } else {
            None
        }
    } else {
        None
    }
}

/// The mapping that a sequence of records yields, record by record in
/// order, a later record with the same key replacing an earlier one.
pub open spec fn entries_of(lines: Seq<Seq<char>>) -> Map<Seq<char>, Seq<char>>
    decreases lines.len(),
{
    if lines.len() == 0 {
        Map::empty()
    } else {
        let m = entries_of(lines.drop_last());
        match record_entry(lines.last()) {
            Some(e) => m.insert(e.0, e.1),
            None => m,
        }
    }
}

/// The records of a raw response, with their units stripped when asked.
pub open spec fn prepared_records(raw: Seq<char>, strip_units: bool) -> Seq<Seq<char>> {
    if strip_units {
        split_records(raw).map_values(|r: Seq<char>| strip_unit(r))
    } else {
        split_records(raw)
    }
}

/// The snapshot that a raw status response yields.
pub open spec fn parsed(raw: Seq<char>, strip_units: bool) -> Map<Seq<char>, Seq<char>> {
    entries_of(prepared_records(raw, strip_units))
}

/// The key/value pair of one record, if it has one.
pub fn entry_of_record(line: &str) -> (r: Option<(String, String)>)
    ensures
        match r {
            Some(e) => record_entry(line@) == Some((e.0@, e.1@)),
            None => record_entry(line@) is None,
        },
{
    let n = line.unicode_len();
    let mut i: usize = 0;
    while i < n
        invariant
            n == line@.len(),
            i <= n,
            forall|j: int| 0 <= j < i ==> line@[j] != ':',
        decreases n - i,
    {
        if line.get_char(i) == ':' {
            assert(first_colon_at(line@, i as int));
            let ghost c = choose|c: int| first_colon_at(line@, c);
            assert(c == i) by {
                if c < i {
                    assert(line@[c] != ':');
                } else if c > i {
                    assert(line@[i as int] != ':');
                }
            }
            let key = trim_text(line.substring_char(0, i));
            if key.unicode_len() == 0 {
                return None;
            }
            let value = trim_text(line.substring_char(i + 1, n));
            return Some((String::from_str(key), String::from_str(value)));
        }
        i = i + 1;
    }
    assert(!exists|c: int| first_colon_at(line@, c));
    None
}

/// Parses a raw status response into a snapshot: splits it into records,
/// strips their units when `strip_units` is set, and stores the key/value
/// pair of every record that has one.
pub fn parse(raw_status: &str, strip_units: bool) -> (r: Snapshot)
    ensures
        r.wf(),
        r@ == parsed(raw_status@, strip_units),
{
    let mut lines = split(raw_status);
    if strip_units {
        let stripped = strip_units_from_lines(lines.as_slice());
        assert(texts(stripped@) =~= split_records(raw_status@).map_values(
            |r: Seq<char>| strip_unit(r),
        ));
        lines = stripped;
    }
    let ghost recs = prepared_records(raw_status@, strip_units);
    assert(texts(lines@) == recs);
    let mut snap = Snapshot::new();
    let mut i: usize = 0;
    assert(recs.subrange(0, 0) =~= Seq::<Seq<char>>::empty());
    while i < lines.len()
        invariant
            i <= lines@.len(),
            texts(lines@) == recs,
            snap.wf(),
            snap@ == entries_of(recs.subrange(0, i as int)),
        decreases lines@.len() - i,
    {
        assert(recs.subrange(0, i + 1).drop_last() =~= recs.subrange(0, i as int));
        assert(recs[i as int] == lines@[i as int]@);
        match entry_of_record(lines[i].as_str()) {
            Some(e) => {
                snap.insert(e.0, e.1);
            },
            None => {},
        }
        i = i + 1;
    }
    assert(recs.subrange(0, i as int) =~= recs);
    snap
}

/// Declares `std::io::Error`, carried through as an opaque value: nothing is
/// assumed of what it holds.
#[verifier::external_type_specification]
#[verifier::external_body]
pub struct ExIoError(std::io::Error);

/// The one kind of failure: an I/O error of the connection (refused, reset,
/// timed out, failed read or write), carrying the underlying error.
#[derive(Debug)]
pub enum ApcAccessError {
    IoError(std::io::Error),
}

impl From<std::io::Error> for ApcAccessError {
    fn from(err: std::io::Error) -> (r: Self)
        ensures
            r == ApcAccessError::IoError(err),
    {
        ApcAccessError::IoError(err)
    }
}

impl vstd::std_specs::convert::FromSpecImpl<std::io::Error> for ApcAccessError {
    open spec fn obeys_from_spec() -> bool {
        true
    }

    open spec fn from_spec(err: std::io::Error) -> Self {
        ApcAccessError::IoError(err)
    }
}

/// The text that the bytes of a response decode to, invalid sequences
/// replaced by U+FFFD.
pub uninterp spec fn lossy_text(b: Seq<u8>) -> Seq<char>;

/// Relies on `String::from_utf8_lossy`: decodes UTF-8, replacing each
/// invalid sequence with U+FFFD; the result depends on the bytes alone.
#[verifier::external_body]
fn decode_lossy(b: &[u8]) -> (r: String)
    ensures
        r@ == lossy_text(b@),
{
    String::from_utf8_lossy(b).into_owned()
}

/// Decodes the bytes of a response, never failing on invalid UTF-8, and
/// parses the text into a snapshot.
pub fn parse_response(response: &[u8], strip_units: bool) -> (r: Snapshot)
    ensures
        r.wf(),
        r@ == parsed(lossy_text(response@), strip_units),
{
    let text = decode_lossy(response);
    parse(text.as_str(), strip_units)
}

/// Turns the outcome of one exchange with the server into a snapshot: the
/// bytes read are decoded and parsed in full, and a failure of the
/// exchange is handed back unchanged, never with a partial snapshot.
pub fn fetch_stats(response: Result<Vec<u8>, ApcAccessError>, strip_units: bool) -> (r: Result<
    Snapshot,
    ApcAccessError,
>)
    ensures
        match response {
            Ok(b) => r matches Ok(s) && s.wf() && s@ == parsed(lossy_text(b@), strip_units),
            Err(e) => r == Err::<Snapshot, ApcAccessError>(e),
        },
{
    match response {
        Ok(bytes) => Ok(parse_response(bytes.as_slice(), strip_units)),
        Err(e) => Err(e),
    }
}

proof fn lemma_entries_keys_trimmed(lines: Seq<Seq<char>>)
    ensures
        forall|k: Seq<char>| #[trigger]
            entries_of(lines).contains_key(k) ==> k.len() > 0 && no_outer_white_space(k),
    decreases lines.len(),
{
    if lines.len() > 0 {
        lemma_entries_keys_trimmed(lines.drop_last());
        let line = lines.last();
        if exists|i: int| first_colon_at(line, i) {
            let i = choose|i: int| first_colon_at(line, i);
            lemma_trimmed_has_no_outer_white_space(line.subrange(0, i));
        }
        let m = entries_of(lines.drop_last());
        assert forall|k: Seq<char>| #[trigger]
            entries_of(lines).contains_key(k) implies k.len() > 0 && no_outer_white_space(k) by {
            if !m.contains_key(k) {
                let e = record_entry(line)->Some_0;
                assert(k == e.0);
            }
        }
    }
}

/// Every key of a parsed snapshot is non-empty and neither starts nor ends
/// with white space.
pub proof fn lemma_parsed_keys_are_trimmed(raw: Seq<char>, strip_units: bool)
    ensures
        forall|k: Seq<char>| #[trigger]
            parsed(raw, strip_units).contains_key(k) ==> k.len() > 0 && no_outer_white_space(k),
{
    lemma_entries_keys_trimmed(prepared_records(raw, strip_units));
}

/// The text of a record that carries key `k` and value `v`: `k : v`.
pub open spec fn record_text(k: Seq<char>, v: Seq<char>) -> Seq<char> {
    k + seq![' ', ':', ' '] + v
}

/// A key and a value that a record can carry and give back unchanged: a
/// non-empty key without `:`, neither side with outer white space or a NUL.
pub open spec fn carried_pair(k: Seq<char>, v: Seq<char>) -> bool {
    &&& k.len() > 0
    &&& no_outer_white_space(k)
    &&& no_outer_white_space(v)
    &&& !k.contains(':')
    &&& !k.contains('\0')
    &&& !v.contains('\0')
}

/// The mapping of a sequence of pairs, a later pair with the same key
/// replacing an earlier one.
pub open spec fn pairs_map(ps: Seq<(Seq<char>, Seq<char>)>) -> Map<Seq<char>, Seq<char>>
    decreases ps.len(),
{
    if ps.len() == 0 {
        Map::empty()
    } else {
        pairs_map(ps.drop_last()).insert(ps.last().0, ps.last().1)
    }
}

/// The records that carry the given pairs.
pub open spec fn pair_records(ps: Seq<(Seq<char>, Seq<char>)>) -> Seq<Seq<char>> {
    ps.map_values(|p: (Seq<char>, Seq<char>)| record_text(p.0, p.1))
}

proof fn lemma_record_text_entry(k: Seq<char>, v: Seq<char>)
    requires
        carried_pair(k, v),
    ensures
        record_entry(record_text(k, v)) == Some((k, v)),
{
    let line = record_text(k, v);
    let i = k.len() as int + 1;
    assert(line[i] == ':');
    assert forall|j: int| 0 <= j < i implies line[j] != ':' by {
        if j < k.len() {
            assert(line[j] == k[j]);
            assert(!k.contains(':'));
        }
    }
    assert(first_colon_at(line, i));
    let c = choose|c: int| first_colon_at(line, c);
    assert(c == i) by {
        if c < i {
            assert(line[c] != ':');
        } else if c > i {
            assert(line[i] != ':');
        }
    }
    assert(is_white_space(' '));
    let kp = line.subrange(0, i);
    assert(kp =~= k.push(' '));
    assert(kp[0] == k[0]);
    assert(trim_start(kp) == kp);
    assert(kp.drop_last() =~= k);
    assert(trim_end(kp) == trim_end(k));
    assert(trim_end(k) == k);
    let vp = line.subrange(i + 1, line.len() as int);
    assert(vp =~= seq![' '] + v);
    assert(vp.drop_first() =~= v);
    assert(trim_start(vp) == trim_start(v));
    assert(trim_start(v) == v);
    assert(trim_end(v) == v);
}

proof fn lemma_entries_of_pairs(ps: Seq<(Seq<char>, Seq<char>)>)
    requires
        forall|i: int| 0 <= i < ps.len() ==> carried_pair(#[trigger] ps[i].0, ps[i].1),
    ensures
        entries_of(pair_records(ps)) == pairs_map(ps),
    decreases ps.len(),
{
    if ps.len() > 0 {
        let prev = ps.drop_last();
        assert forall|i: int| 0 <= i < prev.len() implies carried_pair(#[trigger] prev[i].0, prev[i].1) by {
            assert(prev[i] == ps[i]);
        }
        lemma_entries_of_pairs(prev);
        assert(pair_records(ps).drop_last() =~= pair_records(prev));
        let last = ps[ps.len() - 1];
        assert(carried_pair(last.0, last.1));
        lemma_record_text_entry(last.0, last.1);
    }
}

/// Round trip: records in the wire format that carry pairs `ps` (with any
/// length characters `lens` but NUL), followed by the terminator, parse
/// without unit stripping into exactly the mapping of those pairs.
pub proof fn lemma_parse_round_trip(ps: Seq<(Seq<char>, Seq<char>)>, lens: Seq<char>)
    requires
        lens.len() == ps.len(),
        forall|i: int| 0 <= i < ps.len() ==> carried_pair(#[trigger] ps[i].0, ps[i].1),
        forall|i: int| 0 <= i < lens.len() ==> #[trigger] lens[i] != '\0',
    ensures
        parsed(wire_records(pair_records(ps), lens) + terminator(), false) == pairs_map(ps),
{
    let recs = pair_records(ps);
    assert forall|i: int| 0 <= i < recs.len() implies #[trigger] recs[i].len() > 0 && !recs[i].contains(
        '\0',
    ) && lens[i] != '\0' by {
        let (k, v) = ps[i];
        assert(carried_pair(ps[i].0, ps[i].1));
        assert(recs[i] == record_text(k, v));
        if recs[i].contains('\0') {
            let j = choose|j: int| 0 <= j < recs[i].len() && recs[i][j] == '\0';
            if j < k.len() {
                assert(k[j] == '\0');
            } else if j >= k.len() + 3 {
                assert(v[j - k.len() - 3] == '\0');
            }
        }
    }
    assert(well_framed(recs, lens));
    lemma_split_recovers_records(recs, lens);
    lemma_entries_of_pairs(ps);
}

} // verus!
