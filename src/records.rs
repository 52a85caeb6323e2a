//! Framing of the status response: splitting the raw text into records.
use vstd::prelude::*;
use crate::framing::{terminator, TERMINATOR_LEN};

verus! {

/// The views of a sequence of strings.
pub open spec fn texts(v: Seq<String>) -> Seq<Seq<char>> {
    v.map_values(|s: String| s@)
}

/// The pieces of `s` between NUL characters, empty pieces included; there
/// is always one more piece than there are NUL characters.
pub open spec fn nul_pieces(s: Seq<char>) -> Seq<Seq<char>>
    decreases s.len(),
{
    if s.len() == 0 {
        seq![Seq::empty()]
    } else {
        let p = nul_pieces(s.drop_last());
        if s.last() == '\0' {
            p.push(Seq::empty())
        } else {
            p.update(p.len() - 1, p.last().push(s.last()))
        }
    }
}

/// The record carried by one piece: the piece without its first character
/// (the length byte) and its last one (the newline). Pieces of two
/// characters or fewer carry no record.
pub open spec fn records_of(ps: Seq<Seq<char>>) -> Seq<Seq<char>>
    decreases ps.len(),
{
    if ps.len() == 0 {
        Seq::empty()
    } else {
        let r = records_of(ps.drop_last());
        let f = ps.last();
        if f.len() > 2 {
            r.push(f.subrange(1, f.len() - 1))
        } else {
            r
        }
    }
}

/// The records of a raw status response: the last five characters (the
/// terminator) are dropped, the rest is cut at NUL characters, and each
/// piece longer than two characters loses its first and last character.
/// Text shorter than the terminator has no records.
pub open spec fn split_records(raw: Seq<char>) -> Seq<Seq<char>> {
    if raw.len() < 5 {
        Seq::empty()
    } else {
        records_of(nul_pieces(raw.subrange(0, raw.len() - 5)))
    }
}

proof fn lemma_nul_pieces_nonempty(s: Seq<char>)
    ensures
        nul_pieces(s).len() >= 1,
    decreases s.len(),
{
    if s.len() > 0 {
        lemma_nul_pieces_nonempty(s.drop_last());
    }
}

/// Splits a raw status response into its records, in the order in which
/// they came, with the length characters and newlines removed.
pub fn split(raw_status: &str) -> (r: Vec<String>)
    ensures
        texts(r@) == split_records(raw_status@),
{
    let n = raw_status.unicode_len();
    if n < TERMINATOR_LEN {
        return Vec::new();
    }
    let body_len = n - TERMINATOR_LEN;
    let ghost body = raw_status@.subrange(0, body_len as int);
    let mut out: Vec<String> = Vec::new();
    let mut st: usize = 0;
    let mut i: usize = 0;
    proof {
        lemma_nul_pieces_nonempty(body.subrange(0, 0));
        assert(body.subrange(0, 0) =~= Seq::<char>::empty());
        assert(texts(out@) =~= Seq::<Seq<char>>::empty());
    }
    while i < body_len
        invariant
            n == raw_status@.len(),
            body_len == n - 5,
            body == raw_status@.subrange(0, body_len as int),
            st <= i <= body_len,
            nul_pieces(body.subrange(0, i as int)).len() >= 1,
            nul_pieces(body.subrange(0, i as int)).last() == body.subrange(st as int, i as int),
            texts(out@) == records_of(nul_pieces(body.subrange(0, i as int)).drop_last()),
        decreases body_len - i,
    {
        let c = raw_status.get_char(i);
        let ghost prev = body.subrange(0, i as int);
        let ghost next = body.subrange(0, i + 1);
        proof {
            assert(next.drop_last() =~= prev);
            assert(next.last() == c);
            lemma_nul_pieces_nonempty(next);
        }
        if c == '\0' {
            let ghost p = nul_pieces(prev);
            assert(nul_pieces(next) == p.push(Seq::empty()));
            assert(nul_pieces(next).drop_last() =~= p);
            assert(p.drop_last().push(p.last()) =~= p);
            if i - st > 2 {
                let rec = String::from_str(raw_status.substring_char(st + 1, i - 1));
                proof {
                    assert(rec@ =~= p.last().subrange(1, p.last().len() - 1));
                }
                let ghost before = out@;
                out.push(rec);
                assert(texts(out@) =~= texts(before).push(rec@));
            }
            st = i + 1;
            assert(nul_pieces(next).last() =~= body.subrange(st as int, i + 1));
        } else {
            let ghost p = nul_pieces(prev);
            assert(nul_pieces(next) == p.update(p.len() - 1, p.last().push(c)));
            assert(nul_pieces(next).drop_last() =~= p.drop_last());
            assert(nul_pieces(next).last() =~= body.subrange(st as int, i + 1));
        }
        i = i + 1;
    }
    let ghost p = nul_pieces(body.subrange(0, i as int));
    assert(body.subrange(0, i as int) =~= body);
    assert(p.drop_last().push(p.last()) =~= p);
    if i - st > 2 {
        let rec = String::from_str(raw_status.substring_char(st + 1, i - 1));
        proof {
            assert(rec@ =~= p.last().subrange(1, p.last().len() - 1));
        }
        let ghost before = out@;
        out.push(rec);
        assert(texts(out@) =~= texts(before).push(rec@));
    }
    out
}

/// One record as the server sends it: a NUL, the length character, the
/// record text and a newline.
pub open spec fn wire_record(r: Seq<char>, len_char: char) -> Seq<char> {
    seq!['\0', len_char] + r + seq!['\n']
}

/// Records sent one after the other, record `i` with length character
/// `lens[i]`.
pub open spec fn wire_records(recs: Seq<Seq<char>>, lens: Seq<char>) -> Seq<char>
    decreases recs.len(),
{
    if recs.len() == 0 {
        Seq::empty()
    } else {
        wire_records(recs.drop_last(), lens.drop_last()) + wire_record(recs.last(), lens.last())
    }
}

/// Records that the wire format can carry: each is non-empty and holds no
/// NUL, and no length character is NUL.
pub open spec fn well_framed(recs: Seq<Seq<char>>, lens: Seq<char>) -> bool {
    &&& lens.len() == recs.len()
    &&& forall|i: int|
        0 <= i < recs.len() ==> #[trigger] recs[i].len() > 0 && !recs[i].contains('\0') && lens[i]
            != '\0'
}

proof fn lemma_nul_pieces_after_nul(s: Seq<char>, u: Seq<char>)
    ensures
        nul_pieces(s + seq!['\0'] + u) == nul_pieces(s) + nul_pieces(u),
    decreases u.len(),
{
    let t = s + seq!['\0'];
    assert(t.drop_last() =~= s);
    if u.len() == 0 {
        assert(t + u =~= t);
        assert(nul_pieces(s) + nul_pieces(u) =~= nul_pieces(s).push(Seq::empty()));
    } else {
        lemma_nul_pieces_after_nul(s, u.drop_last());
        lemma_nul_pieces_nonempty(u.drop_last());
        assert((t + u).drop_last() =~= t + u.drop_last());
        let a = nul_pieces(s);
        let b = nul_pieces(u.drop_last());
        if u.last() == '\0' {
            assert((a + b).push(Seq::empty()) =~= a + b.push(Seq::empty()));
        } else {
            assert((a + b).update(a.len() + b.len() - 1, b.last().push(u.last())) =~= a + b.update(
                b.len() - 1,
                b.last().push(u.last()),
            ));
        }
    }
}

proof fn lemma_nul_pieces_without_nul(u: Seq<char>)
    requires
        !u.contains('\0'),
    ensures
        nul_pieces(u) == seq![u],
    decreases u.len(),
{
    if u.len() > 0 {
        assert(!u.drop_last().contains('\0')) by {
            if u.drop_last().contains('\0') {
                let j = choose|j: int| 0 <= j < u.drop_last().len() && u.drop_last()[j] == '\0';
                assert(u[j] == '\0');
            }
        }
        lemma_nul_pieces_without_nul(u.drop_last());
        assert(u[u.len() - 1] != '\0');
        assert(u.drop_last().push(u.last()) =~= u);
        assert(seq![u.drop_last()].update(0, u) =~= seq![u]);
    } else {
        assert(u =~= Seq::<char>::empty());
    }
}

proof fn lemma_records_of_wire(recs: Seq<Seq<char>>, lens: Seq<char>)
    requires
        well_framed(recs, lens),
    ensures
        records_of(nul_pieces(wire_records(recs, lens))) == recs,
    decreases recs.len(),
{
    if recs.len() == 0 {
        assert(records_of(seq![Seq::<char>::empty()]) == records_of(
            seq![Seq::<char>::empty()].drop_last(),
        ));
        assert(recs =~= Seq::<Seq<char>>::empty());
    } else {
        let prev = recs.drop_last();
        let lp = lens.drop_last();
        assert(well_framed(prev, lp)) by {
            assert forall|i: int| 0 <= i < prev.len() implies #[trigger] prev[i].len() > 0
                && !prev[i].contains('\0') && lp[i] != '\0' by {
                assert(recs[i] == prev[i]);
            }
        }
        lemma_records_of_wire(prev, lp);
        let r = recs.last();
        let c = lens.last();
        assert(recs[recs.len() - 1] == r);
        let w = seq![c] + r + seq!['\n'];
        let prefix = wire_records(prev, lp);
        assert(prefix + wire_record(r, c) =~= prefix + seq!['\0'] + w);
        assert(!w.contains('\0')) by {
            if w.contains('\0') {
                let j = choose|j: int| 0 <= j < w.len() && w[j] == '\0';
                if 1 <= j < w.len() - 1 {
                    assert(r[j - 1] == '\0');
                }
            }
        }
        lemma_nul_pieces_after_nul(prefix, w);
        lemma_nul_pieces_without_nul(w);
        let x = nul_pieces(prefix);
        assert(x + seq![w] =~= x.push(w));
        assert(x.push(w).drop_last() =~= x);
        assert(w.subrange(1, w.len() - 1) =~= r);
        assert(prev.push(r) =~= recs);
    }
}

/// A response made of records in the wire format and the terminator splits
/// back into exactly those records, in the order in which they were sent.
pub proof fn lemma_split_recovers_records(recs: Seq<Seq<char>>, lens: Seq<char>)
    requires
        well_framed(recs, lens),
    ensures
        split_records(wire_records(recs, lens) + terminator()) == recs,
{
    let w = wire_records(recs, lens);
    let raw = w + terminator();
    assert(raw.subrange(0, raw.len() - 5) =~= w);
    lemma_records_of_wire(recs, lens);
}

/// Text shorter than the terminator holds no record.
pub proof fn lemma_short_text_has_no_records(raw: Seq<char>)
    requires
        raw.len() < 5,
    ensures
        split_records(raw) == Seq::<Seq<char>>::empty(),
{
}

} // verus!
