//! The table of measurement units that may trail a status value, and the
//! stripping of one such unit from a record.
use vstd::prelude::*;
use crate::text::{ends_with, ends_with_text};

verus! {

/// Number of entries in the unit table.
pub const UNIT_COUNT: usize = 10;

/// The unit table, in priority order: the first entry that ends a record
/// (after a space) is the one removed. "Percent Load Capacity" comes
/// before "Percent" so that a multi-word unit is never cut short.
pub open spec fn unit_table() -> Seq<Seq<char>> {
    seq![
        "Percent Load Capacity"@,
        "Minutes"@,
        "Seconds"@,
        "Percent"@,
        "Volts"@,
        "Watts"@,
        "Amps"@,
        "Hz"@,
        "C"@,
        "VA"@,
    ]
}

/// The text that a unit leaves at the end of a record: a space, then the unit.
pub open spec fn unit_tail(k: int) -> Seq<char> {
    seq![' '] + unit_table()[k]
}

/// Does some unit of the table, after a space, end `line`?
pub open spec fn has_unit_tail(line: Seq<char>) -> bool {
    exists|k: int| 0 <= k < UNIT_COUNT && ends_with(line, #[trigger] unit_tail(k))
}

/// `line` with the tail of the first unit from index `k` on that ends it
/// removed; `line` itself when none does.
pub open spec fn strip_from(line: Seq<char>, k: int) -> Seq<char>
    decreases UNIT_COUNT - k,
{
    if k < 0 || k >= UNIT_COUNT {
        line
    } else if ends_with(line, unit_tail(k)) {
        line.subrange(0, line.len() - unit_tail(k).len())
    } else {
        strip_from(line, k + 1)
    }
}

/// `line` without the tail of the first unit of the table that ends it.
pub open spec fn strip_unit(line: Seq<char>) -> Seq<char> {
    strip_from(line, 0)
}

/// The name of unit `k` of the table.
fn unit_name(k: usize) -> (r: &'static str)
    requires
        k < UNIT_COUNT,
    ensures
        r@ == unit_table()[k as int],
{
    match k {
        0 => "Percent Load Capacity",
        1 => "Minutes",
        2 => "Seconds",
        3 => "Percent",
        4 => "Volts",
        5 => "Watts",
        6 => "Amps",
        7 => "Hz",
        8 => "C",
        _ => "VA",
    }
}

/// Removes from `line` the tail of the first unit of the table that ends
/// it; returns `line` unchanged when none does.
pub fn strip_unit_from_line(line: &str) -> (r: String)
    ensures
        r@ == strip_unit(line@),
{
    let n = line.unicode_len();
    let mut k: usize = 0;
    while k < UNIT_COUNT
        invariant
            n == line@.len(),
            k <= UNIT_COUNT,
            strip_unit(line@) == strip_from(line@, k as int),
        decreases UNIT_COUNT - k,
    {
        let unit = unit_name(k);
        let m = unit.unicode_len();
        let ghost tail = unit_tail(k as int);
        if ends_with_text(line, unit) && m < n && line.get_char(n - m - 1) == ' ' {
            assert(line@.subrange(n - m - 1, n as int) =~= tail);
            let r = String::from_str(line.substring_char(0, n - m - 1));
            return r;
        }
        proof {
            if ends_with(line@, tail) {
                let w = line@.subrange(n - m - 1, n as int);
                assert(w == tail);
                assert(tail[0] == ' ');
                assert(tail.subrange(1, m + 1) =~= unit@);
                assert(w.subrange(1, m + 1) =~= line@.subrange(n - m as int, n as int));
                assert(ends_with(line@, unit@));
                assert(line@[n - m - 1] == w[0]);
                assert(false);
            }
        }
        k = k + 1;
    }
    String::from_str(line)
}

/// Removes at most one trailing unit from each line, in the order of the
/// table; lines without a unit are kept as they are.
pub fn strip_units_from_lines(lines: &[String]) -> (r: Vec<String>)
    ensures
        r@.len() == lines@.len(),
        forall|i: int| 0 <= i < lines@.len() ==> #[trigger] r@[i]@ == strip_unit(lines@[i]@),
{
    let mut out: Vec<String> = Vec::new();
    let mut i: usize = 0;
    while i < lines.len()
        invariant
            i <= lines@.len(),
            out@.len() == i,
            forall|j: int| 0 <= j < i ==> #[trigger] out@[j]@ == strip_unit(lines@[j]@),
        decreases lines@.len() - i,
    {
        let s = strip_unit_from_line(lines[i].as_str());
        out.push(s);
        i = i + 1;
    }
    out
}

proof fn lemma_strip_from(line: Seq<char>, k: int)
    requires
        0 <= k <= UNIT_COUNT,
    ensures
        (forall|j: int| k <= j < UNIT_COUNT ==> !ends_with(line, #[trigger] unit_tail(j)))
            ==> strip_from(line, k) == line,
        (exists|j: int| k <= j < UNIT_COUNT && ends_with(line, #[trigger] unit_tail(j))) ==> exists|
            j: int,
        |
            k <= j < UNIT_COUNT && ends_with(line, #[trigger] unit_tail(j)) && (forall|i: int|
                k <= i < j ==> !ends_with(line, #[trigger] unit_tail(i))) && strip_from(line, k)
                + unit_tail(j) == line,
    decreases UNIT_COUNT - k,
{
    if k < UNIT_COUNT {
        if ends_with(line, unit_tail(k)) {
            let t = unit_tail(k);
            assert(line.subrange(0, line.len() - t.len()) + t =~= line);
        } else {
            lemma_strip_from(line, k + 1);
            if exists|j: int| k <= j < UNIT_COUNT && ends_with(line, #[trigger] unit_tail(j)) {
                let j = choose|j: int| k <= j < UNIT_COUNT && ends_with(line, #[trigger] unit_tail(j));
                assert(j != k);
                assert(k + 1 <= j < UNIT_COUNT && ends_with(line, unit_tail(j)));
            }
        }
    }
}

/// A record that no unit of the table ends is left as it is, so stripping
/// it any number of times changes nothing; in particular a stripped record
/// that no unit ends any more is not changed by a second stripping.
pub proof fn lemma_strip_keeps_unitless_record(line: Seq<char>)
    requires
        !has_unit_tail(line),
    ensures
        strip_unit(line) == line,
        strip_unit(strip_unit(line)) == line,
{
    lemma_strip_from(line, 0);
}

/// Stripping a record that a unit ends removes exactly one space and unit
/// from its end: those of the first unit of the table that ends it.
pub proof fn lemma_strip_removes_one_unit(line: Seq<char>)
    requires
        has_unit_tail(line),
    ensures
        exists|k: int|
            0 <= k < UNIT_COUNT && ends_with(line, #[trigger] unit_tail(k)) && (forall|j: int|
                0 <= j < k ==> !ends_with(line, #[trigger] unit_tail(j))) && strip_unit(line)
                + unit_tail(k) == line,
{
    lemma_strip_from(line, 0);
}

/// A record that ends in " Percent Load Capacity" loses the whole
/// multi-word unit, not only a part of it.
pub proof fn lemma_multi_word_unit_stripped_whole(line: Seq<char>)
    requires
        ends_with(line, " Percent Load Capacity"@),
    ensures
        strip_unit(line) + " Percent Load Capacity"@ == line,
{
    reveal_strlit("Percent Load Capacity");
    reveal_strlit(" Percent Load Capacity");
    assert(unit_tail(0) =~= " Percent Load Capacity"@);
    let t = unit_tail(0);
    assert(line.subrange(0, line.len() - t.len()) + t =~= line);
}

} // verus!
