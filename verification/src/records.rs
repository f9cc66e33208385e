//! Reading records out of text.
//!
//! A text is a run of lines parted by newlines. A line shorter than four
//! bytes is passed over. Any other line must hold a name, a semicolon and
//! a temperature; the first line that does not is a fault, and nothing
//! after it is read.

use vstd::prelude::*;
use vstd::slice::slice_subrange;
use crate::bytes::{
    find_byte, lemma_prefix_len, lemma_prefix_len_is, prefix_len, NEWLINE, RETURN, SEMICOLON,
};
use crate::number::{decimal_units, parse_decimal};
use crate::table::Table;
use crate::tally::{lemma_merge_absorb, lemma_merge_empty, lemma_tally_stations, tally_of, Reading};

verus! {

/// What is wrong with a line.
#[derive(Clone, Copy, Debug, PartialEq, Eq, Structural)]
pub enum Fault {
    /// The line holds no semicolon.
    MissingSeparator,
    /// Nothing stands before the first semicolon.
    EmptyName,
    /// What follows the first semicolon is no temperature.
    BadNumber,
}

/// A fault, and the offset at which the line that holds it begins.
#[derive(Clone, Copy, Debug, PartialEq, Eq, Structural)]
pub struct ParseError {
    pub fault: Fault,
    pub offset: usize,
}

/// What a line amounts to.
pub enum Line {
    Skipped,
    Holds(Reading),
    Malformed(Fault),
}

/// A text without the carriage returns at its end.
pub open spec fn strip_returns(s: Seq<u8>) -> Seq<u8>
    decreases s.len(),
{
    if s.len() > 0 && s.last() == RETURN {
        strip_returns(s.drop_last())
    } else {
        s
    }
}

/// What a line amounts to: the name is what stands before the first
/// semicolon, the temperature what follows it, carriage returns at the end
/// left out.
pub open spec fn parse_line(line: Seq<u8>) -> Line {
    let k = prefix_len(line, SEMICOLON) as int;
    if line.len() < 4 {
        Line::Skipped
    } else if k >= line.len() {
        Line::Malformed(Fault::MissingSeparator)
    } else if k == 0 {
        Line::Malformed(Fault::EmptyName)
    } else {
        match decimal_units(strip_returns(line.skip(k + 1))) {
            Some(value) => Line::Holds(Reading { name: line.take(k), value }),
            None => Line::Malformed(Fault::BadNumber),
        }
    }
}

/// What reading a text yields: the readings of the lines before the first
/// fault, and that fault with the offset of its line.
pub struct Scan {
    pub readings: Seq<Reading>,
    pub fault: Option<(Fault, int)>,
}

impl Scan {
    /// The scan of a text without a record.
    pub open spec fn nothing() -> Scan {
        Scan { readings: Seq::empty(), fault: None }
    }

    /// The scan of a single line.
    pub open spec fn of_line(line: Seq<u8>) -> Scan {
        match parse_line(line) {
            Line::Skipped => Scan::nothing(),
            Line::Holds(r) => Scan { readings: seq![r], fault: None },
            Line::Malformed(f) => Scan { readings: Seq::empty(), fault: Some((f, 0int)) },
        }
    }

    /// This scan, and after it the scan of a text that begins `shift` bytes
    /// further on. A fault ends the reading.
    pub open spec fn followed_by(self, next: Scan, shift: int) -> Scan {
        if self.fault.is_some() {
            self
        } else {
            Scan {
                readings: self.readings + next.readings,
                fault: match next.fault {
                    Some((f, o)) => Some((f, o + shift)),
                    None => None,
                },
            }
        }
    }
}

/// The scan of a text, line by line.
pub open spec fn scan(data: Seq<u8>) -> Scan
    decreases data.len(),
{
    let k = prefix_len(data, NEWLINE) as int;
    if k >= data.len() {
        Scan::of_line(data)
    } else {
        Scan::of_line(data.take(k)).followed_by(scan(data.skip(k + 1)), k + 1)
    }
}

/// The lines of a text: what stands between its newlines.
pub open spec fn lines(data: Seq<u8>) -> Seq<Seq<u8>>
    decreases data.len(),
{
    let k = prefix_len(data, NEWLINE) as int;
    if k >= data.len() {
        seq![data]
    } else {
        seq![data.take(k)] + lines(data.skip(k + 1))
    }
}

/// The line is a record of the station `name`.
pub open spec fn holds_name(line: Seq<u8>, name: Seq<u8>) -> bool {
    match parse_line(line) {
        Line::Holds(r) => r.name == name,
        _ => false,
    }
}

/// The line is neither passed over nor a record.
pub open spec fn malformed(line: Seq<u8>) -> bool {
    parse_line(line) is Malformed
}

/// A text has a fault where one of its lines is malformed, and only there.
pub proof fn lemma_scan_fault(data: Seq<u8>)
    ensures
        scan(data).fault.is_some() <==> exists|j: int|
            0 <= j < lines(data).len() && malformed(#[trigger] lines(data)[j]),
    decreases data.len(),
{
    let k = prefix_len(data, NEWLINE) as int;
    let ls = lines(data);
    lemma_prefix_len(data, NEWLINE);
    if k >= data.len() {
        if malformed(data) {
            assert(malformed(ls[0]));
        }
    } else {
        let first = data.take(k);
        let rest = data.skip(k + 1);
        let lr = lines(rest);
        lemma_scan_fault(rest);
        assert(ls[0] == first);
        assert forall|j: int| 0 <= j < lr.len() implies #[trigger] ls[j + 1] == lr[j] by {}
        if scan(data).fault.is_some() {
            if malformed(first) {
                assert(malformed(ls[0]));
            } else {
                let j = choose|j: int| 0 <= j < lr.len() && malformed(#[trigger] lr[j]);
                assert(ls[j + 1] == lr[j]);
                assert(malformed(ls[j + 1]));
            }
        }
        if exists|j: int| 0 <= j < ls.len() && malformed(#[trigger] ls[j]) {
            let j = choose|j: int| 0 <= j < ls.len() && malformed(#[trigger] ls[j]);
            if j > 0 {
                assert(ls[(j - 1) + 1] == lr[j - 1]);
                assert(malformed(lr[j - 1]));
            }
        }
    }
}

/// The readings of a text without a fault are those of its lines: a
/// station is among the readings where one of the lines is a record of it,
/// and only there.
pub proof fn lemma_scan_names(data: Seq<u8>, name: Seq<u8>)
    requires
        scan(data).fault.is_none(),
    ensures
        (exists|i: int|
            0 <= i < scan(data).readings.len() && (#[trigger] scan(data).readings[i]).name == name)
            <==> (exists|j: int|
            0 <= j < lines(data).len() && holds_name(#[trigger] lines(data)[j], name)),
    decreases data.len(),
{
    let k = prefix_len(data, NEWLINE) as int;
    let ls = lines(data);
    let rs = scan(data).readings;
    lemma_prefix_len(data, NEWLINE);
    if k >= data.len() {
        if holds_name(data, name) {
            assert(holds_name(ls[0], name));
            assert(rs[0].name == name);
        }
    } else {
        let first = data.take(k);
        let rest = data.skip(k + 1);
        let lr = lines(rest);
        let one = Scan::of_line(first).readings;
        let more = scan(rest).readings;
        lemma_scan_names(rest, name);
        assert(rs == one + more);
        assert(ls[0] == first);
        assert forall|j: int| 0 <= j < lr.len() implies #[trigger] ls[j + 1] == lr[j] by {}
        if exists|i: int| 0 <= i < rs.len() && (#[trigger] rs[i]).name == name {
            let i = choose|i: int| 0 <= i < rs.len() && (#[trigger] rs[i]).name == name;
            if i < one.len() {
                assert(rs[i] == one[i]);
                assert(holds_name(ls[0], name));
            } else {
                assert(rs[i] == more[i - one.len()]);
                assert(more[i - one.len()].name == name);
                let j = choose|j: int| 0 <= j < lr.len() && holds_name(#[trigger] lr[j], name);
                assert(ls[j + 1] == lr[j]);
                assert(holds_name(ls[j + 1], name));
            }
        }
        if exists|j: int| 0 <= j < ls.len() && holds_name(#[trigger] ls[j], name) {
            let j = choose|j: int| 0 <= j < ls.len() && holds_name(#[trigger] ls[j], name);
            if j == 0 {
                assert(one.len() == 1);
                assert(rs[0] == one[0]);
                assert(rs[0].name == name);
            } else {
                assert(ls[(j - 1) + 1] == lr[j - 1]);
                assert(holds_name(lr[j - 1], name));
                let i = choose|i: int| 0 <= i < more.len() && (#[trigger] more[i]).name == name;
                assert(rs[one.len() + i] == more[i]);
                assert(rs[one.len() + i].name == name);
            }
        }
    }
}

/// Reading three texts one after the other does not depend on how the
/// three are grouped.
pub proof fn lemma_followed_by_associative(a: Scan, b: Scan, c: Scan, s: int, t: int)
    ensures
        a.followed_by(b.followed_by(c, t), s) == a.followed_by(b, s).followed_by(c, s + t),
{
    let l = a.followed_by(b.followed_by(c, t), s);
    let r = a.followed_by(b, s).followed_by(c, s + t);
    assert(l.readings =~= r.readings);
}

/// Reading nothing before or after a text changes nothing.
pub proof fn lemma_followed_by_nothing(a: Scan)
    ensures
        Scan::nothing().followed_by(a, 0) == a,
        forall|s: int| #[trigger] a.followed_by(Scan::nothing(), s) == a,
{
    let l = Scan::nothing().followed_by(a, 0);
    assert(l.readings =~= a.readings);
    assert forall|s: int| #[trigger] a.followed_by(Scan::nothing(), s) == a by {
        assert(a.followed_by(Scan::nothing(), s).readings =~= a.readings);
    }
}

/// A text shorter than four bytes holds no record.
pub proof fn lemma_scan_short(data: Seq<u8>)
    requires
        data.len() < 4,
    ensures
        scan(data) == Scan::nothing(),
    decreases data.len(),
{
    let k = prefix_len(data, NEWLINE) as int;
    lemma_prefix_len(data, NEWLINE);
    if k < data.len() {
        lemma_scan_short(data.skip(k + 1));
        lemma_followed_by_nothing(Scan::nothing());
    }
}

/// A scan holds no more readings than the text has bytes, and a fault lies
/// within the text.
pub proof fn lemma_scan_bounds(data: Seq<u8>)
    ensures
        scan(data).readings.len() <= data.len(),
        scan(data).fault.is_some() ==> 0 <= scan(data).fault.unwrap().1 < data.len(),
    decreases data.len(),
{
    let k = prefix_len(data, NEWLINE) as int;
    lemma_prefix_len(data, NEWLINE);
    if k < data.len() {
        lemma_scan_bounds(data.skip(k + 1));
    }
}

/// The scan of two texts joined by a newline is the scan of the first
/// followed by the scan of the second.
pub proof fn lemma_scan_join(a: Seq<u8>, b: Seq<u8>)
    ensures
        scan(a + seq![NEWLINE] + b) == scan(a).followed_by(scan(b), (a.len() + 1) as int),
    decreases a.len(),
{
    let whole = a + seq![NEWLINE] + b;
    let k = prefix_len(a, NEWLINE) as int;
    lemma_prefix_len(a, NEWLINE);
    assert(whole[a.len() as int] == NEWLINE);
    assert forall|j: int| 0 <= j < k implies whole[j] != NEWLINE by {
        assert(whole[j] == a[j]);
    }
    if k < a.len() {
        assert(whole[k] == a[k]);
    }
    lemma_prefix_len_is(whole, NEWLINE, k);
    assert(whole.take(k) =~= a.take(k));
    if k < a.len() {
        let rest = a.skip(k + 1);
        assert(whole.skip(k + 1) =~= rest + seq![NEWLINE] + b);
        lemma_scan_join(rest, b);
        lemma_followed_by_associative(
            Scan::of_line(a.take(k)),
            scan(rest),
            scan(b),
            k + 1,
            (rest.len() + 1) as int,
        );
    } else {
        assert(a.take(k) =~= a);
        assert(whole.skip(k + 1) =~= b);
    }
}

/// Reads one line and, where it holds a record, takes the reading into the
/// table. There must be room to count it.
pub fn reading_from_str(line: &[u8], table: &mut Table) -> (r: Result<(), Fault>)
    requires
        old(table)@.records < u64::MAX,
    ensures
        match parse_line(line@) {
            Line::Skipped => r == Ok::<(), Fault>(()) && final(table)@ == old(table)@,
            Line::Holds(reading) => r == Ok::<(), Fault>(()) && final(table)@ == old(table)@.absorb(
                reading.name,
                reading.value,
            ),
            Line::Malformed(f) => r == Err::<(), Fault>(f) && final(table)@ == old(table)@,
        },
{
    let n = line.len();
    if n < 4 {
        return Ok(());
    }
    proof {
        assert(line@.skip(0) =~= line@);
    }
    let k = find_byte(line, 0, SEMICOLON);
    if k == n {
        return Err(Fault::MissingSeparator);
    }
    if k == 0 {
        return Err(Fault::EmptyName);
    }
    let ghost tail = line@.skip(k + 1);
    let mut end: usize = n;
    proof {
        assert(line@.subrange(k + 1, n as int) =~= tail);
    }
    while end > k + 1 && line[end - 1] == RETURN
        invariant
            k + 1 <= end <= n,
            n == line@.len(),
            strip_returns(tail) == strip_returns(line@.subrange(k + 1, end as int)),
        decreases end,
    {
        proof {
            let cur = line@.subrange(k + 1, end as int);
            assert(cur.last() == line@[end - 1]);
            assert(cur.drop_last() =~= line@.subrange(k + 1, end - 1));
        }
        end -= 1;
    }
    proof {
        let cur = line@.subrange(k + 1, end as int);
        if end > k + 1 {
            assert(cur.last() == line@[end - 1]);
        }
        assert(strip_returns(cur) == cur);
        assert(line@.subrange(0, k as int) =~= line@.take(k as int));
    }
    match parse_decimal(slice_subrange(line, k + 1, end)) {
        Some(value) => {
            table.record(slice_subrange(line, 0, k), value);
            Ok(())
        },
        None => Err(Fault::BadNumber),
    }
}

/// Reads a text line by line into the table, up to its end or its first
/// fault. What it returns on success is the number of bytes read: the
/// length of the text, or zero for a text too short to hold a record.
/// There must be room to count a reading for every byte.
pub fn read_buf_between_offsets(buf: &[u8], table: &mut Table) -> (r: Result<usize, ParseError>)
    requires
        old(table)@.records + buf@.len() <= u64::MAX,
    ensures
        final(table)@ == old(table)@.merge(tally_of(scan(buf@).readings)),
        match scan(buf@).fault {
            None => r == Ok::<usize, ParseError>(if buf@.len() < 4 { 0 } else { buf.len() }),
            Some((fault, offset)) => r == Err::<usize, ParseError>(
                ParseError { fault, offset: offset as usize },
            ) && 0 <= offset < buf@.len(),
        },
{
    let n = buf.len();
    proof {
        lemma_merge_empty(table@);
    }
    if n < 4 {
        proof {
            lemma_scan_short(buf@);
        }
        return Ok(0);
    }
    let ghost before = table@;
    let ghost mut acc = Scan::nothing();
    let mut i: usize = 0;
    proof {
        assert(buf@.skip(0) =~= buf@);
        lemma_followed_by_nothing(scan(buf@));
    }
    while i < n
        invariant
            0 <= i <= n,
            4 <= n == buf@.len(),
            before == old(table)@,
            before.records + n <= u64::MAX,
            acc.fault.is_none(),
            acc.readings.len() <= i,
            table@ == before.merge(tally_of(acc.readings)),
            scan(buf@) == acc.followed_by(scan(buf@.skip(i as int)), i as int),
        decreases n - i,
    {
        let j = find_byte(buf, i, NEWLINE);
        let ghost rest = buf@.skip(i as int);
        let ghost line = buf@.subrange(i as int, j as int);
        let ghost one = Scan::of_line(line);
        proof {
            lemma_tally_stations(acc.readings);
            assert(rest.take(j - i) =~= line);
            if j < n {
                assert(rest.skip(j - i + 1) =~= buf@.skip(j + 1));
                lemma_followed_by_associative(acc, one, scan(buf@.skip(j + 1)), i as int, j - i + 1);
            } else {
                assert(rest =~= line);
            }
        }
        match reading_from_str(slice_subrange(buf, i, j), table) {
            Ok(()) => {
                proof {
                    if let Line::Holds(reading) = parse_line(line) {
                        lemma_merge_absorb(before, tally_of(acc.readings), reading.name, reading.value);
                        assert((acc.readings + seq![reading]).drop_last() =~= acc.readings);
                    } else {
                        assert(acc.readings + Seq::<Reading>::empty() =~= acc.readings);
                    }
                    acc = acc.followed_by(one, i as int);
                }
            },
            Err(fault) => {
                proof {
                    assert(acc.readings + Seq::<Reading>::empty() =~= acc.readings);
                }
                return Err(ParseError { fault, offset: i });
            },
        }
        if j == n {
            proof {
                lemma_followed_by_nothing(acc);
            }
            return Ok(n);
        }
        i = j + 1;
    }
    proof {
        lemma_scan_short(buf@.skip(i as int));
        lemma_followed_by_nothing(acc);
    }
    Ok(n)
}

} // verus!
