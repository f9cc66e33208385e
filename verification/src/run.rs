//! Whole runs over a text held in memory.
//!
//! `aggregate` reads a text in one piece. `aggregate_chunked` cuts it into
//! chunks of whole lines, reads each chunk into a table of its own and
//! merges the tables. Both give the same result, whatever the chunk size.

use vstd::prelude::*;
use vstd::slice::slice_subrange;
use crate::bytes::NEWLINE;
use crate::chunk::{plan_chunk, Cut};
use crate::records::{
    holds_name, lemma_followed_by_associative, lemma_followed_by_nothing, lemma_scan_bounds,
    lemma_scan_join, lemma_scan_names, lemma_scan_short, lines, read_buf_between_offsets, scan,
    ParseError, Scan,
};
use crate::table::Table;
use crate::tally::{lemma_merge_empty, lemma_tally_of_concat, lemma_tally_stations, tally_of};

verus! {

/// `r` is what a run over a text with this scan returns: the tally of the
/// readings where the text has no fault, else the first fault.
pub open spec fn is_outcome(r: Result<Table, ParseError>, s: Scan) -> bool {
    match s.fault {
        None => r.is_ok() && r.unwrap()@ == tally_of(s.readings),
        Some((fault, offset)) => r == Err::<Table, ParseError>(
            ParseError { fault, offset: offset as usize },
        ),
    }
}

/// The stations of the tally of a text without a fault are the stations of
/// its records: a name is a station where one of the lines is a record of
/// it, and only there.
pub proof fn lemma_stations_are_record_names(data: Seq<u8>, name: Seq<u8>)
    requires
        scan(data).fault.is_none(),
    ensures
        tally_of(scan(data).readings).stations.contains_key(name) <==> exists|j: int|
            0 <= j < lines(data).len() && holds_name(#[trigger] lines(data)[j], name),
{
    lemma_tally_stations(scan(data).readings);
    lemma_scan_names(data, name);
}

/// Reads a whole text into a new table.
pub fn aggregate(data: &[u8]) -> (r: Result<Table, ParseError>)
    ensures
        is_outcome(r, scan(data@)),
{
    let mut table = Table::new();
    proof {
        lemma_merge_empty(tally_of(scan(data@).readings));
    }
    match read_buf_between_offsets(data, &mut table) {
        Ok(_) => Ok(table),
        Err(e) => Err(e),
    }
}

/// Reads a chunk that begins at offset `base` into a table of its own and
/// merges that table into `table`. On a fault `table` stays as it was, and
/// the fault's offset counts from the beginning of the text.
pub fn fold_chunk(table: &mut Table, chunk: &[u8], base: usize) -> (r: Result<(), ParseError>)
    requires
        old(table)@.records + chunk@.len() <= u64::MAX,
        base + chunk@.len() <= usize::MAX,
    ensures
        match scan(chunk@).fault {
            None => r == Ok::<(), ParseError>(()) && final(table)@ == old(table)@.merge(
                tally_of(scan(chunk@).readings),
            ),
            Some((fault, offset)) => r == Err::<(), ParseError>(
                ParseError { fault, offset: (base + offset) as usize },
            ) && final(table)@ == old(table)@,
        },
{
    let mut local = Table::new();
    proof {
        lemma_merge_empty(tally_of(scan(chunk@).readings));
        lemma_scan_bounds(chunk@);
        lemma_tally_stations(scan(chunk@).readings);
    }
    match read_buf_between_offsets(chunk, &mut local) {
        Ok(_) => {
            let merged = table.merge(local);
            assert(merged.is_ok());
            Ok(())
        },
        Err(e) => Err(ParseError { fault: e.fault, offset: base + e.offset }),
    }
}

/// Reads a text chunk by chunk, as a reader with the chunk size `target`
/// cuts it, and merges the chunks' tables. The result is that of reading
/// the text in one piece.
pub fn aggregate_chunked(data: &[u8], target: usize) -> (r: Result<Table, ParseError>)
    requires
        target >= 4,
    ensures
        is_outcome(r, scan(data@)),
{
    let n = data.len();
    let mut table = Table::new();
    let mut offset: usize = 0;
    let mut span: usize = target;
    let ghost mut acc = Scan::nothing();
    proof {
        assert(data@.skip(0) =~= data@);
        lemma_followed_by_nothing(scan(data@));
    }
    loop
        invariant
            offset <= n == data@.len(),
            span >= target >= 4,
            acc.fault.is_none(),
            acc.readings.len() <= offset,
            table@ == tally_of(acc.readings),
            scan(data@) == acc.followed_by(scan(data@.skip(offset as int)), offset as int),
        decreases n - offset, usize::MAX - span,
    {
        let take: usize = if n - offset < span { n - offset } else { span };
        let buf = slice_subrange(data, offset, offset + take);
        let ghost rest = data@.skip(offset as int);
        proof {
            lemma_tally_stations(acc.readings);
            assert(take == n - offset ==> buf@ =~= rest);
        }
        let cut = plan_chunk(buf, span);
        // A span that cannot grow any more already takes in all that is left.
        let last = match cut {
            Cut::End => {
                proof {
                    lemma_scan_short(rest);
                    lemma_followed_by_nothing(acc);
                }
                return Ok(table);
            },
            Cut::Whole => true,
            Cut::At(_) => false,
            Cut::Grow => span == usize::MAX,
        };
        if last {
            let done = fold_chunk(&mut table, buf, offset);
            proof {
                lemma_tally_of_concat(acc.readings, scan(rest).readings);
            }
            return match done {
                Ok(()) => Ok(table),
                Err(e) => Err(e),
            };
        }
        match cut {
            Cut::At(e) => {
                let chunk = slice_subrange(buf, 0, e);
                let ghost next = data@.skip(offset + e + 1);
                proof {
                    assert(rest =~= chunk@ + seq![NEWLINE] + next);
                    lemma_scan_join(chunk@, next);
                    lemma_followed_by_associative(
                        acc,
                        scan(chunk@),
                        scan(next),
                        offset as int,
                        e + 1,
                    );
                    lemma_tally_of_concat(acc.readings, scan(chunk@).readings);
                    lemma_scan_bounds(chunk@);
                }
                match fold_chunk(&mut table, chunk, offset) {
                    Ok(()) => {},
                    Err(fault) => {
                        return Err(fault);
                    },
                }
                proof {
                    acc = acc.followed_by(scan(chunk@), offset as int);
                }
                offset = offset + e + 1;
                span = target;
            },
            _ => {
                span = if span > usize::MAX / 2 { usize::MAX } else { span * 2 };
            },
        }
    }
}

} // verus!
