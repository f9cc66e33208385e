//! The report: one line for each station, in ascending order of name.

use vstd::prelude::*;
use crate::names::ascending;
use crate::number::{decimal_text, push_decimal};
use crate::summary::{Stats, Summary};
use crate::table::Table;

verus! {

/// The bytes of ` -> min: `.
pub open spec fn min_label() -> Seq<u8> {
    seq![0x20u8, 0x2d, 0x3e, 0x20, 0x6d, 0x69, 0x6e, 0x3a, 0x20]
}

/// The bytes of `, max: `.
pub open spec fn max_label() -> Seq<u8> {
    seq![0x2cu8, 0x20, 0x6d, 0x61, 0x78, 0x3a, 0x20]
}

/// The bytes of `, mean: `.
pub open spec fn mean_label() -> Seq<u8> {
    seq![0x2cu8, 0x20, 0x6d, 0x65, 0x61, 0x6e, 0x3a, 0x20]
}

/// The line of one station: its name, then the minimum, the maximum and
/// the mean to the nearest unit, each under its label.
pub open spec fn line_text(name: Seq<u8>, stats: Stats) -> Seq<u8> {
    name + min_label() + decimal_text(stats.min) + max_label() + decimal_text(stats.max)
        + mean_label() + decimal_text(stats.mean())
}

/// Writes the line of one station.
pub fn format_line(name: &[u8], summary: &Summary) -> (line: Vec<u8>)
    ensures
        line@ == line_text(name@, summary@),
{
    let mut line: Vec<u8> = Vec::new();
    let label_min: [u8; 9] = [0x20, 0x2d, 0x3e, 0x20, 0x6d, 0x69, 0x6e, 0x3a, 0x20];
    let label_max: [u8; 7] = [0x2c, 0x20, 0x6d, 0x61, 0x78, 0x3a, 0x20];
    let label_mean: [u8; 8] = [0x2c, 0x20, 0x6d, 0x65, 0x61, 0x6e, 0x3a, 0x20];
    proof {
        assert(label_min@ =~= min_label());
        assert(label_max@ =~= max_label());
        assert(label_mean@ =~= mean_label());
    }
    line.extend_from_slice(name);
    line.extend_from_slice(label_min.as_slice());
    push_decimal(&mut line, summary.min());
    line.extend_from_slice(label_max.as_slice());
    push_decimal(&mut line, summary.max());
    line.extend_from_slice(label_mean.as_slice());
    push_decimal(&mut line, summary.mean());
    proof {
        assert(line@ =~= line_text(name@, summary@));
    }
    line
}

/// Writes the lines of all stations of a table. The lines come in
/// ascending order of station name, one for each station.
pub fn report(table: &Table) -> (lines: Vec<Vec<u8>>)
    ensures
        lines@.len() == table.keys().len(),
        ascending(table.keys()),
        forall|n: Seq<u8>| table@.stations.contains_key(n) <==> table.keys().contains(n),
        forall|i: int|
            0 <= i < lines@.len() ==> (#[trigger] lines@[i])@ == line_text(
                table.keys()[i],
                table@.stations[table.keys()[i]],
            ),
{
    let n = table.len();
    let mut lines: Vec<Vec<u8>> = Vec::new();
    let mut i: usize = 0;
    proof {
        table.lemma_keys_cover();
    }
    while i < n
        invariant
            i <= n == table.keys().len(),
            lines@.len() == i,
            forall|j: int|
                0 <= j < i ==> (#[trigger] lines@[j])@ == line_text(
                    table.keys()[j],
                    table@.stations[table.keys()[j]],
                ),
        decreases n - i,
    {
        let summary = table.summary_at(i);
        let line = format_line(table.name_at(i), &summary);
        lines.push(line);
        i += 1;
    }
    lines
}

} // verus!
