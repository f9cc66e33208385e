//! Texts cut into chunks, and tables merged in any order.
//!
//! A text may be cut at any of its newlines. The laws here say that the
//! chunks, read one by one, yield what the whole text yields; that the
//! tallies of the chunks merge into the tally of the text; and that the
//! order in which they are merged does not matter.

use vstd::prelude::*;
use crate::bytes::NEWLINE;
use crate::records::{lemma_scan_join, lemma_scan_short, scan, Scan};
use crate::tally::{
    lemma_merge_associative, lemma_merge_commutative, lemma_merge_empty, lemma_tally_of_concat,
    tally_of, Tally,
};

verus! {

/// The text that the chunks were cut from: the chunks in their order, a
/// newline between each two.
pub open spec fn join_chunks(chunks: Seq<Seq<u8>>) -> Seq<u8>
    decreases chunks.len(),
{
    if chunks.len() == 0 {
        Seq::empty()
    } else if chunks.len() == 1 {
        chunks[0]
    } else {
        join_chunks(chunks.drop_last()) + seq![NEWLINE] + chunks.last()
    }
}

/// The scan of the chunks read one after the other, each at the offset
/// that it has in the text.
pub open spec fn scan_chunks(chunks: Seq<Seq<u8>>) -> Scan
    decreases chunks.len(),
{
    if chunks.len() == 0 {
        Scan::nothing()
    } else if chunks.len() == 1 {
        scan(chunks[0])
    } else {
        scan_chunks(chunks.drop_last()).followed_by(
            scan(chunks.last()),
            (join_chunks(chunks.drop_last()).len() + 1) as int,
        )
    }
}

/// The tally of each chunk by itself.
pub open spec fn chunk_tallies(chunks: Seq<Seq<u8>>) -> Seq<Tally> {
    Seq::new(chunks.len(), |i: int| tally_of(scan(chunks[i]).readings))
}

/// The tallies merged from first to last.
pub open spec fn merge_all(tallies: Seq<Tally>) -> Tally
    decreases tallies.len(),
{
    if tallies.len() == 0 {
        Tally::empty()
    } else {
        merge_all(tallies.drop_last()).merge(tallies.last())
    }
}

/// Reading the chunks one by one yields what reading the text yields.
pub proof fn lemma_scan_chunks(chunks: Seq<Seq<u8>>)
    ensures
        scan(join_chunks(chunks)) == scan_chunks(chunks),
    decreases chunks.len(),
{
    if chunks.len() == 0 {
        lemma_scan_short(join_chunks(chunks));
    } else if chunks.len() > 1 {
        lemma_scan_chunks(chunks.drop_last());
        lemma_scan_join(join_chunks(chunks.drop_last()), chunks.last());
    }
}

/// A text has a fault where one of its chunks has one, and only there.
pub proof fn lemma_chunks_fault(chunks: Seq<Seq<u8>>)
    ensures
        scan(join_chunks(chunks)).fault.is_some() <==> exists|i: int|
            0 <= i < chunks.len() && (#[trigger] scan(chunks[i])).fault.is_some(),
    decreases chunks.len(),
{
    lemma_scan_chunks(chunks);
    if chunks.len() == 1 {
        if scan(chunks[0]).fault.is_some() {
            assert(scan(chunks[0]).fault.is_some());
        }
    } else if chunks.len() > 1 {
        let front = chunks.drop_last();
        let last = chunks.len() - 1;
        lemma_chunks_fault(front);
        lemma_scan_chunks(front);
        if scan_chunks(front).fault.is_some() {
            let i = choose|i: int| 0 <= i < front.len() && (#[trigger] scan(front[i])).fault.is_some();
            assert(scan(chunks[i]).fault.is_some());
        } else if scan(chunks[last]).fault.is_some() {
        } else {
            assert forall|i: int| 0 <= i < chunks.len() implies (#[trigger] scan(
                chunks[i],
            )).fault.is_none() by {
                if i < last {
                    assert(scan(front[i]).fault.is_none());
                }
            }
        }
    }
}

/// The tallies of the chunks of a text without a fault merge into the
/// tally of the text.
pub proof fn lemma_chunks_merge(chunks: Seq<Seq<u8>>)
    requires
        scan(join_chunks(chunks)).fault.is_none(),
    ensures
        tally_of(scan(join_chunks(chunks)).readings) == merge_all(chunk_tallies(chunks)),
    decreases chunks.len(),
{
    lemma_scan_chunks(chunks);
    let tallies = chunk_tallies(chunks);
    if chunks.len() == 0 {
    } else if chunks.len() == 1 {
        assert(tallies.drop_last() =~= Seq::<Tally>::empty());
        assert(merge_all(tallies.drop_last()) == Tally::empty());
        lemma_merge_empty(tallies.last());
    } else {
        let front = chunks.drop_last();
        lemma_scan_chunks(front);
        lemma_chunks_merge(front);
        assert(tallies.drop_last() =~= chunk_tallies(front));
        lemma_tally_of_concat(scan_chunks(front).readings, scan(chunks.last()).readings);
    }
}

/// Two ways of cutting one text without a fault into chunks give tallies
/// that merge into the same tally.
pub proof fn lemma_two_splits(a: Seq<Seq<u8>>, b: Seq<Seq<u8>>)
    requires
        join_chunks(a) == join_chunks(b),
        scan(join_chunks(a)).fault.is_none(),
    ensures
        merge_all(chunk_tallies(a)) == merge_all(chunk_tallies(b)),
{
    lemma_chunks_merge(a);
    lemma_chunks_merge(b);
}

/// Leaving one tally out of the merge and merging it in at the end changes
/// nothing.
pub proof fn lemma_merge_all_remove(tallies: Seq<Tally>, j: int)
    requires
        0 <= j < tallies.len(),
    ensures
        merge_all(tallies) == merge_all(tallies.remove(j)).merge(tallies[j]),
    decreases tallies.len(),
{
    let last = tallies.len() - 1;
    if j == last {
        assert(tallies.remove(j) =~= tallies.drop_last());
    } else {
        let front = tallies.drop_last();
        lemma_merge_all_remove(front, j);
        let rest = merge_all(front.remove(j));
        assert(tallies.remove(j).drop_last() =~= front.remove(j));
        assert(tallies.remove(j).last() == tallies[last]);
        lemma_merge_associative(rest, tallies[j], tallies[last]);
        lemma_merge_commutative(tallies[j], tallies[last]);
        lemma_merge_associative(rest, tallies[last], tallies[j]);
    }
}

/// Tallies merge into the same tally in whatever order they are taken.
pub proof fn lemma_merge_all_any_order(a: Seq<Tally>, b: Seq<Tally>)
    requires
        a.to_multiset() == b.to_multiset(),
    ensures
        merge_all(a) == merge_all(b),
    decreases a.len(),
{
    broadcast use vstd::multiset::group_multiset_axioms;

    a.to_multiset_ensures();
    b.to_multiset_ensures();
    if a.len() == 0 {
    } else {
        let x = a.last();
        let front = a.drop_last();
        front.to_multiset_ensures();
        assert(a =~= front.push(x));
        assert(a.to_multiset().count(x) > 0);
        assert(b.contains(x));
        let j = choose|j: int| 0 <= j < b.len() && b[j] == x;
        assert(b.remove(j).to_multiset() =~= front.to_multiset());
        lemma_merge_all_any_order(front, b.remove(j));
        lemma_merge_all_remove(b, j);
    }
}

/// However a text without a fault is cut into chunks of whole lines, and
/// in whatever order the tallies of the chunks are merged, the result is
/// the tally of the text.
pub proof fn lemma_any_split_any_order(chunks: Seq<Seq<u8>>, order: Seq<Tally>)
    requires
        scan(join_chunks(chunks)).fault.is_none(),
        order.to_multiset() == chunk_tallies(chunks).to_multiset(),
    ensures
        merge_all(order) == tally_of(scan(join_chunks(chunks)).readings),
{
    lemma_chunks_merge(chunks);
    lemma_merge_all_any_order(order, chunk_tallies(chunks));
}

} // verus!
