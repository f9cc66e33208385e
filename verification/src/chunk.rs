//! Cutting a text into chunks of whole lines.
//!
//! A reader takes up to `span` bytes at its offset and asks where to cut.
//! Fewer than four bytes hold no record: the text has ended. A buffer that
//! came back short of `span` is the last one and is taken whole. A full
//! buffer is cut at its last newline; the chunk is what stands before that
//! newline, and the next read begins behind it. A full buffer without a
//! newline is too small for its line and must be read again with a larger
//! span.

use vstd::prelude::*;
use crate::bytes::NEWLINE;

verus! {

/// Where to cut a buffer.
#[derive(Clone, Copy, Debug, PartialEq, Eq, Structural)]
pub enum Cut {
    /// The text has ended; the buffer holds no record.
    End,
    /// The buffer is the last one; the chunk is all of it.
    Whole,
    /// The chunk is what stands before the newline at this place; the next
    /// read begins one byte behind the newline.
    At(usize),
    /// The buffer holds no newline; read again with a larger span.
    Grow,
}

/// `c` is the cut of a buffer `s` that was read with `span`.
pub open spec fn is_cut(s: Seq<u8>, span: int, c: Cut) -> bool {
    match c {
        Cut::End => s.len() < 4,
        Cut::Whole => 4 <= s.len() < span,
        Cut::At(e) => {
            &&& 4 <= s.len()
            &&& span <= s.len()
            &&& e < s.len()
            &&& s[e as int] == NEWLINE
            &&& forall|j: int| e < j < s.len() ==> s[j] != NEWLINE
        },
        Cut::Grow => {
            &&& 4 <= s.len()
            &&& span <= s.len()
            &&& forall|j: int| 0 <= j < s.len() ==> s[j] != NEWLINE
        },
    }
}

/// The cut of a buffer `s` that was read with `span`.
pub open spec fn cut_of(s: Seq<u8>, span: int) -> Cut {
    choose|c: Cut| is_cut(s, span, c)
}

/// A buffer has one cut only.
pub proof fn lemma_cut_unique(s: Seq<u8>, span: int, c: Cut, d: Cut)
    requires
        is_cut(s, span, c),
        is_cut(s, span, d),
    ensures
        c == d,
{
}

/// The place of the last newline of a buffer that holds one.
proof fn last_newline(s: Seq<u8>) -> (e: int)
    requires
        exists|j: int| 0 <= j < s.len() && s[j] == NEWLINE,
    ensures
        0 <= e < s.len(),
        s[e] == NEWLINE,
        forall|j: int| e < j < s.len() ==> s[j] != NEWLINE,
    decreases s.len(),
{
    if s.last() == NEWLINE {
        s.len() - 1
    } else {
        let t = s.drop_last();
        let w = choose|j: int| 0 <= j < s.len() && s[j] == NEWLINE;
        assert(t[w] == NEWLINE);
        let e = last_newline(t);
        assert forall|j: int| e < j < s.len() implies s[j] != NEWLINE by {
            if j < t.len() {
                assert(t[j] == s[j]);
            }
        }
        e
    }
}

/// Every buffer that a machine can hold has a cut.
pub proof fn lemma_has_cut(s: Seq<u8>, span: int)
    requires
        s.len() <= usize::MAX,
    ensures
        is_cut(s, span, cut_of(s, span)),
{
    if s.len() < 4 {
        assert(is_cut(s, span, Cut::End));
    } else if s.len() < span {
        assert(is_cut(s, span, Cut::Whole));
    } else if exists|j: int| 0 <= j < s.len() && s[j] == NEWLINE {
        let e = last_newline(s);
        assert(is_cut(s, span, Cut::At(e as usize)));
    } else {
        assert(is_cut(s, span, Cut::Grow));
    }
}

/// A cut of a buffer is the cut of that buffer.
pub proof fn lemma_cut_of(s: Seq<u8>, span: int, c: Cut)
    requires
        is_cut(s, span, c),
    ensures
        cut_of(s, span) == c,
{
    assert(exists|d: Cut| is_cut(s, span, d));
    lemma_cut_unique(s, span, c, cut_of(s, span));
}

/// Decides where to cut a buffer that was read with `span`.
pub fn plan_chunk(buf: &[u8], span: usize) -> (c: Cut)
    ensures
        is_cut(buf@, span as int, c),
        c == cut_of(buf@, span as int),
{
    let n = buf.len();
    if n < 4 {
        proof {
            lemma_cut_of(buf@, span as int, Cut::End);
        }
        return Cut::End;
    }
    if n < span {
        proof {
            lemma_cut_of(buf@, span as int, Cut::Whole);
        }
        return Cut::Whole;
    }
    let mut e: usize = n;
    while e > 0 && buf[e - 1] != NEWLINE
        invariant
            e <= n == buf@.len(),
            forall|j: int| e <= j < n ==> buf@[j] != NEWLINE,
        decreases e,
    {
        e -= 1;
    }
    let c = if e == 0 { Cut::Grow } else { Cut::At((e - 1) as usize) };
    proof {
        lemma_cut_of(buf@, span as int, c);
    }
    c
}

} // verus!
