//! Searching byte sequences.

use vstd::prelude::*;

verus! {

/// The byte that ends a line.
pub const NEWLINE: u8 = 0x0a;

/// The carriage return, which may stand before a newline.
pub const RETURN: u8 = 0x0d;

/// The byte between a name and its temperature.
pub const SEMICOLON: u8 = 0x3b;

/// The sign of a negative temperature.
pub const MINUS: u8 = 0x2d;

/// The decimal point.
pub const DOT: u8 = 0x2e;

/// The digit `0`.
pub const ZERO: u8 = 0x30;

/// The digit `9`.
pub const NINE: u8 = 0x39;

/// How many bytes of `s` stand before the first `b`; the whole length where
/// `s` holds no `b`.
pub open spec fn prefix_len(s: Seq<u8>, b: u8) -> nat
    decreases s.len(),
{
    if s.len() == 0 || s[0] == b {
        0
    } else {
        1 + prefix_len(s.drop_first(), b)
    }
}

/// `prefix_len` stops at the first `b` and not before.
pub proof fn lemma_prefix_len(s: Seq<u8>, b: u8)
    ensures
        prefix_len(s, b) <= s.len(),
        forall|j: int| 0 <= j < prefix_len(s, b) ==> s[j] != b,
        prefix_len(s, b) < s.len() ==> s[prefix_len(s, b) as int] == b,
    decreases s.len(),
{
    if s.len() == 0 || s[0] == b {
    } else {
        let t = s.drop_first();
        lemma_prefix_len(t, b);
        assert forall|j: int| 0 <= j < prefix_len(s, b) implies s[j] != b by {
            if j > 0 {
                assert(s[j] == t[j - 1]);
            }
        }
        if prefix_len(s, b) < s.len() {
            assert(s[prefix_len(s, b) as int] == t[prefix_len(t, b) as int]);
        }
    }
}

/// The only place that no `b` precedes and that holds a `b`, or is the end,
/// is `prefix_len`.
pub proof fn lemma_prefix_len_is(s: Seq<u8>, b: u8, k: int)
    requires
        0 <= k <= s.len(),
        forall|j: int| 0 <= j < k ==> s[j] != b,
        k < s.len() ==> s[k] == b,
    ensures
        prefix_len(s, b) == k,
    decreases s.len(),
{
    if s.len() == 0 || s[0] == b {
    } else {
        let t = s.drop_first();
        assert forall|j: int| 0 <= j < k - 1 implies t[j] != b by {
            assert(t[j] == s[j + 1]);
        }
        lemma_prefix_len_is(t, b, k - 1);
    }
}

/// The place of the first `b` at or after `from`; the length where there is
/// none.
pub fn find_byte(s: &[u8], from: usize, b: u8) -> (k: usize)
    requires
        from <= s.len(),
    ensures
        from <= k <= s.len(),
        k == from + prefix_len(s@.skip(from as int), b),
        forall|j: int| from <= j < k ==> s@[j] != b,
        k < s.len() ==> s@[k as int] == b,
{
    let mut k: usize = from;
    while k < s.len() && s[k] != b
        invariant
            from <= k <= s.len(),
            forall|j: int| from <= j < k ==> s@[j] != b,
        decreases s.len() - k,
    {
        k += 1;
    }
    proof {
        let t = s@.skip(from as int);
        assert forall|j: int| 0 <= j < k - from implies t[j] != b by {
            assert(t[j] == s@[from + j]);
        }
        lemma_prefix_len_is(t, b, k - from);
    }
    k
}

} // verus!
