//! Station names and their order.
//!
//! A name is a sequence of bytes. Names are ordered byte by byte, a proper
//! prefix coming before every name that extends it.

use vstd::prelude::*;

verus! {

/// `a` comes strictly before `b` in byte-wise lexicographic order.
pub open spec fn name_lt(a: Seq<u8>, b: Seq<u8>) -> bool
    decreases a.len(),
{
    if b.len() == 0 {
        false
    } else if a.len() == 0 {
        true
    } else if a[0] != b[0] {
        a[0] < b[0]
    } else {
        name_lt(a.drop_first(), b.drop_first())
    }
}

/// The names of `s` stand in strictly ascending order.
pub open spec fn ascending(s: Seq<Seq<u8>>) -> bool {
    forall|i: int, j: int| 0 <= i < j < s.len() ==> name_lt(#[trigger] s[i], #[trigger] s[j])
}

/// No name comes before itself.
pub proof fn lemma_name_lt_irreflexive(a: Seq<u8>)
    ensures
        !name_lt(a, a),
    decreases a.len(),
{
    if a.len() > 0 {
        lemma_name_lt_irreflexive(a.drop_first());
    }
}

/// Of two names that differ, exactly one comes before the other.
pub proof fn lemma_name_lt_total(a: Seq<u8>, b: Seq<u8>)
    ensures
        a != b ==> (name_lt(a, b) <==> !name_lt(b, a)),
        a == b ==> !name_lt(a, b) && !name_lt(b, a),
    decreases a.len(),
{
    if a == b {
        lemma_name_lt_irreflexive(a);
    } else if a.len() > 0 && b.len() > 0 && a[0] == b[0] {
        lemma_name_lt_total(a.drop_first(), b.drop_first());
        if a.drop_first() == b.drop_first() {
            assert(a =~= seq![a[0]] + a.drop_first());
            assert(b =~= seq![b[0]] + b.drop_first());
        }
    } else if a.len() == 0 && b.len() == 0 {
        assert(a =~= b);
    }
}

/// The order is transitive.
pub proof fn lemma_name_lt_transitive(a: Seq<u8>, b: Seq<u8>, c: Seq<u8>)
    requires
        name_lt(a, b),
        name_lt(b, c),
    ensures
        name_lt(a, c),
    decreases a.len(),
{
    if a.len() > 0 && a[0] == b[0] && b[0] == c[0] {
        lemma_name_lt_transitive(a.drop_first(), b.drop_first(), c.drop_first());
    }
}

/// Names in ascending order are pairwise distinct.
pub proof fn lemma_ascending_distinct(s: Seq<Seq<u8>>)
    requires
        ascending(s),
    ensures
        forall|i: int, j: int| 0 <= i < s.len() && 0 <= j < s.len() && i != j ==> s[i] != s[j],
{
    assert forall|i: int, j: int| 0 <= i < s.len() && 0 <= j < s.len() && i != j implies s[i]
        != s[j] by {
        lemma_name_lt_irreflexive(s[i]);
        if i < j {
            assert(name_lt(s[i], s[j]));
        } else {
            assert(name_lt(s[j], s[i]));
        }
    }
}

/// How one name stands to another.
#[derive(Clone, Copy, Debug, PartialEq, Eq, Structural)]
pub enum Standing {
    Before,
    Same,
    After,
}

/// Compares two names byte by byte.
pub fn compare_names(a: &[u8], b: &[u8]) -> (r: Standing)
    ensures
        r == Standing::Before <==> name_lt(a@, b@),
        r == Standing::Same <==> a@ == b@,
        r == Standing::After <==> name_lt(b@, a@),
{
    let mut i: usize = 0;
    proof {
        assert(a@.skip(0) =~= a@);
        assert(b@.skip(0) =~= b@);
        assert(a@.take(0) =~= b@.take(0));
    }
    while i < a.len() && i < b.len()
        invariant
            i <= a.len(),
            i <= b.len(),
            a@.take(i as int) == b@.take(i as int),
            name_lt(a@, b@) == name_lt(a@.skip(i as int), b@.skip(i as int)),
            name_lt(b@, a@) == name_lt(b@.skip(i as int), a@.skip(i as int)),
        decreases a.len() - i,
    {
        let ghost ra = a@.skip(i as int);
        let ghost rb = b@.skip(i as int);
        assert(ra[0] == a@[i as int] && rb[0] == b@[i as int]);
        if a[i] < b[i] {
            proof {
                lemma_name_lt_total(a@, b@);
                assert(a@ != b@);
            }
            return Standing::Before;
        }
        if a[i] > b[i] {
            proof {
                lemma_name_lt_total(a@, b@);
                assert(a@ != b@);
            }
            return Standing::After;
        }
        proof {
            assert(ra.drop_first() =~= a@.skip(i + 1));
            assert(rb.drop_first() =~= b@.skip(i + 1));
            assert(a@.take(i + 1) =~= a@.take(i as int).push(a@[i as int]));
            assert(b@.take(i + 1) =~= b@.take(i as int).push(b@[i as int]));
        }
        i += 1;
    }
    proof {
        lemma_name_lt_total(a@, b@);
        if a.len() == b.len() {
            assert(a@ =~= a@.take(i as int));
            assert(b@ =~= b@.take(i as int));
        }
    }
    if a.len() == b.len() {
        Standing::Same
    } else if i == a.len() {
        Standing::Before
    } else {
        Standing::After
    }
}

} // verus!
