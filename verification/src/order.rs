//! The order the sorter uses: byte-wise (ordinal) comparison of the keys,
//! with the original position breaking ties.  An entry is nothing but its
//! key and its position, so the tie-break makes the order total and
//! antisymmetric, and the sorted form of an entry sequence is unique.

use vstd::prelude::*;
use vstd::relations::total_ordering;
use crate::ast::{Entry, EntryV};

verus! {

/// Byte-wise "less than or equal" on byte strings: the usual lexicographic
/// order, a shorter string preceding every string it is a prefix of.
pub open spec fn lex_le(a: Seq<u8>, b: Seq<u8>) -> bool
    decreases a.len(),
{
    if a.len() == 0 {
        true
    } else if b.len() == 0 {
        false
    } else if a[0] < b[0] {
        true
    } else if a[0] > b[0] {
        false
    } else {
        lex_le(a.drop_first(), b.drop_first())
    }
}

pub proof fn lemma_lex_le_refl(a: Seq<u8>)
    ensures
        lex_le(a, a),
    decreases a.len(),
{
    if a.len() > 0 {
        lemma_lex_le_refl(a.drop_first());
    }
}

pub proof fn lemma_lex_le_total(a: Seq<u8>, b: Seq<u8>)
    ensures
        lex_le(a, b) || lex_le(b, a),
    decreases a.len(),
{
    if a.len() > 0 && b.len() > 0 && a[0] == b[0] {
        lemma_lex_le_total(a.drop_first(), b.drop_first());
    }
}

pub proof fn lemma_lex_le_antisym(a: Seq<u8>, b: Seq<u8>)
    requires
        lex_le(a, b),
        lex_le(b, a),
    ensures
        a == b,
    decreases a.len(),
{
    if a.len() == 0 {
        assert(b.len() == 0);
        assert(a =~= b);
    } else {
        assert(b.len() > 0);
        assert(a[0] == b[0]);
        lemma_lex_le_antisym(a.drop_first(), b.drop_first());
        assert forall|i: int| 0 <= i < a.len() implies a[i] == b[i] by {
            if i > 0 {
                assert(a.drop_first()[i - 1] == b.drop_first()[i - 1]);
            }
        }
        assert(a =~= b);
    }
}

pub proof fn lemma_lex_le_trans(a: Seq<u8>, b: Seq<u8>, c: Seq<u8>)
    requires
        lex_le(a, b),
        lex_le(b, c),
    ensures
        lex_le(a, c),
    decreases a.len(),
{
    if a.len() == 0 {
    } else {
        assert(b.len() > 0);
        assert(c.len() > 0);
        if a[0] == b[0] && b[0] == c[0] {
            lemma_lex_le_trans(a.drop_first(), b.drop_first(), c.drop_first());
        }
    }
}

/// The order the entries are sorted by: by key, byte-wise; on equal keys by
/// the original position, which is what makes the sort stable.
pub open spec fn entry_le(x: EntryV, y: EntryV) -> bool {
    if x.key == y.key {
        x.expr <= y.expr
    } else {
        lex_le(x.key, y.key)
    }
}

/// `entry_le` as a relation value, for the sequence-sorting vocabulary.
pub open spec fn entry_leq() -> spec_fn(EntryV, EntryV) -> bool {
    |x: EntryV, y: EntryV| entry_le(x, y)
}

/// The entry order is a total order.  Antisymmetry holds because an entry is
/// nothing but its key and its position: two entries that precede each other
/// are equal.  This is what pins the sorted output down uniquely.
pub proof fn lemma_entry_leq_total_ordering()
    ensures
        total_ordering(entry_leq()),
{
    let r = entry_leq();
    assert forall|x: EntryV| #[trigger] r(x, x) by {}
    assert forall|x: EntryV, y: EntryV| #[trigger] r(x, y) && #[trigger] r(y, x) implies x == y by {
        if x.key == y.key {
            assert(x =~= y);
        } else {
            lemma_lex_le_antisym(x.key, y.key);
        }
    }
    assert forall|x: EntryV, y: EntryV, z: EntryV|
        #[trigger] r(x, y) && #[trigger] r(y, z) implies r(x, z) by {
        lemma_entry_le_trans(x, y, z);
    }
    assert forall|x: EntryV, y: EntryV| #[trigger] r(x, y) || #[trigger] r(y, x) by {
        if x.key == y.key {
        } else {
            lemma_lex_le_total(x.key, y.key);
        }
    }
}

/// The entry order is transitive.
pub proof fn lemma_entry_le_trans(x: EntryV, y: EntryV, z: EntryV)
    requires
        entry_le(x, y),
        entry_le(y, z),
    ensures
        entry_le(x, z),
{
    if x.key == y.key && y.key == z.key {
    } else if x.key == y.key {
        assert(x.key != z.key);
    } else if y.key == z.key {
        assert(x.key != z.key);
    } else {
        lemma_lex_le_trans(x.key, y.key, z.key);
        if x.key == z.key {
            lemma_lex_le_antisym(x.key, y.key);
        }
    }
}

/// Any two entries are comparable under the entry order.
pub proof fn lemma_entry_le_connected(x: EntryV, y: EntryV)
    ensures
        entry_le(x, y) || entry_le(y, x),
{
    if x.key != y.key {
        lemma_lex_le_total(x.key, y.key);
    }
}

/// Byte-wise comparison of two keys.
pub fn key_le(a: &Vec<u8>, b: &Vec<u8>) -> (r: bool)
    ensures
        r == lex_le(a@, b@),
{
    let mut i: usize = 0;
    proof {
        assert(a@.skip(0) =~= a@);
        assert(b@.skip(0) =~= b@);
    }
    while i < a.len() && i < b.len()
        invariant
            i <= a.len(),
            i <= b.len(),
            lex_le(a@, b@) == lex_le(a@.skip(i as int), b@.skip(i as int)),
        decreases a.len() - i,
    {
        let x = a[i];
        let y = b[i];
        proof {
            assert(a@.skip(i as int)[0] == a@[i as int]);
            assert(b@.skip(i as int)[0] == b@[i as int]);
        }
        if x < y {
            return true;
        }
        if x > y {
            return false;
        }
        proof {
            assert(a@.skip(i as int).drop_first() =~= a@.skip(i + 1));
            assert(b@.skip(i as int).drop_first() =~= b@.skip(i + 1));
        }
        i = i + 1;
    }
    if i >= a.len() {
        proof {
            assert(a@.skip(i as int).len() == 0);
        }
        true
    } else {
        proof {
            assert(a@.skip(i as int).len() > 0);
            assert(b@.skip(i as int).len() == 0);
        }
        false
    }
}

/// Decides whether `x` comes no later than `y` in the sorted output.
pub fn entry_before(x: &Entry, y: &Entry) -> (r: bool)
    ensures
        r == entry_le(x@, y@),
{
    let ab = key_le(&x.key, &y.key);
    let ba = key_le(&y.key, &x.key);
    if ab && ba {
        proof {
            lemma_lex_le_antisym(x.key@, y.key@);
        }
        x.expr <= y.expr
    } else {
        proof {
            if x.key@ == y.key@ {
                lemma_lex_le_refl(x.key@);
            }
        }
        ab
    }
}

} // verus!
