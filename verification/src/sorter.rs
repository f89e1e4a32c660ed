//! The sorter: a stable merge sort of the entries by the byte-wise key
//! order, in O(n log n) comparisons.  Because the entry order is total and
//! antisymmetric, sortedness and the multiset of entries pin the output
//! down to exactly `sort_by` of the input, and stability and idempotence
//! follow as theorems.

use vstd::prelude::*;
use vstd::relations::sorted_by;
use vstd::seq_lib::{lemma_multiset_commutative, lemma_sorted_unique};
use crate::ast::{
    entries_view, lemma_entries_view_remove, lemma_entries_view_subrange, Entry, EntryV,
};
use crate::order::{
    entry_before, entry_le, entry_leq, lemma_entry_le_connected, lemma_entry_le_trans,
    lemma_entry_leq_total_ordering,
};

verus! {

broadcast use vstd::seq_lib::group_to_multiset_ensures, vstd::multiset::group_multiset_axioms;

/// A sorted sequence stays sorted when its first entry goes, and that
/// first entry comes no later than everything that is left.
proof fn lemma_sorted_drop_head(s: Seq<EntryV>)
    requires
        sorted_by(s, entry_leq()),
        s.len() > 0,
    ensures
        sorted_by(s.remove(0), entry_leq()),
        forall|m: int| 0 <= m < s.remove(0).len() ==> entry_le(s[0], #[trigger] s.remove(0)[m]),
{
    let r = entry_leq();
    s.remove_ensures(0);
    let t = s.remove(0);
    assert forall|i: int, j: int| 0 <= i < j < t.len() implies #[trigger] r(t[i], t[j]) by {
        assert(t[i] == s[i + 1]);
        assert(t[j] == s[j + 1]);
        assert(r(s[i + 1], s[j + 1]));
    }
    assert forall|m: int| 0 <= m < t.len() implies entry_le(s[0], #[trigger] t[m]) by {
        assert(t[m] == s[m + 1]);
        assert(r(s[0], s[m + 1]));
    }
}

/// Merges two sorted entry vectors into one sorted vector holding exactly
/// the entries of both.  On a tie the left side goes first.
fn merge_entries(left: Vec<Entry>, right: Vec<Entry>) -> (r: Vec<Entry>)
    requires
        sorted_by(entries_view(left@), entry_leq()),
        sorted_by(entries_view(right@), entry_leq()),
    ensures
        sorted_by(entries_view(r@), entry_leq()),
        entries_view(r@).to_multiset() == entries_view(left@).to_multiset().add(
            entries_view(right@).to_multiset(),
        ),
{
    let ghost lv = entries_view(left@);
    let ghost rv = entries_view(right@);
    let mut a = left;
    let mut b = right;
    let mut out: Vec<Entry> = Vec::new();
    proof {
        assert(entries_view(out@) =~= Seq::<EntryV>::empty());
        assert(entries_view(out@).to_multiset().add(entries_view(a@).to_multiset()).add(
            entries_view(b@).to_multiset(),
        ) =~= lv.to_multiset().add(rv.to_multiset()));
    }
    while a.len() > 0 || b.len() > 0
        invariant
            sorted_by(entries_view(a@), entry_leq()),
            sorted_by(entries_view(b@), entry_leq()),
            sorted_by(entries_view(out@), entry_leq()),
            entries_view(out@).to_multiset().add(entries_view(a@).to_multiset()).add(
                entries_view(b@).to_multiset(),
            ) =~= lv.to_multiset().add(rv.to_multiset()),
            a@.len() > 0 ==> forall|m: int|
                0 <= m < entries_view(out@).len() ==> entry_le(
                    #[trigger] entries_view(out@)[m],
                    entries_view(a@)[0],
                ),
            b@.len() > 0 ==> forall|m: int|
                0 <= m < entries_view(out@).len() ==> entry_le(
                    #[trigger] entries_view(out@)[m],
                    entries_view(b@)[0],
                ),
        decreases a.len() + b.len(),
    {
        let take_left: bool = if a.len() == 0 {
            false
        } else if b.len() == 0 {
            true
        } else {
            entry_before(&a[0], &b[0])
        };
        let ghost prev_a = entries_view(a@);
        let ghost prev_b = entries_view(b@);
        let ghost prev_out = entries_view(out@);
        proof {
            if a@.len() > 0 {
                assert(prev_a[0] == a@[0]@);
            }
            if b@.len() > 0 {
                assert(prev_b[0] == b@[0]@);
            }
            if !take_left {
                assert(b@.len() > 0);
                if a@.len() > 0 {
                    lemma_entry_le_connected(prev_a[0], prev_b[0]);
                    assert(entry_le(prev_b[0], prev_a[0]));
                }
            }
        }
        let e = if take_left {
            let ghost va = a@;
            let e = a.remove(0);
            proof {
                lemma_entries_view_remove(va, 0);
                lemma_sorted_drop_head(prev_a);
                assert(entries_view(a@) =~= prev_a.remove(0));
                assert(e@ == prev_a[0]);
            }
            e
        } else {
            let ghost vb = b@;
            let e = b.remove(0);
            proof {
                lemma_entries_view_remove(vb, 0);
                lemma_sorted_drop_head(prev_b);
                assert(entries_view(b@) =~= prev_b.remove(0));
                assert(e@ == prev_b[0]);
            }
            e
        };
        let ghost out_before_push = out@;
        out.push(e);
        proof {
            let r = entry_leq();
            crate::ast::lemma_entries_view_push(out_before_push, e);
            let vo = entries_view(out@);
            assert(vo =~= prev_out.push(e@));
            // Everything already placed comes no later than `e`.
            assert forall|m: int| 0 <= m < prev_out.len() implies entry_le(
                #[trigger] prev_out[m],
                e@,
            ) by {}
            // The output stays sorted.
            assert forall|i: int, j: int| 0 <= i < j < vo.len() implies #[trigger] r(
                vo[i],
                vo[j],
            ) by {
                if j < prev_out.len() {
                    assert(r(prev_out[i], prev_out[j]));
                } else {
                    assert(vo[j] == e@);
                    assert(entry_le(prev_out[i], e@));
                }
            }
            // Nothing placed comes after the new heads.
            if take_left {
                if a@.len() > 0 {
                    assert(entry_le(e@, entries_view(a@)[0]));
                    assert forall|m: int| 0 <= m < vo.len() implies entry_le(
                        #[trigger] vo[m],
                        entries_view(a@)[0],
                    ) by {
                        if m < prev_out.len() {
                            lemma_entry_le_trans(prev_out[m], e@, entries_view(a@)[0]);
                        }
                    }
                }
                if b@.len() > 0 {
                    assert(entry_le(e@, prev_b[0]));
                    assert forall|m: int| 0 <= m < vo.len() implies entry_le(
                        #[trigger] vo[m],
                        entries_view(b@)[0],
                    ) by {
                        if m < prev_out.len() {
                            lemma_entry_le_trans(prev_out[m], e@, entries_view(b@)[0]);
                        }
                    }
                }
                // The multiset moves one entry from `a` to the output.
                assert(prev_a.to_multiset().count(e@) > 0) by {
                    assert(prev_a[0] == e@);
                    assert(prev_a.contains(e@));
                }
                assert(entries_view(a@).to_multiset() == prev_a.to_multiset().remove(e@));
                assert(vo.to_multiset() == prev_out.to_multiset().insert(e@));
                assert(vo.to_multiset().add(entries_view(a@).to_multiset()).add(
                    entries_view(b@).to_multiset(),
                ) =~= lv.to_multiset().add(rv.to_multiset()));
            } else {
                if a@.len() > 0 {
                    assert(entry_le(e@, prev_a[0]));
                    assert forall|m: int| 0 <= m < vo.len() implies entry_le(
                        #[trigger] vo[m],
                        entries_view(a@)[0],
                    ) by {
                        if m < prev_out.len() {
                            lemma_entry_le_trans(prev_out[m], e@, entries_view(a@)[0]);
                        }
                    }
                }
                if b@.len() > 0 {
                    assert(entry_le(e@, entries_view(b@)[0]));
                    assert forall|m: int| 0 <= m < vo.len() implies entry_le(
                        #[trigger] vo[m],
                        entries_view(b@)[0],
                    ) by {
                        if m < prev_out.len() {
                            lemma_entry_le_trans(prev_out[m], e@, entries_view(b@)[0]);
                        }
                    }
                }
                // The multiset moves one entry from `b` to the output.
                assert(prev_b.to_multiset().count(e@) > 0) by {
                    assert(prev_b[0] == e@);
                    assert(prev_b.contains(e@));
                }
                assert(entries_view(b@).to_multiset() == prev_b.to_multiset().remove(e@));
                assert(vo.to_multiset() == prev_out.to_multiset().insert(e@));
                assert(vo.to_multiset().add(entries_view(a@).to_multiset()).add(
                    entries_view(b@).to_multiset(),
                ) =~= lv.to_multiset().add(rv.to_multiset()));
            }
        }
    }
    proof {
        assert(entries_view(a@) =~= Seq::<EntryV>::empty());
        assert(entries_view(b@) =~= Seq::<EntryV>::empty());
        assert(entries_view(out@).to_multiset() =~= lv.to_multiset().add(rv.to_multiset()));
    }
    out
}

/// Stable sort of the entries: the result is ordered by key, byte-wise,
/// and entries with equal keys keep their original relative order.  The
/// contract states the result exactly: it is `sort_by` of the input under
/// the entry order.
pub fn sort_entries(entries: Vec<Entry>) -> (r: Vec<Entry>)
    ensures
        entries_view(r@) == entries_view(entries@).sort_by(entry_leq()),
    decreases entries@.len(),
{
    let ghost s = entries_view(entries@);
    proof {
        lemma_entry_leq_total_ordering();
        s.lemma_sort_by_ensures(entry_leq());
    }
    if entries.len() <= 1 {
        proof {
            lemma_sorted_unique(s, s.sort_by(entry_leq()), entry_leq());
            assert(s =~= s.sort_by(entry_leq()));
        }
        return entries;
    }
    let ghost orig = entries@;
    let mut left = entries;
    let mid = left.len() / 2;
    let right = left.split_off(mid);
    proof {
        lemma_entries_view_subrange(orig, 0, mid as int);
        lemma_entries_view_subrange(orig, mid as int, orig.len() as int);
        assert(entries_view(left@) =~= s.subrange(0, mid as int));
        assert(entries_view(right@) =~= s.subrange(mid as int, s.len() as int));
    }
    let ghost sl = s.subrange(0, mid as int);
    let ghost sr = s.subrange(mid as int, s.len() as int);
    let ls = sort_entries(left);
    let rs = sort_entries(right);
    proof {
        sl.lemma_sort_by_ensures(entry_leq());
        sr.lemma_sort_by_ensures(entry_leq());
    }
    let merged = merge_entries(ls, rs);
    proof {
        assert(s =~= sl + sr);
        lemma_multiset_commutative(sl, sr);
        assert(entries_view(merged@).to_multiset() =~= s.to_multiset());
        lemma_sorted_unique(entries_view(merged@), s.sort_by(entry_leq()), entry_leq());
        assert(entries_view(merged@) =~= s.sort_by(entry_leq()));
    }
    merged
}

/// A sequence that is already sorted is its own sorted form: sorting it
/// again would change nothing.
pub proof fn lemma_sort_of_sorted(s: Seq<EntryV>)
    requires
        sorted_by(s, entry_leq()),
    ensures
        s.sort_by(entry_leq()) == s,
{
    lemma_entry_leq_total_ordering();
    s.lemma_sort_by_ensures(entry_leq());
    lemma_sorted_unique(s.sort_by(entry_leq()), s, entry_leq());
    assert(s.sort_by(entry_leq()) =~= s);
}

/// Sorting is idempotent: applying the sort to its own output yields the
/// identical order.
pub proof fn lemma_sort_idempotent(s: Seq<EntryV>)
    ensures
        s.sort_by(entry_leq()).sort_by(entry_leq()) == s.sort_by(entry_leq()),
{
    lemma_entry_leq_total_ordering();
    s.lemma_sort_by_ensures(entry_leq());
    lemma_sort_of_sorted(s.sort_by(entry_leq()));
}

/// Stability: when two entries carry the same key but stand at different
/// positions, the one that came first in the input stands first in the
/// sorted output, wherever the two appear in it.
pub proof fn lemma_sort_stable(s: Seq<EntryV>, i: int, j: int, pi: int, pj: int)
    requires
        forall|m: int, n: int|
            #![trigger s[m], s[n]]
            0 <= m < n < s.len() ==> s[m].expr < s[n].expr,
        0 <= i < j < s.len(),
        s[i].key == s[j].key,
        0 <= pi < s.sort_by(entry_leq()).len(),
        0 <= pj < s.sort_by(entry_leq()).len(),
        s.sort_by(entry_leq())[pi] == s[i],
        s.sort_by(entry_leq())[pj] == s[j],
    ensures
        pi < pj,
{
    lemma_entry_leq_total_ordering();
    s.lemma_sort_by_ensures(entry_leq());
    let out = s.sort_by(entry_leq());
    assert(s[i].expr < s[j].expr);
    if pj < pi {
        assert(entry_leq()(out[pj], out[pi]));
        assert(false);
    } else if pj == pi {
        assert(s[i] == s[j]);
        assert(false);
    }
}

} // verus!
