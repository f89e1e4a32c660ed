//! The transform itself: parse, sort, and rebuild.  On success the emitted
//! node holds the arguments' expression handles in sorted key order; on any
//! failure no node is emitted and the diagnostics tell why.

use vstd::prelude::*;
use vstd::relations::sorted_by;
use crate::ast::{
    entries_view, exprs_of, tokens_view, ArrayLit, DiagKind, Entry, Expansion, Token, TokenV,
};
use crate::order::{entry_leq, lemma_entry_leq_total_ordering};
use crate::parse::{
    bad_arg_count, lemma_diags_count_literals, lemma_entries_faithful, lemma_hard_stop,
    parse_entries, parse_from, parse_ok,
};
use crate::sorter::{lemma_sort_stable, sort_entries};

verus! {

broadcast use vstd::seq_lib::group_to_multiset_ensures;

/// Builds the array-literal node: the call-site position, and the entries'
/// expression handles in the entries' order.  The handles are only moved
/// over; no element expression is constructed or altered.
pub fn create_slice(pos: usize, entries: Vec<Entry>) -> (r: ArrayLit)
    ensures
        r.pos == pos,
        r.elems@ == exprs_of(entries_view(entries@)),
{
    let mut elems: Vec<usize> = Vec::new();
    let mut i: usize = 0;
    while i < entries.len()
        invariant
            i <= entries.len(),
            elems@.len() == i,
            forall|k: int| 0 <= k < i ==> #[trigger] elems@[k] == entries@[k].expr,
        decreases entries.len() - i,
    {
        let e = &entries[i];
        elems.push(e.expr);
        i = i + 1;
    }
    proof {
        assert(elems@ =~= exprs_of(entries_view(entries@)));
    }
    ArrayLit { pos, elems }
}

/// One whole invocation of the transform.  The diagnostics are exactly
/// those of the parse; a node comes back if and only if nothing was
/// reported, and it holds the call-site position and every argument's
/// handle, rearranged into sorted order - byte-wise by literal value,
/// original order on ties.
pub fn expand_sort(tokens: &Vec<Token>, call_pos: usize) -> (r: Expansion)
    ensures
        r.diagnostics@ == parse_from(tokens_view(tokens@), 0).diags,
        r.node is Some <==> parse_ok(parse_from(tokens_view(tokens@), 0)),
        r.node matches Some(node) ==> node.pos == call_pos && node.elems@ == exprs_of(
            parse_from(tokens_view(tokens@), 0).entries.sort_by(entry_leq()),
        ),
        r.node matches Some(node) ==> node.elems@.len() == parse_from(
            tokens_view(tokens@),
            0,
        ).entries.len(),
{
    let pr = parse_entries(tokens);
    match pr.entries {
        None => Expansion { node: None, diagnostics: pr.diagnostics },
        Some(es) => {
            let sorted = sort_entries(es);
            let node = create_slice(call_pos, sorted);
            proof {
                vstd::std_specs::vec::axiom_spec_len(tokens);
                lemma_output_is_stable_sort(tokens_view(tokens@));
            }
            Expansion { node: Some(node), diagnostics: pr.diagnostics }
        },
    }
}

/// For an input whose arguments parse clean - every one a string literal,
/// every separator in place - the transform succeeds, and what it emits is
/// the input stably sorted: as many elements as arguments, the very same
/// entries - none dropped, none duplicated - in sorted key order.
pub proof fn lemma_output_is_stable_sort(toks: Seq<TokenV>)
    requires
        toks.len() <= usize::MAX,
        parse_ok(parse_from(toks, 0)),
    ensures
        parse_from(toks, 0).entries.sort_by(entry_leq()).len() == parse_from(
            toks,
            0,
        ).entries.len(),
        parse_from(toks, 0).entries.sort_by(entry_leq()).to_multiset() == parse_from(
            toks,
            0,
        ).entries.to_multiset(),
        sorted_by(parse_from(toks, 0).entries.sort_by(entry_leq()), entry_leq()),
{
    lemma_entry_leq_total_ordering();
    let es = parse_from(toks, 0).entries;
    es.lemma_sort_by_ensures(entry_leq());
    assert(es.to_multiset().len() == es.len());
    assert(es.sort_by(entry_leq()).to_multiset().len() == es.sort_by(entry_leq()).len());
}

/// An input with a malformed argument, its separators in place, fails: no
/// node, and exactly one `MalformedLiteral` for each argument that is not
/// a string literal - nothing more.
pub proof fn lemma_malformed_arguments_fail(toks: Seq<TokenV>)
    requires
        toks.len() <= usize::MAX,
        !parse_from(toks, 0).hard,
        bad_arg_count(toks, 0) > 0,
    ensures
        !parse_ok(parse_from(toks, 0)),
        parse_from(toks, 0).diags.len() == bad_arg_count(toks, 0),
        forall|k: int|
            0 <= k < parse_from(toks, 0).diags.len() ==> (#[trigger] parse_from(
                toks,
                0,
            ).diags[k]).kind == DiagKind::MalformedLiteral,
{
    lemma_diags_count_literals(toks, 0);
}

/// A missing comma fails the transform at once: the separator diagnostic
/// comes last, after one `MalformedLiteral` per malformed argument before
/// it.  When every argument reached was a literal it is the only
/// diagnostic - whatever, however malformed, stands beyond the bad
/// separator.
pub proof fn lemma_missing_comma_fails(toks: Seq<TokenV>)
    requires
        toks.len() <= usize::MAX,
        parse_from(toks, 0).hard,
    ensures
        !parse_ok(parse_from(toks, 0)),
        parse_from(toks, 0).diags.len() == bad_arg_count(toks, 0) + 1,
        parse_from(toks, 0).diags.last().kind == DiagKind::MalformedSeparator,
        forall|k: int|
            0 <= k < parse_from(toks, 0).diags.len() - 1 ==> (#[trigger] parse_from(
                toks,
                0,
            ).diags[k]).kind == DiagKind::MalformedLiteral,
{
    lemma_hard_stop(toks, 0);
}

/// Stability, seen at the transform level: two arguments with the same
/// literal value but different positions keep their relative order in the
/// emitted array, wherever they come to stand in it.
pub proof fn lemma_transform_stable(toks: Seq<TokenV>, i: int, j: int, oi: int, oj: int)
    requires
        toks.len() <= usize::MAX,
        0 <= i < j < parse_from(toks, 0).entries.len(),
        parse_from(toks, 0).entries[i].key == parse_from(toks, 0).entries[j].key,
        0 <= oi < parse_from(toks, 0).entries.sort_by(entry_leq()).len(),
        0 <= oj < parse_from(toks, 0).entries.sort_by(entry_leq()).len(),
        parse_from(toks, 0).entries.sort_by(entry_leq())[oi] == parse_from(toks, 0).entries[i],
        parse_from(toks, 0).entries.sort_by(entry_leq())[oj] == parse_from(toks, 0).entries[j],
    ensures
        oi < oj,
{
    lemma_entries_faithful(toks, 0);
    lemma_sort_stable(parse_from(toks, 0).entries, i, j, oi, oj);
}

} // verus!
