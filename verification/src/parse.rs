//! The argument parser: walks the token sequence as a comma-separated
//! argument list, builds one entry per argument, and collects diagnostics.
//! An argument that is not a string literal is a soft error: it is reported
//! and parsing continues, with the empty key standing in.  A malformed
//! separator - anything but a comma or the end of input after an argument -
//! is a hard error: it is reported once and parsing stops at once.

use vstd::prelude::*;
use crate::ast::{
    entries_view, lemma_entries_view_push, token_pos, tokens_view, DiagKind, Diagnostic, Entry,
    EntryV, Token, TokenV,
};

verus! {

/// The outcome of parsing, in mathematical form: the entries built (one per
/// argument reached), the diagnostics in report order, and whether a
/// malformed separator stopped parsing.
#[verifier::ext_equal]
pub ghost struct Parsed {
    pub entries: Seq<EntryV>,
    pub diags: Seq<Diagnostic>,
    pub hard: bool,
}

/// Is this token a string-literal expression?
pub open spec fn is_str_lit(t: TokenV) -> bool {
    t is StrLit
}

/// The value a string-literal token carries; the empty string for any
/// other token, matching the placeholder key of a rejected argument.
pub open spec fn lit_value(t: TokenV) -> Seq<u8> {
    match t {
        TokenV::StrLit { pos, value } => value,
        TokenV::Other { pos } => Seq::empty(),
        TokenV::Comma { pos } => Seq::empty(),
    }
}

/// The entry the argument token at index `i` yields: its value as the sort
/// key and its index as the opaque expression handle.
pub open spec fn arg_entry(t: TokenV, i: int) -> EntryV {
    EntryV { key: lit_value(t), expr: i as usize }
}

/// The diagnostics one argument token yields: none for a string literal,
/// one `MalformedLiteral` at the token's position for anything else.
pub open spec fn arg_diags(t: TokenV) -> Seq<Diagnostic> {
    if is_str_lit(t) {
        Seq::empty()
    } else {
        seq![Diagnostic { pos: token_pos(t), kind: DiagKind::MalformedLiteral }]
    }
}

/// Parsing from position `i`, where an argument is expected.  After each
/// argument either a comma or the end of input must follow; a trailing
/// comma is accepted.  This is the reference the executable parser is held
/// to.
pub open spec fn parse_from(toks: Seq<TokenV>, i: int) -> Parsed
    decreases toks.len() - i,
    when 0 <= i <= toks.len() && toks.len() <= usize::MAX
{
    if i >= toks.len() {
        Parsed { entries: Seq::empty(), diags: Seq::empty(), hard: false }
    } else {
        let e = arg_entry(toks[i], i);
        let d = arg_diags(toks[i]);
        if i + 1 >= toks.len() {
            Parsed { entries: seq![e], diags: d, hard: false }
        } else if toks[i + 1] is Comma {
            let rest = parse_from(toks, i + 2);
            Parsed {
                entries: seq![e] + rest.entries,
                diags: d + rest.diags,
                hard: rest.hard,
            }
        } else {
            Parsed {
                entries: seq![e],
                diags: d + seq![
                    Diagnostic { pos: token_pos(toks[i + 1]), kind: DiagKind::MalformedSeparator },
                ],
                hard: true,
            }
        }
    }
}

/// A parse succeeds exactly when nothing was reported.
pub open spec fn parse_ok(p: Parsed) -> bool {
    !p.hard && p.diags.len() == 0
}

/// What the parser hands back: the entries when parsing succeeded, `None`
/// after any diagnostic, and the diagnostics themselves in report order.
pub struct ParseResult {
    pub entries: Option<Vec<Entry>>,
    pub diagnostics: Vec<Diagnostic>,
}

/// Copies a literal's value out of its token.
fn copy_bytes(v: &Vec<u8>) -> (r: Vec<u8>)
    ensures
        r@ == v@,
{
    let mut r: Vec<u8> = Vec::new();
    let mut i: usize = 0;
    while i < v.len()
        invariant
            i <= v.len(),
            r@ == v@.subrange(0, i as int),
        decreases v.len() - i,
    {
        r.push(v[i]);
        proof {
            assert(v@.subrange(0, i + 1) =~= v@.subrange(0, i as int).push(v@[i as int]));
        }
        i = i + 1;
    }
    proof {
        assert(v@.subrange(0, i as int) =~= v@);
    }
    r
}

/// The number of arguments that are not string literals, counted from
/// position `i` the way parsing walks the list - stopping, as parsing
/// does, at a malformed separator.
pub open spec fn bad_arg_count(toks: Seq<TokenV>, i: int) -> nat
    decreases toks.len() - i,
    when 0 <= i <= toks.len() && toks.len() <= usize::MAX
{
    if i >= toks.len() {
        0
    } else {
        let here: nat = if is_str_lit(toks[i]) {
            0
        } else {
            1
        };
        if i + 1 >= toks.len() {
            here
        } else if toks[i + 1] is Comma {
            here + bad_arg_count(toks, i + 2)
        } else {
            here
        }
    }
}

/// Soft failures are collected completely: when no malformed separator
/// stops parsing, there is exactly one diagnostic per argument that is not
/// a string literal, every one of kind `MalformedLiteral`, and nothing
/// else.
pub proof fn lemma_diags_count_literals(toks: Seq<TokenV>, i: int)
    requires
        0 <= i <= toks.len(),
        toks.len() <= usize::MAX,
        !parse_from(toks, i).hard,
    ensures
        parse_from(toks, i).diags.len() == bad_arg_count(toks, i),
        forall|k: int|
            0 <= k < parse_from(toks, i).diags.len() ==> (#[trigger] parse_from(
                toks,
                i,
            ).diags[k]).kind == DiagKind::MalformedLiteral,
    decreases toks.len() - i,
{
    let p = parse_from(toks, i);
    if i >= toks.len() {
    } else if i + 1 >= toks.len() {
    } else if toks[i + 1] is Comma {
        lemma_diags_count_literals(toks, i + 2);
        let rest = parse_from(toks, i + 2);
        assert forall|k: int| 0 <= k < p.diags.len() implies (#[trigger] p.diags[k]).kind
            == DiagKind::MalformedLiteral by {
            let d = arg_diags(toks[i]);
            if k < d.len() {
                assert(p.diags[k] == d[k]);
            } else {
                assert(p.diags[k] == rest.diags[k - d.len()]);
            }
        }
    } else {
        assert(p.hard);
    }
}

/// A malformed separator stops parsing at once: exactly one
/// `MalformedSeparator` is reported, as the last diagnostic; everything
/// before it is a `MalformedLiteral` from an argument already seen, and
/// nothing past the bad separator is looked at.
pub proof fn lemma_hard_stop(toks: Seq<TokenV>, i: int)
    requires
        0 <= i <= toks.len(),
        toks.len() <= usize::MAX,
        parse_from(toks, i).hard,
    ensures
        parse_from(toks, i).diags.len() == bad_arg_count(toks, i) + 1,
        parse_from(toks, i).diags.last().kind == DiagKind::MalformedSeparator,
        forall|k: int|
            0 <= k < parse_from(toks, i).diags.len() - 1 ==> (#[trigger] parse_from(
                toks,
                i,
            ).diags[k]).kind == DiagKind::MalformedLiteral,
    decreases toks.len() - i,
{
    let p = parse_from(toks, i);
    if i >= toks.len() {
    } else if i + 1 >= toks.len() {
    } else if toks[i + 1] is Comma {
        lemma_hard_stop(toks, i + 2);
        let rest = parse_from(toks, i + 2);
        let d = arg_diags(toks[i]);
        assert(p.diags.last() == rest.diags.last());
        assert forall|k: int| 0 <= k < p.diags.len() - 1 implies (#[trigger] p.diags[k]).kind
            == DiagKind::MalformedLiteral by {
            if k < d.len() {
                assert(p.diags[k] == d[k]);
            } else {
                assert(p.diags[k] == rest.diags[k - d.len()]);
            }
        }
    } else {
        let d = arg_diags(toks[i]);
        assert forall|k: int| 0 <= k < p.diags.len() - 1 implies (#[trigger] p.diags[k]).kind
            == DiagKind::MalformedLiteral by {
            assert(p.diags[k] == d[k]);
        }
    }
}

/// Every entry mirrors its argument: the handle points into the token
/// sequence at the argument it came from, handles grow strictly from left
/// to right, and the key is that token's literal value.  On success every
/// handle points at a string literal.
pub proof fn lemma_entries_faithful(toks: Seq<TokenV>, i: int)
    requires
        0 <= i <= toks.len(),
        toks.len() <= usize::MAX,
    ensures
        forall|k: int|
            0 <= k < parse_from(toks, i).entries.len() ==> i <= (#[trigger] parse_from(
                toks,
                i,
            ).entries[k]).expr < toks.len(),
        forall|k: int|
            0 <= k < parse_from(toks, i).entries.len() ==> (#[trigger] parse_from(
                toks,
                i,
            ).entries[k]).key == lit_value(toks[parse_from(toks, i).entries[k].expr as int]),
        forall|k: int, l: int|
            0 <= k < l < parse_from(toks, i).entries.len() ==> (#[trigger] parse_from(
                toks,
                i,
            ).entries[k]).expr < (#[trigger] parse_from(toks, i).entries[l]).expr,
        parse_ok(parse_from(toks, i)) ==> forall|k: int|
            0 <= k < parse_from(toks, i).entries.len() ==> is_str_lit(
                toks[(#[trigger] parse_from(toks, i).entries[k]).expr as int],
            ),
    decreases toks.len() - i,
{
    let p = parse_from(toks, i);
    if i >= toks.len() {
    } else if i + 1 >= toks.len() {
        assert(p.entries[0] == arg_entry(toks[i], i));
    } else if toks[i + 1] is Comma {
        lemma_entries_faithful(toks, i + 2);
        let rest = parse_from(toks, i + 2);
        assert(p.entries[0] == arg_entry(toks[i], i));
        assert(forall|k: int|
            1 <= k < p.entries.len() ==> #[trigger] p.entries[k] == rest.entries[k - 1]);
        if parse_ok(p) {
            assert(arg_diags(toks[i]).len() == 0);
            assert(is_str_lit(toks[i]));
            assert(rest.diags.len() == 0);
        }
    } else {
        assert(p.entries[0] == arg_entry(toks[i], i));
        assert(!parse_ok(p));
    }
}

/// Whether a token is the separating comma.
fn is_comma(t: &Token) -> (r: bool)
    ensures
        r == (t@ is Comma),
{
    match t {
        Token::Comma { pos } => true,
        Token::StrLit { pos, value } => false,
        Token::Other { pos } => false,
    }
}

/// The source position a token carries.
fn token_position(t: &Token) -> (r: usize)
    ensures
        r == token_pos(t@),
{
    match t {
        Token::StrLit { pos, value } => *pos,
        Token::Other { pos } => *pos,
        Token::Comma { pos } => *pos,
    }
}

/// Parses the whole token sequence.  The result is exactly what the
/// grammar (`parse_from`) says: the same diagnostics in the same order,
/// and the entries if and only if nothing was reported.
pub fn parse_entries(tokens: &Vec<Token>) -> (r: ParseResult)
    ensures
        r.diagnostics@ == parse_from(tokens_view(tokens@), 0).diags,
        r.entries is Some <==> parse_ok(parse_from(tokens_view(tokens@), 0)),
        r.entries matches Some(es) ==> entries_view(es@) == parse_from(
            tokens_view(tokens@),
            0,
        ).entries,
{
    let ghost g = tokens_view(tokens@);
    let ghost p0 = parse_from(g, 0);
    proof {
        vstd::std_specs::vec::axiom_spec_len(tokens);
        assert(g.len() == tokens@.len());
    }
    let mut entries: Vec<Entry> = Vec::new();
    let mut diags: Vec<Diagnostic> = Vec::new();
    let mut error = false;
    let mut i: usize = 0;
    while i < tokens.len()
        invariant
            i <= tokens.len(),
            tokens@.len() <= usize::MAX,
            g == tokens_view(tokens@),
            g.len() == tokens@.len(),
            p0 == parse_from(g, 0),
            p0.entries == entries_view(entries@) + parse_from(g, i as int).entries,
            p0.diags == diags@ + parse_from(g, i as int).diags,
            p0.hard == parse_from(g, i as int).hard,
            error <==> diags@.len() > 0,
        decreases tokens.len() - i,
    {
        let ghost pi = parse_from(g, i as int);
        let ghost head_entries = entries@;
        let ghost head_diags = diags@;
        proof {
            assert(g[i as int] == tokens@[i as int]@);
        }
        let tok = &tokens[i];
        let entry: Entry = match tok {
            Token::StrLit { pos, value } => {
                let e = Entry { key: copy_bytes(value), expr: i };
                proof {
                    assert(e@ == arg_entry(g[i as int], i as int));
                    assert(diags@ =~= head_diags + arg_diags(g[i as int]));
                }
                e
            },
            Token::Other { pos } => {
                let d = Diagnostic { pos: *pos, kind: DiagKind::MalformedLiteral };
                diags.push(d);
                error = true;
                let e = Entry { key: Vec::new(), expr: i };
                proof {
                    assert(e@ == arg_entry(g[i as int], i as int));
                    assert(diags@ =~= head_diags + arg_diags(g[i as int]));
                }
                e
            },
            Token::Comma { pos } => {
                let d = Diagnostic { pos: *pos, kind: DiagKind::MalformedLiteral };
                diags.push(d);
                error = true;
                let e = Entry { key: Vec::new(), expr: i };
                proof {
                    assert(e@ == arg_entry(g[i as int], i as int));
                    assert(diags@ =~= head_diags + arg_diags(g[i as int]));
                }
                e
            },
        };
        entries.push(entry);
        proof {
            assert(entry@ == arg_entry(g[i as int], i as int));
            assert(diags@ == head_diags + arg_diags(g[i as int]));
            lemma_entries_view_push(head_entries, entry);
        }
        if i + 1 < tokens.len() {
            proof {
                assert(g[i + 1] == tokens@[i + 1]@);
            }
            if is_comma(&tokens[i + 1]) {
                proof {
                    let rest = parse_from(g, i + 2);
                    assert(pi.entries == seq![arg_entry(g[i as int], i as int)] + rest.entries);
                    assert(pi.diags == arg_diags(g[i as int]) + rest.diags);
                    assert(pi.hard == rest.hard);
                    assert(entries_view(entries@) =~= entries_view(head_entries).push(entry@));
                    assert(entries_view(head_entries) + pi.entries =~= entries_view(entries@)
                        + rest.entries);
                    assert(p0.entries == entries_view(entries@) + rest.entries);
                    assert(head_diags + pi.diags =~= diags@ + rest.diags);
                    assert(p0.diags == diags@ + rest.diags);
                }
                i = i + 2;
            } else {
                let sep_pos = token_position(&tokens[i + 1]);
                let ghost sepd = Diagnostic {
                    pos: token_pos(g[i + 1]),
                    kind: DiagKind::MalformedSeparator,
                };
                diags.push(Diagnostic { pos: sep_pos, kind: DiagKind::MalformedSeparator });
                proof {
                    assert(pi.diags == arg_diags(g[i as int]) + seq![sepd]);
                    assert(pi.hard);
                    assert(head_diags + pi.diags =~= (head_diags + arg_diags(g[i as int])).push(
                        sepd,
                    ));
                    assert(p0.diags =~= diags@);
                    assert(!parse_ok(p0));
                }
                return ParseResult { entries: None, diagnostics: diags };
            }
        } else {
            proof {
                assert(i + 1 >= g.len());
                assert(pi.entries == seq![arg_entry(g[i as int], i as int)]);
                assert(pi.diags == arg_diags(g[i as int]));
                assert(!pi.hard);
                assert(entries_view(entries@) =~= entries_view(head_entries).push(entry@));
                let done = parse_from(g, i + 1);
                assert(done.entries =~= Seq::<EntryV>::empty());
                assert(done.diags =~= Seq::<Diagnostic>::empty());
                assert(p0.entries =~= entries_view(entries@) + done.entries);
                assert(p0.diags =~= diags@ + done.diags);
            }
            i = i + 1;
        }
    }
    proof {
        assert(parse_from(g, i as int).entries =~= Seq::<EntryV>::empty());
        assert(parse_from(g, i as int).diags =~= Seq::<Diagnostic>::empty());
        assert(p0.entries =~= entries_view(entries@));
        assert(p0.diags =~= diags@);
        assert(!p0.hard);
    }
    if error {
        ParseResult { entries: None, diagnostics: diags }
    } else {
        ParseResult { entries: Some(entries), diagnostics: diags }
    }
}

} // verus!
