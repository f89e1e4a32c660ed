//! The data the transform exchanges with the host toolchain: tokens in,
//! diagnostics and an array-literal node out, and the entries built in
//! between.

use vstd::prelude::*;

verus! {

/// One token of the argument list at a call site, as the host's lexer hands
/// it over: a quoted string literal (with the literal's value as bytes), any
/// other expression, or the separating comma.  `pos` is the token's source
/// position, so that a diagnostic can point at it.
pub enum Token {
    StrLit { pos: usize, value: Vec<u8> },
    Other { pos: usize },
    Comma { pos: usize },
}

/// Mathematical image of a `Token`: the literal's value as a byte sequence.
pub ghost enum TokenV {
    StrLit { pos: usize, value: Seq<u8> },
    Other { pos: usize },
    Comma { pos: usize },
}

impl View for Token {
    type V = TokenV;

    open spec fn view(&self) -> TokenV {
        match self {
            Token::StrLit { pos, value } => TokenV::StrLit { pos: *pos, value: value@ },
            Token::Other { pos } => TokenV::Other { pos: *pos },
            Token::Comma { pos } => TokenV::Comma { pos: *pos },
        }
    }
}

/// The source position a token carries.
pub open spec fn token_pos(t: TokenV) -> usize {
    match t {
        TokenV::StrLit { pos, value } => pos,
        TokenV::Other { pos } => pos,
        TokenV::Comma { pos } => pos,
    }
}

/// The views of a whole token sequence.
pub open spec fn tokens_view(s: Seq<Token>) -> Seq<TokenV> {
    s.map_values(|t: Token| t@)
}

/// One parsed argument: the literal's value, which serves as the sort key,
/// and the opaque handle of the argument's original expression - its index
/// in the token sequence.  The expression behind the handle is never
/// inspected, only placed into the rebuilt node.
pub struct Entry {
    pub key: Vec<u8>,
    pub expr: usize,
}

/// Mathematical image of an `Entry`.
#[verifier::ext_equal]
pub ghost struct EntryV {
    pub key: Seq<u8>,
    pub expr: usize,
}

impl View for Entry {
    type V = EntryV;

    open spec fn view(&self) -> EntryV {
        EntryV { key: self.key@, expr: self.expr }
    }
}

/// The views of a whole entry sequence.
pub open spec fn entries_view(s: Seq<Entry>) -> Seq<EntryV> {
    s.map_values(|e: Entry| e@)
}

/// The handles of an entry sequence, in order.
pub open spec fn exprs_of(s: Seq<EntryV>) -> Seq<usize> {
    s.map_values(|e: EntryV| e.expr)
}

pub proof fn lemma_entries_view_push(s: Seq<Entry>, e: Entry)
    ensures
        entries_view(s.push(e)) =~= entries_view(s).push(e@),
{
    let a = entries_view(s.push(e));
    let b = entries_view(s).push(e@);
    assert forall|i: int| 0 <= i < a.len() implies a[i] == b[i] by {
        if i < s.len() {
            assert(s.push(e)[i] == s[i]);
        } else {
            assert(s.push(e)[i] == e);
        }
    }
}

pub proof fn lemma_entries_view_remove(s: Seq<Entry>, k: int)
    requires
        0 <= k < s.len(),
    ensures
        entries_view(s.remove(k)) =~= entries_view(s).remove(k),
{
    s.remove_ensures(k);
    entries_view(s).remove_ensures(k);
    let a = entries_view(s.remove(k));
    let b = entries_view(s).remove(k);
    assert forall|i: int| 0 <= i < a.len() implies a[i] == b[i] by {
        if i < k {
            assert(s.remove(k)[i] == s[i]);
            assert(entries_view(s).remove(k)[i] == entries_view(s)[i]);
        } else {
            assert(s.remove(k)[i] == s[i + 1]);
            assert(entries_view(s).remove(k)[i] == entries_view(s)[i + 1]);
        }
    }
}

pub proof fn lemma_entries_view_subrange(s: Seq<Entry>, lo: int, hi: int)
    requires
        0 <= lo <= hi <= s.len(),
    ensures
        entries_view(s.subrange(lo, hi)) =~= entries_view(s).subrange(lo, hi),
{
    let a = entries_view(s.subrange(lo, hi));
    let b = entries_view(s).subrange(lo, hi);
    assert forall|i: int| 0 <= i < a.len() implies a[i] == b[i] by {
        assert(s.subrange(lo, hi)[i] == s[lo + i]);
    }
}

/// What a diagnostic complains about: an argument that is not a string
/// literal (soft - collected, parsing goes on to find more), or a missing
/// comma between two arguments (hard - parsing stops at once).
#[derive(Clone, Copy, PartialEq, Eq, Structural, Debug)]
pub enum DiagKind {
    MalformedLiteral,
    MalformedSeparator,
}

/// A (position, kind) pair for the host's reporting channel.
#[derive(Clone, Copy, PartialEq, Eq, Structural, Debug)]
pub struct Diagnostic {
    pub pos: usize,
    pub kind: DiagKind,
}

/// The synthesized array-literal node: the call-site position and the
/// handles of the element expressions in their new order.  It stands for
/// an immutable, fixed-size literal array, and is the only expression the
/// transform ever constructs.
pub struct ArrayLit {
    pub pos: usize,
    pub elems: Vec<usize>,
}

/// What one invocation returns to the host: the built node, or `None` when
/// the input was rejected, together with every diagnostic reported.
pub struct Expansion {
    pub node: Option<ArrayLit>,
    pub diagnostics: Vec<Diagnostic>,
}

} // verus!
