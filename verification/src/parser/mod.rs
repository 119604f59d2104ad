//! The parser: tokens to a syntax tree, reporting every broken declaration.

pub mod error;

pub use error::{Expected, ParseError, ParseErrorKind};

use crate::ast::{Block, Decl, DeclKind, FnDecl, Module, Param, TestBlock, TestKind, TypeSpec, TypeSpecKind};
use crate::lexer::{Span, Spanned, Token};
use vstd::prelude::*;

verus! {

// ---- the shape of what the parser builds ----

/// A type annotation, as plain values.
pub enum TyM {
    Named { path: Seq<Seq<char>>, args: Seq<TyM>, span: Span },
    Atom { name: Seq<char>, span: Span },
    Null { span: Span },
    Any { span: Span },
    Error { span: Span },
}

/// A type annotation's shape.
pub open spec fn ty_m(t: TypeSpec) -> TyM
    decreases t,
{
    match t.kind {
        TypeSpecKind::Named { path, args } => {
            proof {
                assert(decreases_to!(t => t.kind));
            }
            TyM::Named { path: path@.map_values(|s: String| s@), args: tys_m(args@), span: t.span }
        },
        TypeSpecKind::Atom(a) => TyM::Atom { name: a@, span: t.span },
        TypeSpecKind::Null => TyM::Null { span: t.span },
        TypeSpecKind::Any => TyM::Any { span: t.span },
        TypeSpecKind::Error => TyM::Error { span: t.span },
    }
}

/// The shapes of a run of type annotations.
pub open spec fn tys_m(ts: Seq<TypeSpec>) -> Seq<TyM>
    decreases ts,
{
    if ts.len() == 0 {
        Seq::empty()
    } else {
        tys_m(ts.drop_last()).push(ty_m(ts.last()))
    }
}

/// A parameter, as plain values.
pub struct ParamM {
    pub name: Seq<char>,
    pub ty: TyM,
    pub span: Span,
}

/// A block: how many statements, whether it has a tail expression, and its span.
pub struct BlockM {
    pub stmts: nat,
    pub tail: bool,
    pub span: Span,
}

/// A function declaration, as plain values.
pub struct FnM {
    pub name: Seq<char>,
    pub params: Seq<ParamM>,
    pub throws: Option<TyM>,
    pub ret: Option<TyM>,
    pub body: BlockM,
}

/// A `test` or `bench` block, as plain values.
pub struct TestM {
    pub kind: TestKind,
    pub name: Seq<char>,
    pub body: BlockM,
}

pub enum DeclKindM {
    Fn(FnM),
    Test(TestM),
    Error,
}

/// A declaration, as plain values.
pub struct DeclM {
    pub kind: DeclKindM,
    pub span: Span,
}

/// An error, as plain values.
pub enum ErrM {
    Expected { expected: Seq<Expected>, found: Option<Token>, span: Span },
    Enum { span: Span },
}

pub open spec fn param_m(p: Param) -> ParamM {
    ParamM { name: p.name@, ty: ty_m(p.ty), span: p.span }
}

pub open spec fn block_m(b: Block) -> BlockM {
    BlockM { stmts: b.stmts.len() as nat, tail: b.tail is Some, span: b.span }
}

pub open spec fn opt_ty_m(t: Option<TypeSpec>) -> Option<TyM> {
    match t {
        Some(t) => Some(ty_m(t)),
        None => None,
    }
}

pub open spec fn fn_m(f: FnDecl) -> FnM {
    FnM {
        name: f.name@,
        params: f.params@.map_values(|p: Param| param_m(p)),
        throws: opt_ty_m(f.throws),
        ret: opt_ty_m(f.ret),
        body: block_m(f.body),
    }
}

pub open spec fn test_m(t: TestBlock) -> TestM {
    TestM { kind: t.kind, name: t.name@, body: block_m(t.body) }
}

pub open spec fn decl_m(d: Decl) -> DeclM {
    DeclM {
        kind: match d.kind {
            DeclKind::Fn(f) => DeclKindM::Fn(fn_m(f)),
            DeclKind::TestBlock(t) => DeclKindM::Test(test_m(t)),
            DeclKind::Error => DeclKindM::Error,
        },
        span: d.span,
    }
}

pub open spec fn err_m(e: ParseError) -> ErrM {
    match e.kind {
        ParseErrorKind::Expected { expected, found } => ErrM::Expected { expected: expected@, found, span: e.span },
        ParseErrorKind::EnumDeclaration => ErrM::Enum { span: e.span },
    }
}

/// The name of an identifier, in what the parser expected.
pub const AN_IDENTIFIER: &'static str = "an identifier";

/// The name of a type annotation, in what the parser expected.
pub const A_TYPE: &'static str = "a type";

/// The name of a string literal, in what the parser expected.
pub const A_STRING: &'static str = "a string";

// ---- the grammar ----
//
// A failure is the position where parsing could not go on and what would have been
// accepted there. Of two failures the further one is reported; at one position, what
// each would have accepted is listed together. An optional part or a list that stops at
// a failed item remembers that failure, so a later failure nearer the start does not
// hide it.

/// The token at `i`, if any.
pub open spec fn tok(ts: Seq<Spanned>, i: int) -> Option<Token> {
    if 0 <= i < ts.len() {
        Some(ts[i].token)
    } else {
        None
    }
}

/// The span from the start of token `i` to the end of token `j - 1`.
pub open spec fn span_of(ts: Seq<Spanned>, i: int, j: int) -> Span {
    Span { start: ts[i].span.start, end: ts[j - 1].span.end }
}

pub open spec fn label(l: &'static str) -> Seq<Expected> {
    seq![Expected::Label(l)]
}

pub open spec fn want(t: Token) -> Seq<Expected> {
    seq![Expected::Token(t)]
}

/// The further of two failures; at one position, both expectations.
pub open spec fn merge(a: (int, Seq<Expected>), b: (int, Seq<Expected>)) -> (int, Seq<Expected>) {
    if a.0 > b.0 {
        a
    } else if b.0 > a.0 {
        b
    } else {
        (a.0, a.1 + b.1)
    }
}

/// A failure, together with one remembered from earlier.
pub open spec fn with_alt(alt: Option<(int, Seq<Expected>)>, f: (int, Seq<Expected>)) -> (int, Seq<Expected>) {
    match alt {
        Some(a) => merge(a, f),
        None => f,
    }
}

/// Two remembered failures, kept as one.
pub open spec fn join_alt(a: Option<(int, Seq<Expected>)>, b: Option<(int, Seq<Expected>)>) -> Option<(int, Seq<Expected>)> {
    match (a, b) {
        (Some(x), Some(y)) => Some(merge(x, y)),
        (Some(x), None) => Some(x),
        (None, y) => y,
    }
}

/// The rest of a `::`-separated path from `i`, after the segments `acc`. A `::` not
/// followed by an identifier is not part of the path.
pub open spec fn path_rest(ts: Seq<Spanned>, i: int, acc: Seq<Seq<char>>) -> (Seq<Seq<char>>, int, Option<(int, Seq<Expected>)>)
    decreases ts.len() - i,
{
    if tok(ts, i) matches Some(Token::ColonColon) {
        match tok(ts, i + 1) {
            Some(Token::Ident(s)) => path_rest(ts, i + 2, acc.push(s@)),
            _ => (acc, i, Some((i + 1, label(AN_IDENTIFIER)))),
        }
    } else {
        (acc, i, None)
    }
}

/// A type at `i`: `null`, `any`, an atom, or a path with optional `[...]` arguments.
pub open spec fn p_type(ts: Seq<Spanned>, i: int) -> Result<(TyM, int, Option<(int, Seq<Expected>)>), (int, Seq<Expected>)>
    decreases ts.len() - i, 0int,
{
    match tok(ts, i) {
        Some(Token::Null) => Ok((TyM::Null { span: ts[i].span }, i + 1, None)),
        Some(Token::Atom(a)) => Ok((TyM::Atom { name: a@, span: ts[i].span }, i + 1, None)),
        Some(Token::Ident(s)) => if s@ == "any"@ {
            Ok((TyM::Any { span: ts[i].span }, i + 1, None))
        } else {
            let (path, j, a1) = path_rest(ts, i + 1, seq![s@]);
            if tok(ts, j) matches Some(Token::LBracket) && i < j {
                let (args, k, a2) = p_types(ts, j + 1);
                if tok(ts, k) matches Some(Token::RBracket) {
                    Ok((TyM::Named { path, args, span: span_of(ts, i, k + 1) }, k + 1, join_alt(a1, a2)))
                } else {
                    Ok((
                        TyM::Named { path, args: Seq::empty(), span: span_of(ts, i, j) },
                        j,
                        join_alt(a1, Some(with_alt(a2, (k, want(Token::RBracket))))),
                    ))
                }
            } else {
                Ok((TyM::Named { path, args: Seq::empty(), span: span_of(ts, i, j) }, j, a1))
            }
        },
        _ => Err((i, label(A_TYPE))),
    }
}

/// Types separated by commas, a trailing comma allowed, from `i`.
pub open spec fn p_types(ts: Seq<Spanned>, i: int) -> (Seq<TyM>, int, Option<(int, Seq<Expected>)>)
    decreases ts.len() - i, 1int,
{
    match p_type(ts, i) {
        Err(f) => (Seq::empty(), i, Some(f)),
        Ok((t, j, a)) => if i < j <= ts.len() {
            let (rest, k, a2) = p_types_more(ts, j);
            (seq![t] + rest, k, join_alt(a, a2))
        } else {
            (seq![t], j, a)
        },
    }
}

/// The `, type` continuations of a type list, from `i`.
pub open spec fn p_types_more(ts: Seq<Spanned>, i: int) -> (Seq<TyM>, int, Option<(int, Seq<Expected>)>)
    decreases ts.len() - i, 1int,
{
    if tok(ts, i) matches Some(Token::Comma) {
        match p_type(ts, i + 1) {
            Err(f) => (Seq::empty(), i + 1, Some(f)),
            Ok((t, j, a)) => if i + 1 < j <= ts.len() {
                let (rest, k, a2) = p_types_more(ts, j);
                (seq![t] + rest, k, join_alt(a, a2))
            } else {
                (seq![t], j, a)
            },
        }
    } else {
        (Seq::empty(), i, None)
    }
}

/// A parameter at `i`: `name: type`.
pub open spec fn p_param(ts: Seq<Spanned>, i: int) -> Result<(ParamM, int, Option<(int, Seq<Expected>)>), (int, Seq<Expected>)> {
    match tok(ts, i) {
        Some(Token::Ident(name)) => if tok(ts, i + 1) matches Some(Token::Colon) {
            match p_type(ts, i + 2) {
                Ok((t, j, a)) => Ok((ParamM { name: name@, ty: t, span: span_of(ts, i, j) }, j, a)),
                Err(f) => Err(f),
            }
        } else {
            Err((i + 1, want(Token::Colon)))
        },
        _ => Err((i, label(AN_IDENTIFIER))),
    }
}

/// Parameters separated by commas, a trailing comma allowed, from `i`.
pub open spec fn p_params(ts: Seq<Spanned>, i: int) -> (Seq<ParamM>, int, Option<(int, Seq<Expected>)>) {
    match p_param(ts, i) {
        Err(f) => (Seq::empty(), i, Some(f)),
        Ok((p, j, a)) => if i < j <= ts.len() {
            let (rest, k, a2) = p_params_more(ts, j);
            (seq![p] + rest, k, join_alt(a, a2))
        } else {
            (seq![p], j, a)
        },
    }
}

/// The `, param` continuations of a parameter list, from `i`.
pub open spec fn p_params_more(ts: Seq<Spanned>, i: int) -> (Seq<ParamM>, int, Option<(int, Seq<Expected>)>)
    decreases ts.len() - i,
{
    if tok(ts, i) matches Some(Token::Comma) {
        match p_param(ts, i + 1) {
            Err(f) => (Seq::empty(), i + 1, Some(f)),
            Ok((p, j, a)) => if i + 1 < j <= ts.len() {
                let (rest, k, a2) = p_params_more(ts, j);
                (seq![p] + rest, k, join_alt(a, a2))
            } else {
                (seq![p], j, a)
            },
        }
    } else {
        (Seq::empty(), i, None)
    }
}

/// A block at `i`: for now only the empty block `{}`.
pub open spec fn p_block(ts: Seq<Spanned>, i: int) -> Result<(BlockM, int), (int, Seq<Expected>)> {
    if tok(ts, i) matches Some(Token::LBrace) {
        if tok(ts, i + 1) matches Some(Token::RBrace) {
            Ok((BlockM { stmts: 0, tail: false, span: span_of(ts, i, i + 2) }, i + 2))
        } else {
            Err((i + 1, want(Token::RBrace)))
        }
    } else {
        Err((i, want(Token::LBrace)))
    }
}

/// An optional clause at `i`: the keyword `throws` (or `->`) and a type. A clause whose
/// type does not parse is left out, and its failure remembered.
pub open spec fn p_clause(ts: Seq<Spanned>, i: int, throws: bool) -> (Option<TyM>, int, Option<(int, Seq<Expected>)>) {
    let opens = if throws {
        tok(ts, i) matches Some(Token::Throws)
    } else {
        tok(ts, i) matches Some(Token::Arrow)
    };
    if opens {
        match p_type(ts, i + 1) {
            Ok((t, j, a)) => (Some(t), j, a),
            Err(f) => (None, i, Some(f)),
        }
    } else {
        (None, i, None)
    }
}

/// A function declaration at `i`, whose first token is `fn`: the name, the parameters in
/// parentheses, `throws E` before `-> R`, and the body.
pub open spec fn p_fn(ts: Seq<Spanned>, i: int) -> Result<(FnM, int), (int, Seq<Expected>)> {
    match tok(ts, i + 1) {
        Some(Token::Ident(name)) => if tok(ts, i + 2) matches Some(Token::LParen) {
            let (params, j, a1) = p_params(ts, i + 3);
            if tok(ts, j) matches Some(Token::RParen) {
                let (throws, k, a2) = p_clause(ts, j + 1, true);
                let (ret, m, a3) = p_clause(ts, k, false);
                let alts = join_alt(join_alt(a1, a2), a3);
                match p_block(ts, m) {
                    Ok((body, e)) => Ok((FnM { name: name@, params, throws, ret, body }, e)),
                    Err(f) => Err(with_alt(alts, f)),
                }
            } else {
                Err(with_alt(a1, (j, want(Token::RParen))))
            }
        } else {
            Err((i + 2, want(Token::LParen)))
        },
        _ => Err((i + 1, label(AN_IDENTIFIER))),
    }
}

/// A `test` or `bench` block at `i`: the kind, a string with no interpolation, the body.
pub open spec fn p_test(ts: Seq<Spanned>, i: int, kind: TestKind) -> Result<(TestM, int), (int, Seq<Expected>)> {
    if tok(ts, i + 1) matches Some(Token::StrStart) {
        let (name, j) = match tok(ts, i + 2) {
            Some(Token::StrText(s)) => (s@, i + 3),
            _ => (Seq::<char>::empty(), i + 2),
        };
        if tok(ts, j) matches Some(Token::StrEnd) {
            match p_block(ts, j + 1) {
                Ok((body, e)) => Ok((TestM { kind, name, body }, e)),
                Err(f) => Err(f),
            }
        } else {
            Err((j, want(Token::StrEnd)))
        }
    } else {
        Err((i + 1, label(A_STRING)))
    }
}

/// Past a balanced run of braces from `j`, `depth` of them open.
pub open spec fn braces_end(ts: Seq<Spanned>, j: int, depth: nat) -> Result<int, (int, Seq<Expected>)>
    decreases ts.len() - j,
{
    match tok(ts, j) {
        None => Err((j, want(Token::RBrace))),
        Some(Token::LBrace) => braces_end(ts, j + 1, depth + 1),
        Some(Token::RBrace) => if depth == 0 {
            Ok(j + 1)
        } else {
            braces_end(ts, j + 1, (depth - 1) as nat)
        },
        Some(_) => braces_end(ts, j + 1, depth),
    }
}

/// An `enum` declaration at `i`, whose first token is the identifier `enum`: a name and a
/// braced body, swallowed whole.
pub open spec fn p_enum(ts: Seq<Spanned>, i: int) -> Result<int, (int, Seq<Expected>)> {
    match tok(ts, i + 1) {
        Some(Token::Ident(_)) => if tok(ts, i + 2) matches Some(Token::LBrace) {
            braces_end(ts, i + 3, 0)
        } else {
            Err((i + 2, want(Token::LBrace)))
        },
        _ => Err((i + 1, label(AN_IDENTIFIER))),
    }
}

/// A declaration at `i`, and whether it was an `enum` (which parses, to be reported).
/// The first token picks the kind; one that picks none fails there, expecting any.
pub open spec fn p_decl(ts: Seq<Spanned>, i: int) -> Result<(DeclM, int, bool), (int, Seq<Expected>)> {
    match tok(ts, i) {
        Some(Token::Fn) => match p_fn(ts, i) {
            Ok((f, j)) => Ok((DeclM { kind: DeclKindM::Fn(f), span: span_of(ts, i, j) }, j, false)),
            Err(e) => Err(e),
        },
        Some(Token::Test) => match p_test(ts, i, TestKind::Test) {
            Ok((t, j)) => Ok((DeclM { kind: DeclKindM::Test(t), span: span_of(ts, i, j) }, j, false)),
            Err(e) => Err(e),
        },
        Some(Token::Bench) => match p_test(ts, i, TestKind::Bench) {
            Ok((t, j)) => Ok((DeclM { kind: DeclKindM::Test(t), span: span_of(ts, i, j) }, j, false)),
            Err(e) => Err(e),
        },
        Some(Token::Ident(s)) => if s@ == "enum"@ {
            match p_enum(ts, i) {
                Ok(j) => Ok((DeclM { kind: DeclKindM::Error, span: span_of(ts, i, j) }, j, true)),
                Err(e) => Err(e),
            }
        } else {
            Err((i, decl_starts()))
        },
        _ => Err((i, decl_starts())),
    }
}

/// What can begin a declaration the parser knows.
pub open spec fn decl_starts() -> Seq<Expected> {
    seq![Expected::Token(Token::Fn), Expected::Token(Token::Test), Expected::Token(Token::Bench)]
}

/// Tokens that can begin a declaration; recovery resumes at one of these.
pub open spec fn is_decl_start(t: Token) -> bool {
    match t {
        Token::Fn | Token::Test | Token::Bench | Token::Record | Token::Type | Token::Mu | Token::Newtype
        | Token::Protocol | Token::Impl | Token::Use => true,
        _ => false,
    }
}

/// Where recovery from `j` stops: at the next token that can begin a declaration.
pub open spec fn recovery_end(ts: Seq<Spanned>, j: int) -> int
    decreases ts.len() - j,
{
    if 0 <= j < ts.len() && !is_decl_start(ts[j].token) {
        recovery_end(ts, j + 1)
    } else {
        j
    }
}

/// A failure, as the error reported: what was expected, what was found, and where.
pub open spec fn fail_err(ts: Seq<Spanned>, eoi: usize, f: (int, Seq<Expected>)) -> ErrM {
    ErrM::Expected {
        expected: f.1,
        found: tok(ts, f.0),
        span: if 0 <= f.0 < ts.len() {
            ts[f.0].span
        } else {
            Span { start: eoi, end: eoi }
        },
    }
}

/// The declarations from `i` to the end, and the errors met on the way. A declaration
/// that does not parse is swallowed up to the next token that can begin one, kept as an
/// error declaration, and its failure reported; parsing goes on after it.
pub open spec fn p_module(ts: Seq<Spanned>, eoi: usize, i: int) -> (Seq<DeclM>, Seq<ErrM>)
    decreases ts.len() - i,
{
    if !(0 <= i < ts.len()) {
        (Seq::empty(), Seq::empty())
    } else {
        match p_decl(ts, i) {
            Ok((d, j, is_enum)) => {
                let reported = if is_enum {
                    seq![ErrM::Enum { span: d.span }]
                } else {
                    Seq::empty()
                };
                if i < j <= ts.len() {
                    let (ds, es) = p_module(ts, eoi, j);
                    (seq![d] + ds, reported + es)
                } else {
                    (seq![d], reported)
                }
            },
            Err(f) => {
                let j = recovery_end(ts, i + 1);
                let d = DeclM { kind: DeclKindM::Error, span: span_of(ts, i, j) };
                if i < j <= ts.len() {
                    let (ds, es) = p_module(ts, eoi, j);
                    (seq![d] + ds, seq![fail_err(ts, eoi, f)] + es)
                } else {
                    (seq![d], seq![fail_err(ts, eoi, f)])
                }
            },
        }
    }
}

// ---- the parser itself ----

/// A failure: where, and what would have been accepted there.
struct Fail {
    at: usize,
    expected: Vec<Expected>,
}

spec fn fail_m(f: Fail) -> (int, Seq<Expected>) {
    (f.at as int, f.expected@)
}

spec fn alt_m(a: Option<Fail>) -> Option<(int, Seq<Expected>)> {
    match a {
        Some(f) => Some(fail_m(f)),
        None => None,
    }
}

pub open spec fn strs_m(v: Seq<String>) -> Seq<Seq<char>> {
    v.map_values(|s: String| s@)
}

pub open spec fn params_m(v: Seq<Param>) -> Seq<ParamM> {
    v.map_values(|p: Param| param_m(p))
}

pub open spec fn decls_m(v: Seq<Decl>) -> Seq<DeclM> {
    v.map_values(|d: Decl| decl_m(d))
}

pub open spec fn errs_m(v: Seq<ParseError>) -> Seq<ErrM> {
    v.map_values(|e: ParseError| err_m(e))
}

spec fn ty_res_m(r: Result<(TypeSpec, usize, Option<Fail>), Fail>) -> Result<(TyM, int, Option<(int, Seq<Expected>)>), (int, Seq<Expected>)> {
    match r {
        Ok((t, j, a)) => Ok((ty_m(t), j as int, alt_m(a))),
        Err(f) => Err(fail_m(f)),
    }
}

spec fn param_res_m(r: Result<(Param, usize, Option<Fail>), Fail>) -> Result<(ParamM, int, Option<(int, Seq<Expected>)>), (int, Seq<Expected>)> {
    match r {
        Ok((p, j, a)) => Ok((param_m(p), j as int, alt_m(a))),
        Err(f) => Err(fail_m(f)),
    }
}

/// Type shapes distribute over concatenation.
proof fn lemma_tys_m_add(a: Seq<TypeSpec>, b: Seq<TypeSpec>)
    ensures
        tys_m(a + b) == tys_m(a) + tys_m(b),
    decreases b.len(),
{
    if b.len() == 0 {
        assert(a + b =~= a);
    } else {
        lemma_tys_m_add(a, b.drop_last());
        assert((a + b).drop_last() =~= a + b.drop_last());
    }
}

proof fn lemma_tys_m_one(t: TypeSpec)
    ensures
        tys_m(seq![t]) == seq![ty_m(t)],
{
    assert(seq![t].drop_last() =~= Seq::<TypeSpec>::empty());
    assert(tys_m(Seq::<TypeSpec>::empty()) == Seq::<TyM>::empty());
    assert(seq![t].last() == t);
}

fn merge_fails(a: Fail, b: Fail) -> (r: Fail)
    ensures
        fail_m(r) == merge(fail_m(a), fail_m(b)),
{
    if a.at > b.at {
        a
    } else if b.at > a.at {
        b
    } else {
        let Fail { at, expected: mut e } = a;
        let Fail { expected: mut e2, .. } = b;
        e.append(&mut e2);
        Fail { at, expected: e }
    }
}

fn with_alt_fail(alt: Option<Fail>, f: Fail) -> (r: Fail)
    ensures
        fail_m(r) == with_alt(alt_m(alt), fail_m(f)),
{
    match alt {
        Some(a) => merge_fails(a, f),
        None => f,
    }
}

fn join_fails(a: Option<Fail>, b: Option<Fail>) -> (r: Option<Fail>)
    ensures
        alt_m(r) == join_alt(alt_m(a), alt_m(b)),
{
    match (a, b) {
        (Some(x), Some(y)) => Some(merge_fails(x, y)),
        (Some(x), None) => Some(x),
        (None, y) => y,
    }
}

fn expect_label(l: &'static str) -> (v: Vec<Expected>)
    ensures
        v@ == label(l),
{
    let v = vec![Expected::Label(l)];
    assert(v@ =~= label(l));
    v
}

fn expect_token(t: Token) -> (v: Vec<Expected>)
    ensures
        v@ == want(t),
{
    let v = vec![Expected::Token(t)];
    assert(v@ =~= want(t));
    v
}

/// The token at `i`, if any.
fn token_at(ts: &[Spanned], i: usize) -> (r: Option<&Token>)
    ensures
        match r {
            Some(t) => tok(ts@, i as int) == Some(*t),
            None => tok(ts@, i as int) is None,
        },
{
    if i < ts.len() {
        Some(&ts[i].token)
    } else {
        None
    }
}

fn span_from(ts: &[Spanned], i: usize, j: usize) -> (r: Span)
    requires
        i < j <= ts.len(),
    ensures
        r == span_of(ts@, i as int, j as int),
{
    Span { start: ts[i].span.start, end: ts[j - 1].span.end }
}

fn parse_path_rest(ts: &[Spanned], i: usize, acc: Vec<String>) -> (r: (Vec<String>, usize, Option<Fail>))
    requires
        i <= ts.len(),
    ensures
        (strs_m(r.0@), r.1 as int, alt_m(r.2)) == path_rest(ts@, i as int, strs_m(acc@)),
        i <= r.1 <= ts.len(),
{
    let ghost acc0 = strs_m(acc@);
    let ghost goal = path_rest(ts@, i as int, acc0);
    let mut pos = i;
    let mut segs = acc;
    loop
        invariant
            i <= pos <= ts.len(),
            goal == path_rest(ts@, i as int, acc0),
            acc0 == strs_m(acc@),
            path_rest(ts@, pos as int, strs_m(segs@)) == goal,
        decreases ts.len() - pos,
    {
        match token_at(ts, pos) {
            Some(Token::ColonColon) => match token_at(ts, pos + 1) {
                Some(Token::Ident(s)) => {
                    let ghost before = segs@;
                    segs.push(s.clone());
                    assert(strs_m(segs@) =~= strs_m(before).push(s@));
                    pos = pos + 2;
                },
                _ => {
                    return (segs, pos, Some(Fail { at: pos + 1, expected: expect_label(AN_IDENTIFIER) }));
                },
            },
            _ => {
                return (segs, pos, None);
            },
        }
    }
}

fn parse_type(ts: &[Spanned], i: usize) -> (r: Result<(TypeSpec, usize, Option<Fail>), Fail>)
    requires
        i <= ts.len(),
    ensures
        ty_res_m(r) == p_type(ts@, i as int),
        r matches Ok((_, j, _)) ==> i < j <= ts.len(),
    decreases ts.len() - i, 0int,
{
    match token_at(ts, i) {
        Some(Token::Null) => Ok((TypeSpec { kind: TypeSpecKind::Null, span: ts[i].span }, i + 1, None)),
        Some(Token::Atom(a)) => Ok((TypeSpec { kind: TypeSpecKind::Atom(a.clone()), span: ts[i].span }, i + 1, None)),
        Some(Token::Ident(s)) => {
            let any_word = String::from_str("any");
            if s.eq(&any_word) {
                Ok((TypeSpec { kind: TypeSpecKind::Any, span: ts[i].span }, i + 1, None))
            } else {
                let first = vec![s.clone()];
                assert(strs_m(first@) =~= seq![s@]);
                let (path, j, a1) = parse_path_rest(ts, i + 1, first);
                match token_at(ts, j) {
                    Some(Token::LBracket) => {
                        let (args, k, a2) = parse_types(ts, j + 1);
                        match token_at(ts, k) {
                            Some(Token::RBracket) => {
                                let span = span_from(ts, i, k + 1);
                                let alt = join_fails(a1, a2);
                                Ok((TypeSpec { kind: TypeSpecKind::Named { path, args }, span }, k + 1, alt))
                            },
                            _ => {
                                let span = span_from(ts, i, j);
                                let f = with_alt_fail(a2, Fail { at: k, expected: expect_token(Token::RBracket) });
                                let alt = join_fails(a1, Some(f));
                                let none: Vec<TypeSpec> = Vec::new();
                                assert(tys_m(none@) =~= Seq::<TyM>::empty());
                                Ok((TypeSpec { kind: TypeSpecKind::Named { path, args: none }, span }, j, alt))
                            },
                        }
                    },
                    _ => {
                        let span = span_from(ts, i, j);
                        let none: Vec<TypeSpec> = Vec::new();
                        assert(tys_m(none@) =~= Seq::<TyM>::empty());
                        Ok((TypeSpec { kind: TypeSpecKind::Named { path, args: none }, span }, j, a1))
                    },
                }
            }
        },
        _ => Err(Fail { at: i, expected: expect_label(A_TYPE) }),
    }
}

fn parse_types(ts: &[Spanned], i: usize) -> (r: (Vec<TypeSpec>, usize, Option<Fail>))
    requires
        i <= ts.len(),
    ensures
        (tys_m(r.0@), r.1 as int, alt_m(r.2)) == p_types(ts@, i as int),
        i <= r.1 <= ts.len(),
    decreases ts.len() - i, 1int,
{
    match parse_type(ts, i) {
        Err(f) => {
            let none: Vec<TypeSpec> = Vec::new();
            assert(tys_m(none@) =~= Seq::<TyM>::empty());
            (none, i, Some(f))
        },
        Ok((t, j, a)) => {
            let (mut rest, k, a2) = parse_types_more(ts, j);
            let ghost tv = t;
            let ghost rv = rest@;
            let mut v = vec![t];
            v.append(&mut rest);
            proof {
                lemma_tys_m_add(seq![tv], rv);
                lemma_tys_m_one(tv);
                assert(v@ =~= seq![tv] + rv);
            }
            (v, k, join_fails(a, a2))
        },
    }
}

fn parse_types_more(ts: &[Spanned], i: usize) -> (r: (Vec<TypeSpec>, usize, Option<Fail>))
    requires
        i <= ts.len(),
    ensures
        (tys_m(r.0@), r.1 as int, alt_m(r.2)) == p_types_more(ts@, i as int),
        i <= r.1 <= ts.len(),
    decreases ts.len() - i, 1int,
{
    match token_at(ts, i) {
        Some(Token::Comma) => match parse_type(ts, i + 1) {
            Err(f) => {
                let none: Vec<TypeSpec> = Vec::new();
                assert(tys_m(none@) =~= Seq::<TyM>::empty());
                (none, i + 1, Some(f))
            },
            Ok((t, j, a)) => {
                let (mut rest, k, a2) = parse_types_more(ts, j);
                let ghost tv = t;
                let ghost rv = rest@;
                let mut v = vec![t];
                v.append(&mut rest);
                proof {
                    lemma_tys_m_add(seq![tv], rv);
                    lemma_tys_m_one(tv);
                    assert(v@ =~= seq![tv] + rv);
                }
                (v, k, join_fails(a, a2))
            },
        },
        _ => {
            let none: Vec<TypeSpec> = Vec::new();
            assert(tys_m(none@) =~= Seq::<TyM>::empty());
            (none, i, None)
        },
    }
}

fn parse_param(ts: &[Spanned], i: usize) -> (r: Result<(Param, usize, Option<Fail>), Fail>)
    requires
        i <= ts.len(),
    ensures
        param_res_m(r) == p_param(ts@, i as int),
        r matches Ok((_, j, _)) ==> i < j <= ts.len(),
{
    match token_at(ts, i) {
        Some(Token::Ident(name)) => match token_at(ts, i + 1) {
            Some(Token::Colon) => match parse_type(ts, i + 2) {
                Ok((ty, j, a)) => {
                    let span = span_from(ts, i, j);
                    Ok((Param { name: name.clone(), ty, span }, j, a))
                },
                Err(f) => Err(f),
            },
            _ => Err(Fail { at: i + 1, expected: expect_token(Token::Colon) }),
        },
        _ => Err(Fail { at: i, expected: expect_label(AN_IDENTIFIER) }),
    }
}

fn parse_params(ts: &[Spanned], i: usize) -> (r: (Vec<Param>, usize, Option<Fail>))
    requires
        i <= ts.len(),
    ensures
        (params_m(r.0@), r.1 as int, alt_m(r.2)) == p_params(ts@, i as int),
        i <= r.1 <= ts.len(),
{
    match parse_param(ts, i) {
        Err(f) => {
            let none: Vec<Param> = Vec::new();
            assert(params_m(none@) =~= Seq::<ParamM>::empty());
            (none, i, Some(f))
        },
        Ok((p, j, a)) => {
            let (mut rest, k, a2) = parse_params_more(ts, j);
            let ghost pv = p;
            let ghost rv = rest@;
            let mut v = vec![p];
            v.append(&mut rest);
            assert(params_m(v@) =~= seq![param_m(pv)] + params_m(rv));
            (v, k, join_fails(a, a2))
        },
    }
}

fn parse_params_more(ts: &[Spanned], i: usize) -> (r: (Vec<Param>, usize, Option<Fail>))
    requires
        i <= ts.len(),
    ensures
        (params_m(r.0@), r.1 as int, alt_m(r.2)) == p_params_more(ts@, i as int),
        i <= r.1 <= ts.len(),
    decreases ts.len() - i,
{
    match token_at(ts, i) {
        Some(Token::Comma) => match parse_param(ts, i + 1) {
            Err(f) => {
                let none: Vec<Param> = Vec::new();
                assert(params_m(none@) =~= Seq::<ParamM>::empty());
                (none, i + 1, Some(f))
            },
            Ok((p, j, a)) => {
                let (mut rest, k, a2) = parse_params_more(ts, j);
                let ghost pv = p;
                let ghost rv = rest@;
                let mut v = vec![p];
                v.append(&mut rest);
                assert(params_m(v@) =~= seq![param_m(pv)] + params_m(rv));
                (v, k, join_fails(a, a2))
            },
        },
        _ => {
            let none: Vec<Param> = Vec::new();
            assert(params_m(none@) =~= Seq::<ParamM>::empty());
            (none, i, None)
        },
    }
}

fn parse_block(ts: &[Spanned], i: usize) -> (r: Result<(Block, usize), Fail>)
    requires
        i <= ts.len(),
    ensures
        match r {
            Ok((b, j)) => p_block(ts@, i as int) == Ok::<(BlockM, int), (int, Seq<Expected>)>((block_m(b), j as int)),
            Err(f) => p_block(ts@, i as int) == Err::<(BlockM, int), (int, Seq<Expected>)>(fail_m(f)),
        },
        r matches Ok((b, j)) ==> i < j <= ts.len() && b.stmts@.len() == 0 && b.tail is None,
{
    match token_at(ts, i) {
        Some(Token::LBrace) => match token_at(ts, i + 1) {
            Some(Token::RBrace) => {
                let span = span_from(ts, i, i + 2);
                Ok((Block { stmts: Vec::new(), tail: None, span }, i + 2))
            },
            _ => Err(Fail { at: i + 1, expected: expect_token(Token::RBrace) }),
        },
        _ => Err(Fail { at: i, expected: expect_token(Token::LBrace) }),
    }
}

fn parse_clause(ts: &[Spanned], i: usize, throws: bool) -> (r: (Option<TypeSpec>, usize, Option<Fail>))
    requires
        i <= ts.len(),
    ensures
        (opt_ty_m(r.0), r.1 as int, alt_m(r.2)) == p_clause(ts@, i as int, throws),
        i <= r.1 <= ts.len(),
{
    let opens = match token_at(ts, i) {
        Some(Token::Throws) => throws,
        Some(Token::Arrow) => !throws,
        _ => false,
    };
    if opens {
        match parse_type(ts, i + 1) {
            Ok((t, j, a)) => (Some(t), j, a),
            Err(f) => (None, i, Some(f)),
        }
    } else {
        (None, i, None)
    }
}

fn parse_fn(ts: &[Spanned], i: usize) -> (r: Result<(FnDecl, usize), Fail>)
    requires
        i < ts.len(),
    ensures
        match r {
            Ok((f, j)) => p_fn(ts@, i as int) == Ok::<(FnM, int), (int, Seq<Expected>)>((fn_m(f), j as int)),
            Err(f) => p_fn(ts@, i as int) == Err::<(FnM, int), (int, Seq<Expected>)>(fail_m(f)),
        },
        r matches Ok((_, j)) ==> i < j <= ts.len(),
{
    match token_at(ts, i + 1) {
        Some(Token::Ident(name)) => match token_at(ts, i + 2) {
            Some(Token::LParen) => {
                let (params, j, a1) = parse_params(ts, i + 3);
                match token_at(ts, j) {
                    Some(Token::RParen) => {
                        let (throws, k, a2) = parse_clause(ts, j + 1, true);
                        let (ret, m, a3) = parse_clause(ts, k, false);
                        let alts = join_fails(join_fails(a1, a2), a3);
                        match parse_block(ts, m) {
                            Ok((body, e)) => {
                                let f = FnDecl { name: name.clone(), params, throws, ret, body };
                                Ok((f, e))
                            },
                            Err(f) => Err(with_alt_fail(alts, f)),
                        }
                    },
                    _ => Err(with_alt_fail(a1, Fail { at: j, expected: expect_token(Token::RParen) })),
                }
            },
            _ => Err(Fail { at: i + 2, expected: expect_token(Token::LParen) }),
        },
        _ => Err(Fail { at: i + 1, expected: expect_label(AN_IDENTIFIER) }),
    }
}

fn parse_test(ts: &[Spanned], i: usize, kind: TestKind) -> (r: Result<(TestBlock, usize), Fail>)
    requires
        i < ts.len(),
    ensures
        match r {
            Ok((t, j)) => p_test(ts@, i as int, kind) == Ok::<(TestM, int), (int, Seq<Expected>)>((test_m(t), j as int)),
            Err(f) => p_test(ts@, i as int, kind) == Err::<(TestM, int), (int, Seq<Expected>)>(fail_m(f)),
        },
        r matches Ok((_, j)) ==> i < j <= ts.len(),
{
    match token_at(ts, i + 1) {
        Some(Token::StrStart) => {
            let (name, j) = match token_at(ts, i + 2) {
                Some(Token::StrText(s)) => (s.clone(), i + 3),
                _ => (String::new(), i + 2),
            };
            match token_at(ts, j) {
                Some(Token::StrEnd) => match parse_block(ts, j + 1) {
                    Ok((body, e)) => Ok((TestBlock { kind, name, body }, e)),
                    Err(f) => Err(f),
                },
                _ => Err(Fail { at: j, expected: expect_token(Token::StrEnd) }),
            }
        },
        _ => Err(Fail { at: i + 1, expected: expect_label(A_STRING) }),
    }
}

/// Past a balanced run of braces from `j`, with `depth` of them open.
fn parse_braces_end(ts: &[Spanned], j: usize) -> (r: Result<usize, Fail>)
    requires
        j <= ts.len(),
    ensures
        match r {
            Ok(e) => braces_end(ts@, j as int, 0) == Ok::<int, (int, Seq<Expected>)>(e as int),
            Err(f) => braces_end(ts@, j as int, 0) == Err::<int, (int, Seq<Expected>)>(fail_m(f)),
        },
        r matches Ok(e) ==> j < e <= ts.len(),
{
    let ghost goal = braces_end(ts@, j as int, 0);
    let mut pos = j;
    let mut depth: usize = 0;
    loop
        invariant
            j <= pos <= ts.len(),
            depth <= pos,
            goal == braces_end(ts@, j as int, 0),
            braces_end(ts@, pos as int, depth as nat) == goal,
        decreases ts.len() - pos,
    {
        match token_at(ts, pos) {
            None => {
                return Err(Fail { at: pos, expected: expect_token(Token::RBrace) });
            },
            Some(Token::LBrace) => {
                depth = depth + 1;
                pos = pos + 1;
            },
            Some(Token::RBrace) => {
                if depth == 0 {
                    return Ok(pos + 1);
                }
                depth = depth - 1;
                pos = pos + 1;
            },
            Some(_) => {
                pos = pos + 1;
            },
        }
    }
}

fn parse_enum(ts: &[Spanned], i: usize) -> (r: Result<usize, Fail>)
    requires
        i < ts.len(),
    ensures
        match r {
            Ok(e) => p_enum(ts@, i as int) == Ok::<int, (int, Seq<Expected>)>(e as int),
            Err(f) => p_enum(ts@, i as int) == Err::<int, (int, Seq<Expected>)>(fail_m(f)),
        },
        r matches Ok(e) ==> i < e <= ts.len(),
{
    match token_at(ts, i + 1) {
        Some(Token::Ident(_)) => match token_at(ts, i + 2) {
            Some(Token::LBrace) => parse_braces_end(ts, i + 3),
            _ => Err(Fail { at: i + 2, expected: expect_token(Token::LBrace) }),
        },
        _ => Err(Fail { at: i + 1, expected: expect_label(AN_IDENTIFIER) }),
    }
}

fn decl_starts_vec() -> (v: Vec<Expected>)
    ensures
        v@ == decl_starts(),
{
    let v = vec![Expected::Token(Token::Fn), Expected::Token(Token::Test), Expected::Token(Token::Bench)];
    assert(v@ =~= decl_starts());
    v
}

fn parse_decl(ts: &[Spanned], i: usize) -> (r: Result<(Decl, usize, bool), Fail>)
    requires
        i < ts.len(),
    ensures
        match r {
            Ok((d, j, e)) => p_decl(ts@, i as int) == Ok::<(DeclM, int, bool), (int, Seq<Expected>)>((decl_m(d), j as int, e)),
            Err(f) => p_decl(ts@, i as int) == Err::<(DeclM, int, bool), (int, Seq<Expected>)>(fail_m(f)),
        },
        r matches Ok((_, j, _)) ==> i < j <= ts.len(),
{
    match token_at(ts, i) {
        Some(Token::Fn) => match parse_fn(ts, i) {
            Ok((f, j)) => {
                let span = span_from(ts, i, j);
                Ok((Decl { kind: DeclKind::Fn(f), span }, j, false))
            },
            Err(e) => Err(e),
        },
        Some(Token::Test) => match parse_test(ts, i, TestKind::Test) {
            Ok((t, j)) => {
                let span = span_from(ts, i, j);
                Ok((Decl { kind: DeclKind::TestBlock(t), span }, j, false))
            },
            Err(e) => Err(e),
        },
        Some(Token::Bench) => match parse_test(ts, i, TestKind::Bench) {
            Ok((t, j)) => {
                let span = span_from(ts, i, j);
                Ok((Decl { kind: DeclKind::TestBlock(t), span }, j, false))
            },
            Err(e) => Err(e),
        },
        Some(Token::Ident(s)) => {
            let enum_word = String::from_str("enum");
            if s.eq(&enum_word) {
                match parse_enum(ts, i) {
                    Ok(j) => {
                        let span = span_from(ts, i, j);
                        Ok((Decl { kind: DeclKind::Error, span }, j, true))
                    },
                    Err(e) => Err(e),
                }
            } else {
                Err(Fail { at: i, expected: decl_starts_vec() })
            }
        },
        _ => Err(Fail { at: i, expected: decl_starts_vec() }),
    }
}

/// Where recovery from `j` stops: at the next token that can begin a declaration.
fn skip_to_decl_start(ts: &[Spanned], j: usize) -> (e: usize)
    requires
        j <= ts.len(),
    ensures
        e as int == recovery_end(ts@, j as int),
        j <= e <= ts.len(),
{
    let mut pos = j;
    while pos < ts.len()
        invariant
            j <= pos <= ts.len(),
            recovery_end(ts@, pos as int) == recovery_end(ts@, j as int),
        decreases ts.len() - pos,
    {
        let starts = match &ts[pos].token {
            Token::Fn | Token::Test | Token::Bench | Token::Record | Token::Type | Token::Mu | Token::Newtype
            | Token::Protocol | Token::Impl | Token::Use => true,
            _ => false,
        };
        if starts {
            return pos;
        }
        pos = pos + 1;
    }
    pos
}

/// Parse a token stream into a module, with every error met on the way.
///
/// A declaration that does not parse is swallowed up to the next token that can begin
/// one, and parsing resumes there: one broken declaration does not discard the rest of
/// the file, and every error in it is reported in one pass. `eoi` is the offset of the
/// end of the input, where a failure at the end is placed.
pub fn parse(tokens: &[Spanned], eoi: usize) -> (r: (Option<Module>, Vec<ParseError>))
    ensures
        r.0 is Some,
        decls_m(r.0.unwrap().decls@) == p_module(tokens@, eoi, 0).0,
        errs_m(r.1@) == p_module(tokens@, eoi, 0).1,
{
    let ts = tokens;
    let ghost goal = p_module(ts@, eoi, 0);
    let mut decls: Vec<Decl> = Vec::new();
    let mut errors: Vec<ParseError> = Vec::new();
    let mut i: usize = 0;
    while i < ts.len()
        invariant
            i <= ts.len(),
            goal == p_module(ts@, eoi, 0),
            decls_m(decls@) + p_module(ts@, eoi, i as int).0 == goal.0,
            errs_m(errors@) + p_module(ts@, eoi, i as int).1 == goal.1,
        decreases ts.len() - i,
    {
        let ghost ds0 = decls@;
        let ghost es0 = errors@;
        match parse_decl(ts, i) {
            Ok((d, j, is_enum)) => {
                let span = d.span;
                decls.push(d);
                if is_enum {
                    errors.push(ParseError::new(span, ParseErrorKind::EnumDeclaration));
                }
                proof {
                    let rest = p_module(ts@, eoi, j as int);
                    assert(decls_m(decls@) =~= decls_m(ds0).push(decl_m(decls@.last())));
                    assert(decls_m(decls@) + rest.0 =~= decls_m(ds0) + p_module(ts@, eoi, i as int).0);
                    assert(errs_m(errors@) + rest.1 =~= errs_m(es0) + p_module(ts@, eoi, i as int).1);
                }
                i = j;
            },
            Err(f) => {
                let j = skip_to_decl_start(ts, i + 1);
                let span = span_from(ts, i, j);
                decls.push(Decl { kind: DeclKind::Error, span });
                let Fail { at, expected } = f;
                let (found, espan) = if at < ts.len() {
                    (Some(ts[at].token.copy()), ts[at].span)
                } else {
                    (None, Span { start: eoi, end: eoi })
                };
                errors.push(ParseError::new(espan, ParseErrorKind::Expected { expected, found }));
                proof {
                    let rest = p_module(ts@, eoi, j as int);
                    assert(decls_m(decls@) + rest.0 =~= decls_m(ds0) + p_module(ts@, eoi, i as int).0);
                    assert(errs_m(errors@) + rest.1 =~= errs_m(es0) + p_module(ts@, eoi, i as int).1);
                }
                i = j;
            },
        }
    }
    assert(decls_m(decls@) =~= goal.0);
    assert(errs_m(errors@) =~= goal.1);
    (Some(Module { decls }), errors)
}

// ---- what the parser promises of every input ----

/// How many of `ds` are error declarations.
pub open spec fn error_decls(ds: Seq<DeclM>) -> nat
    decreases ds.len(),
{
    if ds.len() == 0 {
        0
    } else {
        error_decls(ds.drop_first()) + if ds[0].kind is Error {
            1nat
        } else {
            0nat
        }
    }
}

proof fn lemma_error_decls_cons(d: DeclM, ds: Seq<DeclM>)
    ensures
        error_decls(seq![d] + ds) == error_decls(ds) + if d.kind is Error {
            1nat
        } else {
            0nat
        },
{
    assert((seq![d] + ds).drop_first() =~= ds);
}

/// Every declaration that did not parse is reported, and every report stands for one: the
/// errors are exactly as many as the error declarations. So a module comes back with no
/// errors exactly when every declaration in it parsed.
pub proof fn lemma_one_error_per_error_decl(ts: Seq<Spanned>, eoi: usize, i: int)
    ensures
        error_decls(p_module(ts, eoi, i).0) == p_module(ts, eoi, i).1.len(),
    decreases ts.len() - i,
{
    if 0 <= i < ts.len() {
        match p_decl(ts, i) {
            Ok((d, j, is_enum)) => {
                assert(d.kind is Error <==> is_enum);
                if i < j <= ts.len() {
                    lemma_one_error_per_error_decl(ts, eoi, j);
                    lemma_error_decls_cons(d, p_module(ts, eoi, j).0);
                } else {
                    lemma_error_decls_cons(d, Seq::empty());
                    assert(error_decls(Seq::<DeclM>::empty()) == 0);
                }
            },
            Err(f) => {
                let j = recovery_end(ts, i + 1);
                let d = DeclM { kind: DeclKindM::Error, span: span_of(ts, i, j) };
                if i < j <= ts.len() {
                    lemma_one_error_per_error_decl(ts, eoi, j);
                    lemma_error_decls_cons(d, p_module(ts, eoi, j).0);
                } else {
                    lemma_error_decls_cons(d, Seq::empty());
                    assert(error_decls(Seq::<DeclM>::empty()) == 0);
                }
            },
        }
    }
}

/// Recovery always moves past the token where a declaration failed.
pub proof fn lemma_recovery_progress(ts: Seq<Spanned>, j: int)
    requires
        0 <= j <= ts.len(),
    ensures
        j <= recovery_end(ts, j) <= ts.len(),
    decreases ts.len() - j,
{
    if 0 <= j < ts.len() && !is_decl_start(ts[j].token) {
        lemma_recovery_progress(ts, j + 1);
    }
}

} // verus!
