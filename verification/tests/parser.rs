use neon_compiler::ast::{DeclKind, Module, TestKind, TypeSpecKind};
use neon_compiler::lexer::{Span, Spanned, Token};
use neon_compiler::parser::{parse, Expected, ParseError, ParseErrorKind};

fn id(s: &str) -> Token {
    Token::Ident(s.to_string())
}

/// The tokens of `src`, each located at the next occurrence of its text.
fn tokens(src: &str, toks: Vec<(Token, &str)>) -> Vec<Spanned> {
    let mut pos = 0;
    let mut out = Vec::new();
    for (token, text) in toks {
        let at = pos + src[pos..].find(text).expect("the token's text is in the source");
        out.push(Spanned { token, span: Span { start: at, end: at + text.len() } });
        pos = at + text.len();
    }
    out
}

fn parse_src(src: &str, toks: Vec<(Token, &str)>) -> (Option<Module>, Vec<ParseError>) {
    let ts = tokens(src, toks);
    parse(&ts, src.len())
}

fn ok(src: &str, toks: Vec<(Token, &str)>) -> Module {
    let (m, errs) = parse_src(src, toks);
    assert!(errs.is_empty(), "unexpected errors: {errs:?}");
    m.expect("parses")
}

fn errs(src: &str, toks: Vec<(Token, &str)>) -> Vec<ParseError> {
    let (_, errs) = parse_src(src, toks);
    assert!(!errs.is_empty(), "expected errors, got none");
    errs
}

/// `fn <name>(<body>) {}` with the given tokens inside the parentheses.
fn empty_fn<'a>(name: &'a str, inner: Vec<(Token, &'a str)>) -> Vec<(Token, &'a str)> {
    let mut v = vec![(Token::Fn, "fn"), (id(name), name), (Token::LParen, "(")];
    v.extend(inner);
    v.extend(vec![(Token::RParen, ")"), (Token::LBrace, "{"), (Token::RBrace, "}")]);
    v
}

#[test]
fn the_vertical_slice() {
    let m = ok("fn main() {}", empty_fn("main", Vec::new()));
    assert_eq!(m.decls.len(), 1);
    match &m.decls[0].kind {
        DeclKind::Fn(f) => {
            assert_eq!(f.name, "main");
            assert!(f.params.is_empty());
            assert!(f.ret.is_none());
            assert!(f.throws.is_none());
        }
        other => panic!("expected a fn, got {other:?}"),
    }
}

#[test]
fn throws_comes_before_the_return_type() {
    let src = "fn get(i: i64) throws IndexError -> str {}";
    let m = ok(
        src,
        vec![
            (Token::Fn, "fn"),
            (id("get"), "get"),
            (Token::LParen, "("),
            (id("i"), "i"),
            (Token::Colon, ":"),
            (id("i64"), "i64"),
            (Token::RParen, ")"),
            (Token::Throws, "throws"),
            (id("IndexError"), "IndexError"),
            (Token::Arrow, "->"),
            (id("str"), "str"),
            (Token::LBrace, "{"),
            (Token::RBrace, "}"),
        ],
    );
    match &m.decls[0].kind {
        DeclKind::Fn(f) => {
            assert_eq!(f.params.len(), 1);
            assert_eq!(f.params[0].name, "i");
            assert!(f.throws.is_some(), "throws should parse");
            assert!(f.ret.is_some(), "return type should parse");
        }
        other => panic!("expected a fn, got {other:?}"),
    }
}

#[test]
fn generic_and_qualified_types() {
    let src = "fn f(a: List[i64], b: std::io::Reader, c: Map[str, List[i64]]) {}";
    let m = ok(
        src,
        empty_fn(
            "f",
            vec![
                (id("a"), "a"),
                (Token::Colon, ":"),
                (id("List"), "List"),
                (Token::LBracket, "["),
                (id("i64"), "i64"),
                (Token::RBracket, "]"),
                (Token::Comma, ","),
                (id("b"), "b"),
                (Token::Colon, ":"),
                (id("std"), "std"),
                (Token::ColonColon, "::"),
                (id("io"), "io"),
                (Token::ColonColon, "::"),
                (id("Reader"), "Reader"),
                (Token::Comma, ","),
                (id("c"), "c"),
                (Token::Colon, ":"),
                (id("Map"), "Map"),
                (Token::LBracket, "["),
                (id("str"), "str"),
                (Token::Comma, ","),
                (id("List"), "List"),
                (Token::LBracket, "["),
                (id("i64"), "i64"),
                (Token::RBracket, "]"),
                (Token::RBracket, "]"),
            ],
        ),
    );
    match &m.decls[0].kind {
        DeclKind::Fn(f) => {
            assert_eq!(f.params.len(), 3);
            match &f.params[1].ty.kind {
                TypeSpecKind::Named { path, .. } => assert_eq!(path, &["std", "io", "Reader"]),
                other => panic!("expected a path, got {other:?}"),
            }
        }
        other => panic!("expected a fn, got {other:?}"),
    }
}

#[test]
fn atom_and_null_and_any_are_types() {
    let src = "fn f(a: :ok, b: null, c: any) {}";
    let m = ok(
        src,
        empty_fn(
            "f",
            vec![
                (id("a"), "a"),
                (Token::Colon, ":"),
                (Token::Atom("ok".to_string()), ":ok"),
                (Token::Comma, ","),
                (id("b"), "b"),
                (Token::Colon, ":"),
                (Token::Null, "null"),
                (Token::Comma, ","),
                (id("c"), "c"),
                (Token::Colon, ":"),
                (id("any"), "any"),
            ],
        ),
    );
    match &m.decls[0].kind {
        DeclKind::Fn(f) => {
            assert_eq!(f.params[0].ty.kind, TypeSpecKind::Atom("ok".into()));
            assert_eq!(f.params[1].ty.kind, TypeSpecKind::Null);
            assert_eq!(f.params[2].ty.kind, TypeSpecKind::Any);
        }
        other => panic!("expected a fn, got {other:?}"),
    }
}

#[test]
fn test_and_bench_blocks() {
    let src = r#"test "adds two" {} bench "push 1k" {}"#;
    let m = ok(
        src,
        vec![
            (Token::Test, "test"),
            (Token::StrStart, "\""),
            (Token::StrText("adds two".to_string()), "adds two"),
            (Token::StrEnd, "\""),
            (Token::LBrace, "{"),
            (Token::RBrace, "}"),
            (Token::Bench, "bench"),
            (Token::StrStart, "\""),
            (Token::StrText("push 1k".to_string()), "push 1k"),
            (Token::StrEnd, "\""),
            (Token::LBrace, "{"),
            (Token::RBrace, "}"),
        ],
    );
    assert_eq!(m.decls.len(), 2);
    match &m.decls[0].kind {
        DeclKind::TestBlock(t) => {
            assert_eq!(t.kind, TestKind::Test);
            assert_eq!(t.name, "adds two");
        }
        other => panic!("expected a test, got {other:?}"),
    }
    match &m.decls[1].kind {
        DeclKind::TestBlock(t) => assert_eq!(t.kind, TestKind::Bench),
        other => panic!("expected a bench, got {other:?}"),
    }
}

#[test]
fn enum_gets_a_real_diagnostic() {
    // `enum` lexes as an ordinary identifier. Without a dedicated rule the user gets a
    // cascade about an unexpected identifier, which explains nothing.
    let e = errs(
        "enum Color { Red, Green }",
        vec![
            (id("enum"), "enum"),
            (id("Color"), "Color"),
            (Token::LBrace, "{"),
            (id("Red"), "Red"),
            (Token::Comma, ","),
            (id("Green"), "Green"),
            (Token::RBrace, "}"),
        ],
    );
    assert!(
        e.iter().any(|e| e.kind == ParseErrorKind::EnumDeclaration),
        "expected the enum diagnostic, got {e:?}"
    );
    let msg = e
        .iter()
        .find(|e| e.kind == ParseErrorKind::EnumDeclaration)
        .expect("the enum error")
        .message();
    assert!(msg.contains("record Red"), "should say what to do instead: {msg}");
}

/// `fn <name>( {}`: a parameter list left open.
fn broken<'a>(name: &'a str) -> Vec<(Token, &'a str)> {
    vec![(Token::Fn, "fn"), (id(name), name), (Token::LParen, "("), (Token::LBrace, "{"), (Token::RBrace, "}")]
}

#[test]
fn recovery_keeps_going_after_a_bad_decl() {
    // One broken declaration must not discard the rest of the file: a pass should report
    // every error it can find, not just the first.
    let mut toks = broken("broken");
    toks.extend(empty_fn("good", Vec::new()));
    toks.extend(empty_fn("also_good", Vec::new()));
    let (m, errs) = parse_src("fn broken( {} fn good() {} fn also_good() {}", toks);
    assert!(!errs.is_empty(), "the broken decl should error");
    let m = m.expect("recovery still yields a module");
    let names: Vec<_> = m
        .decls
        .iter()
        .filter_map(|d| match &d.kind {
            DeclKind::Fn(f) => Some(f.name.as_str()),
            _ => None,
        })
        .collect();
    assert!(
        names.contains(&"good") && names.contains(&"also_good"),
        "later decls should still parse, got {names:?}"
    );
}

#[test]
fn every_error_is_reported_not_just_the_first() {
    let mut toks = broken("a");
    toks.extend(broken("b"));
    toks.extend(empty_fn("c", Vec::new()));
    let e = errs("fn a( {} fn b( {} fn c() {}", toks);
    assert!(e.len() >= 2, "expected several errors, got {}: {e:?}", e.len());
}

#[test]
fn errors_are_concrete_and_carry_a_span() {
    let e = errs(
        "fn 123() {}",
        vec![
            (Token::Fn, "fn"),
            (Token::Int(123), "123"),
            (Token::LParen, "("),
            (Token::RParen, ")"),
            (Token::LBrace, "{"),
            (Token::RBrace, "}"),
        ],
    );
    match &e[0].kind {
        ParseErrorKind::Expected { expected, found } => {
            // The label replaces the raw token alternatives, rather than piling on them.
            assert!(
                expected.contains(&Expected::Label("an identifier")),
                "expected the label, got {expected:?}"
            );
            assert_eq!(found, &Some(Token::Int(123)));
        }
        other => panic!("expected an Expected error, got {other:?}"),
    }
    assert!(e[0].span.start < e[0].span.end, "span should cover the token");
}

#[test]
fn error_message_names_the_construct() {
    let e = errs(
        "fn f(x: ) {}",
        empty_fn("f", vec![(id("x"), "x"), (Token::Colon, ":")]),
    );
    let msg = e[0].message();
    assert!(msg.contains("a type"), "should name the construct: {msg}");
}

#[test]
fn empty_input_is_an_empty_module() {
    let m = ok("", Vec::new());
    assert!(m.decls.is_empty());
}

// ---- further cases ----

#[test]
fn the_error_reports_what_was_found_and_where() {
    let e = errs("fn f(x: ) {}", empty_fn("f", vec![(id("x"), "x"), (Token::Colon, ":")]));
    assert_eq!(e.len(), 1);
    assert_eq!(e[0].message(), "expected a type, found `)`");
    assert_eq!(e[0].span, Span { start: 8, end: 9 });
}

#[test]
fn a_failure_at_the_end_of_input_points_at_the_end() {
    let src = "fn f(";
    let (m, e) = parse_src(src, vec![(Token::Fn, "fn"), (id("f"), "f"), (Token::LParen, "(")]);
    assert_eq!(m.expect("a module").decls.len(), 1);
    assert_eq!(e.len(), 1);
    match &e[0].kind {
        ParseErrorKind::Expected { expected, found } => {
            assert_eq!(found, &None);
            assert!(expected.contains(&Expected::Label("an identifier")));
            assert!(expected.contains(&Expected::Token(Token::RParen)));
        }
        other => panic!("expected an Expected error, got {other:?}"),
    }
    assert_eq!(e[0].span, Span { start: 5, end: 5 });
    assert_eq!(e[0].message(), "expected an identifier or `)`, found end of input");
}

#[test]
fn an_unknown_token_expects_a_declaration() {
    let e = errs("123", vec![(Token::Int(123), "123")]);
    assert_eq!(e[0].message(), "expected `fn` or `test` or `bench`, found `123`");
}

#[test]
fn a_bad_throws_clause_is_reported_where_it_broke() {
    // The clause is dropped and the parser goes on, but the furthest failure wins.
    let src = "fn f() throws {}";
    let e = errs(
        src,
        vec![
            (Token::Fn, "fn"),
            (id("f"), "f"),
            (Token::LParen, "("),
            (Token::RParen, ")"),
            (Token::Throws, "throws"),
            (Token::LBrace, "{"),
            (Token::RBrace, "}"),
        ],
    );
    assert_eq!(e.len(), 1);
    assert!(e[0].message().contains("a type"), "{}", e[0].message());
}

#[test]
fn a_trailing_comma_is_allowed() {
    let src = "fn f(a: i64,) {}";
    let m = ok(src, empty_fn("f", vec![(id("a"), "a"), (Token::Colon, ":"), (id("i64"), "i64"), (Token::Comma, ",")]));
    match &m.decls[0].kind {
        DeclKind::Fn(f) => assert_eq!(f.params.len(), 1),
        other => panic!("expected a fn, got {other:?}"),
    }
}

#[test]
fn every_error_declaration_comes_with_one_error() {
    let mut toks = broken("a");
    toks.extend(empty_fn("b", Vec::new()));
    toks.extend(vec![(id("enum"), "enum"), (id("E"), "E"), (Token::LBrace, "{"), (Token::RBrace, "}")]);
    let (m, e) = parse_src("fn a( {} fn b() {} enum E {}", toks);
    let m = m.expect("a module");
    let error_decls = m.decls.iter().filter(|d| matches!(d.kind, DeclKind::Error)).count();
    assert_eq!(error_decls, 2);
    assert_eq!(e.len(), 2);
    assert_eq!(m.decls.len(), 3);
    assert_eq!(m.decls[0].span, Span { start: 0, end: 8 });
}

#[test]
fn decl_spans_cover_their_tokens() {
    let m = ok("fn main() {}", empty_fn("main", Vec::new()));
    assert_eq!(m.decls[0].span, Span { start: 0, end: 12 });
    match &m.decls[0].kind {
        DeclKind::Fn(f) => assert_eq!(f.body.span, Span { start: 10, end: 12 }),
        other => panic!("expected a fn, got {other:?}"),
    }
}
