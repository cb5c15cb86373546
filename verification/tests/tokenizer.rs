use toktree::lexer::{lex, lexer, Diag, MAX_DEPTH};
use toktree::num::{readint, Num};
use toktree::tables::{Delim, Kw, Sym};
use toktree::token::{render_tokens, Tk};

fn ident(s: &str) -> Tk {
    Tk::Ident(String::from(s))
}

fn depth(t: &Tk) -> usize {
    match t {
        Tk::Delim(_, ts) => 1 + ts.iter().map(depth).max().unwrap_or(0),
        _ => 0,
    }
}

#[test]
fn single_bracket_example() {
    let got = lex("fn (a, b)").unwrap();
    let expected = vec![
        Tk::Kw(Kw::Fn),
        Tk::Delim(Delim::Paren, vec![ident("a"), Tk::Sym(Sym::Comma), ident("b")]),
    ];
    assert_eq!(got, expected);
}

#[test]
fn unclosed_delimiter_example() {
    let (diags, tree) = lex("(a").unwrap_err();
    assert_eq!(diags.len(), 1);
    match &diags[0] {
        Diag::UnclosedDelimiter { opening, expected_closer, span } => {
            assert_eq!(*opening, '(');
            assert_eq!(*expected_closer, ')');
            assert_eq!(span.start, 0);
            assert_eq!(span.end, 1);
        }
        other => panic!("wrong diagnostic: {:?}", other),
    }
    let tree = tree.unwrap();
    assert!(!tree.is_empty());
    assert_eq!(tree, vec![Tk::Error]);
}

#[test]
fn numeric_width_boundary_fits() {
    assert_eq!(lex("127:8").unwrap(), vec![Tk::Num(Num::I8(127))]);
}

#[test]
fn numeric_width_boundary_overflows() {
    let (diags, tree) = lex("128:8").unwrap_err();
    assert_eq!(diags.len(), 1);
    match &diags[0] {
        Diag::InvalidNumber { text, radix, width, .. } => {
            assert_eq!(text.as_str(), "128");
            assert_eq!(*radix, 10);
            assert_eq!(*width, 8);
        }
        other => panic!("wrong diagnostic: {:?}", other),
    }
    assert_eq!(tree.unwrap(), vec![Tk::Error]);
}

#[test]
fn numeric_default_width() {
    assert_eq!(lex("10").unwrap(), vec![Tk::Num(Num::I32(10))]);
}

#[test]
fn numeric_hex_default_width() {
    assert_eq!(lex("\\x1f").unwrap(), vec![Tk::Num(Num::I32(31))]);
}

#[test]
fn numeric_binary_explicit_width() {
    assert_eq!(lex("\\b101:16").unwrap(), vec![Tk::Num(Num::I16(5))]);
}

#[test]
fn numeric_octal_and_decimal_prefix() {
    assert_eq!(lex("\\o17").unwrap(), vec![Tk::Num(Num::I32(15))]);
    assert_eq!(lex("\\d42:64").unwrap(), vec![Tk::Num(Num::I64(42))]);
}

#[test]
fn fail_soft_aggregation() {
    let (diags, tree) = lex("128:8 ]").unwrap_err();
    assert_eq!(diags.len(), 2);
    assert!(matches!(diags[0], Diag::InvalidNumber { .. }));
    match &diags[1] {
        Diag::UnexpectedInput { found, .. } => assert_eq!(*found, Some(']')),
        other => panic!("wrong diagnostic: {:?}", other),
    }
    assert_eq!(tree.unwrap(), vec![Tk::Error, Tk::Error]);
}

#[test]
fn keyword_exact_text() {
    assert_eq!(lex("fn").unwrap(), vec![Tk::Kw(Kw::Fn)]);
    assert_eq!(lex("class").unwrap(), vec![Tk::Kw(Kw::Class)]);
    assert_eq!(lex("struct").unwrap(), vec![Tk::Kw(Kw::Struct)]);
}

#[test]
fn keyword_boundary_identifier() {
    assert_eq!(lex("fnx").unwrap(), vec![ident("fnx")]);
    assert_eq!(lex("classes").unwrap(), vec![ident("classes")]);
    assert_eq!(lex("f").unwrap(), vec![ident("f")]);
}

#[test]
fn round_trip_example() {
    let first = lex("fn (a, b) 127:8 {x}").unwrap();
    let rendered = render_tokens(&first);
    let second = lex(rendered.as_str()).unwrap();
    assert_eq!(first, second);
}

#[test]
fn round_trip_rendered_text() {
    let first = lex("fn (a, b)").unwrap();
    assert_eq!(render_tokens(&first).as_str(), "fn (a , b)");
}

#[test]
fn depth_correspondence_example() {
    let got = lex("((()))").unwrap();
    let expected = vec![Tk::Delim(
        Delim::Paren,
        vec![Tk::Delim(Delim::Paren, vec![Tk::Delim(Delim::Paren, vec![])])],
    )];
    assert_eq!(got, expected);
    assert_eq!(got.iter().map(depth).max().unwrap(), 3);
}

#[test]
fn empty_input() {
    assert_eq!(lex("").unwrap(), vec![]);
    assert_eq!(lex("  \t\n").unwrap(), vec![]);
}

#[test]
fn all_symbols() {
    let got = lex("! @ # $ % ^ & * - + = | ; : < > , . / ?").unwrap();
    let expected = vec![
        Tk::Sym(Sym::Bang),
        Tk::Sym(Sym::At),
        Tk::Sym(Sym::Hash),
        Tk::Sym(Sym::Dollar),
        Tk::Sym(Sym::Percent),
        Tk::Sym(Sym::Caret),
        Tk::Sym(Sym::And),
        Tk::Sym(Sym::Mul),
        Tk::Sym(Sym::Minus),
        Tk::Sym(Sym::Plus),
        Tk::Sym(Sym::Equal),
        Tk::Sym(Sym::Or),
        Tk::Sym(Sym::Semi),
        Tk::Sym(Sym::Colon),
        Tk::Sym(Sym::Left),
        Tk::Sym(Sym::Right),
        Tk::Sym(Sym::Comma),
        Tk::Sym(Sym::Dot),
        Tk::Sym(Sym::Slash),
        Tk::Sym(Sym::Ques),
    ];
    assert_eq!(got, expected);
}

#[test]
fn suffix_split_into_colon_token() {
    let got = lex("5:7").unwrap();
    assert_eq!(
        got,
        vec![Tk::Num(Num::I32(5)), Tk::Sym(Sym::Colon), Tk::Num(Num::I32(7))]
    );
}

#[test]
fn prefix_without_digits() {
    let (diags, tree) = lex("\\dz").unwrap_err();
    assert_eq!(diags.len(), 1);
    match &diags[0] {
        Diag::UnexpectedInput { found, .. } => assert_eq!(*found, Some('z')),
        other => panic!("wrong diagnostic: {:?}", other),
    }
    assert_eq!(tree.unwrap(), vec![Tk::Error, ident("z")]);
}

#[test]
fn stray_closer() {
    let (diags, tree) = lex("]").unwrap_err();
    assert_eq!(diags.len(), 1);
    assert!(matches!(diags[0], Diag::UnexpectedInput { found: Some(']'), .. }));
    assert_eq!(tree.unwrap(), vec![Tk::Error]);
}

#[test]
fn mismatched_closer_consumed() {
    let (diags, tree) = lex("(a]").unwrap_err();
    assert_eq!(diags.len(), 1);
    assert!(matches!(
        diags[0],
        Diag::UnclosedDelimiter { opening: '(', expected_closer: ')', .. }
    ));
    assert_eq!(tree.unwrap(), vec![Tk::Error]);
}

#[test]
fn sibling_survives_recovery() {
    let (diags, tree) = lex("(a] b").unwrap_err();
    assert_eq!(diags.len(), 1);
    assert_eq!(tree.unwrap(), vec![Tk::Error, ident("b")]);
}

#[test]
fn nesting_too_deep() {
    let deep = "(".repeat(MAX_DEPTH + 6);
    let (diags, tree) = lex(deep.as_str()).unwrap_err();
    assert!(diags
        .iter()
        .any(|d| matches!(d, Diag::NestingTooDeep { .. })));
    assert!(!tree.unwrap().is_empty());
}

#[test]
fn lexer_returns_tree_and_diagnostics() {
    let (toks, diags) = lexer("(a");
    assert_eq!(diags.len(), 1);
    assert_eq!(toks, vec![Tk::Error]);
}

#[test]
fn readint_bounds() {
    assert_eq!(readint(&vec!['7', 'f'], 16, 8), Some(Num::I8(127)));
    assert_eq!(readint(&vec!['f', 'f'], 16, 8), None);
    assert_eq!(readint(&vec!['1', '2', '8'], 10, 8), None);
    assert_eq!(readint(&vec!['1', '2', '8'], 10, 16), Some(Num::I16(128)));
    assert_eq!(
        readint(&vec!['9', '9', '9', '9', '9', '9', '9', '9', '9', '9', '9', '9', '9', '9', '9',
            '9', '9', '9', '9', '9'], 10, 64),
        None
    );
}

#[test]
fn tables_lookups() {
    assert_eq!(Delim::by_opening('('), Some(Delim::Paren));
    assert_eq!(Delim::by_opening('x'), None);
    assert_eq!(Delim::by_closing(']'), Some(Delim::Bracket));
    assert_eq!(Delim::by_chars(('{', '}')), Some(Delim::Brace));
    assert_eq!(Delim::by_chars(('{', ']')), None);
    assert_eq!(Delim::Paren.chars(), ('(', ')'));
    assert_eq!(Kw::Class.into_str(), "class");
    assert_eq!(Sym::Ques.into_str(), "?");
}

#[test]
fn enclose_builders() {
    let f = Delim::Paren.encloser();
    assert_eq!(f(vec![ident("y")]), Tk::Delim(Delim::Paren, vec![ident("y")]));
    let t = Delim::Bracket.enclose(vec![ident("x")]);
    assert_eq!(t, Tk::Delim(Delim::Bracket, vec![ident("x")]));
    let t2 = Delim::Brace.enclose_just(Tk::Sym(Sym::Dot));
    assert_eq!(t2, Tk::Delim(Delim::Brace, vec![Tk::Sym(Sym::Dot)]));
}

#[test]
fn render_tokens_kinds() {
    assert_eq!(Tk::Num(Num::I8(127)).render().as_str(), "127:8");
    assert_eq!(Num::I16(-5).render().as_str(), "-5:16");
    assert_eq!(Num::I64(0).render().as_str(), "0:64");
    assert_eq!(Tk::Error.render().as_str(), "?");
    assert_eq!(Tk::Kw(Kw::Struct).render().as_str(), "struct");
    assert_eq!(ident("ab").render().as_str(), "ab");
    let group = Tk::Delim(Delim::Paren, vec![ident("a"), Tk::Sym(Sym::Comma)]);
    assert_eq!(group.render().as_str(), "(a ,)");
    assert_eq!(Tk::Delim(Delim::Brace, vec![]).render().as_str(), "{}");
}

#[test]
fn num_accessors() {
    assert_eq!(Num::I8(5).width(), 8);
    assert_eq!(Num::I64(5).width(), 64);
    assert_eq!(Num::I32(-7).value(), -7);
}
