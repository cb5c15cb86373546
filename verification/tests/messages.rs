use toktree::count_remove::CountRemoveIf;
use toktree::lexer::{Diag, Span};
use toktree::message::{diag_hint, diag_message, select_eof, to_eof, unclosed_message};
use toktree::signalling_filter_map::SignallingFilterMapExt;

#[test]
fn to_eof_phrases() {
    assert_eq!(to_eof(None).as_str(), "end of input");
    assert_eq!(to_eof(Some('x')).as_str(), "'x'");
}

#[test]
fn select_eof_zero() {
    assert_eq!(select_eof(&vec![]).as_str(), "nothing (error may be earlier)");
}

#[test]
fn select_eof_one() {
    assert_eq!(select_eof(&vec![Some('a')]).as_str(), "'a'");
}

#[test]
fn select_eof_two() {
    assert_eq!(select_eof(&vec![Some('a'), Some('b')]).as_str(), "'a' or 'b'");
}

#[test]
fn select_eof_many() {
    assert_eq!(
        select_eof(&vec![Some('a'), Some('b'), Some('c')]).as_str(),
        "'a', 'b', or 'c'"
    );
}

#[test]
fn select_eof_only_end() {
    assert_eq!(select_eof(&vec![None]).as_str(), "end of input");
}

#[test]
fn select_eof_one_and_end() {
    assert_eq!(select_eof(&vec![Some('a'), None]).as_str(), "'a' or end of input");
}

#[test]
fn select_eof_many_and_end() {
    assert_eq!(
        select_eof(&vec![Some('a'), None, Some('b')]).as_str(),
        "'a', 'b', or end of input"
    );
}

#[test]
fn select_eof_deduplicates() {
    assert_eq!(select_eof(&vec![Some('a'), Some('a')]).as_str(), "'a'");
    assert_eq!(
        select_eof(&vec![Some('a'), Some('b'), Some('a'), None, None]).as_str(),
        "'a', 'b', or end of input"
    );
}

#[test]
fn unclosed_message_plain() {
    assert_eq!(
        unclosed_message('(', ')', &vec![Some(')')]).as_str(),
        "expected ')' to close opening '('"
    );
}

#[test]
fn unclosed_message_with_alternatives() {
    assert_eq!(
        unclosed_message('(', ')', &vec![Some(')'), Some('a'), None]).as_str(),
        "expected ')', or also 'a' or end of input"
    );
}

#[test]
fn diag_messages() {
    let unexpected = Diag::UnexpectedInput {
        found: Some(']'),
        expected: vec![],
        span: Span { start: 0, end: 1 },
    };
    assert_eq!(diag_message(&unexpected).as_str(), "unexpected ']'");
    assert_eq!(
        diag_hint(&unexpected).unwrap().as_str(),
        "nothing (error may be earlier)"
    );

    let unclosed = Diag::UnclosedDelimiter {
        opening: '(',
        expected_closer: ')',
        span: Span { start: 0, end: 1 },
    };
    assert_eq!(diag_message(&unclosed).as_str(), "mismatched '('");
    assert_eq!(
        diag_hint(&unclosed).unwrap().as_str(),
        "expected ')' to close opening '('"
    );

    let invalid = Diag::InvalidNumber {
        text: String::from("128"),
        radix: 10,
        width: 8,
        span: Span { start: 0, end: 5 },
    };
    assert_eq!(diag_message(&invalid).as_str(), "invalid number '128' for width 8");
    assert!(diag_hint(&invalid).is_none());

    let deep = Diag::NestingTooDeep { span: Span { start: 0, end: 1 } };
    assert_eq!(diag_message(&deep).as_str(), "nesting too deep");
    assert!(diag_hint(&deep).is_none());
}

#[test]
fn count_remove_counts_and_keeps() {
    let r = CountRemoveIf::count_remove(&vec![Some(')'), Some('a'), Some(')')], Some(')'));
    assert_eq!(r.count(), 2);
    assert_eq!(r.items, vec![Some('a')]);
    let none = CountRemoveIf::count_remove(&vec![Some('a')], None);
    assert_eq!(none.count(), 0);
    assert_eq!(none.items, vec![Some('a')]);
}

#[test]
fn signalling_filter_map_splits_end_of_input() {
    let r = vec![Some('a'), None, Some('b')].signalling_filter_map();
    assert_eq!(r.items, vec!['a', 'b']);
    assert!(r.removed);
    let r2 = vec![Some('a')].signalling_filter_map();
    assert_eq!(r2.items, vec!['a']);
    assert!(!r2.removed);
}
