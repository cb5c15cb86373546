//! Diagnostic assembly: turning raw tokenization failures into
//! human-phrased messages, deduplicating and pluralizing expected sets
//! and treating end of input as a pseudo-character.

use vstd::prelude::*;
use vstd::string::StringExecFns;
use crate::count_remove::{remove_count, remove_kept, CountRemoveIf};
use crate::lexer::{diag_view, Diag, DiagView};
use crate::num::dec_digits;
use crate::signalling_filter_map::{just_chars, SignallingFilterMapExt};
use crate::token::chars_to_string;

verus! {

/// A character in single quotes.
pub open spec fn quoted(c: char) -> Seq<char> {
    seq!['\'', c, '\'']
}

/// The phrase standing for end of input.
pub open spec fn eof_text() -> Seq<char> {
    "end of input"@
}

/// The phrase for a character, or for end of input.
pub open spec fn to_eof_text(c: Option<char>) -> Seq<char> {
    match c {
        Option::Some(c) => quoted(c),
        Option::None => eof_text(),
    }
}

/// The entries of `s` from `i` on whose first occurrence in `s` lies at
/// or after `i`: deduplication keeping first occurrences.
pub open spec fn dedup_from(s: Seq<Option<char>>, i: int) -> Seq<Option<char>>
    decreases s.len() - i,
{
    if i < 0 || i >= s.len() {
        Seq::empty()
    } else if s.subrange(0, i).contains(s[i]) {
        dedup_from(s, i + 1)
    } else {
        seq![s[i]] + dedup_from(s, i + 1)
    }
}

/// The quoted characters of `cs` from `i` on, joined by commas.
pub open spec fn quote_join(cs: Seq<char>, i: int) -> Seq<char>
    decreases cs.len() - i,
{
    if i < 0 || i >= cs.len() {
        Seq::empty()
    } else if i == cs.len() - 1 {
        quoted(cs[i])
    } else {
        quoted(cs[i]) + ", "@ + quote_join(cs, i + 1)
    }
}

/// The rendered form of an expected set: deduplicated, with end of input
/// as a pseudo-character, phrased for zero, one, two or many
/// alternatives.
pub open spec fn select_eof_text(set: Seq<Option<char>>) -> Seq<char> {
    let d = dedup_from(set, 0);
    let cs = just_chars(d, 0);
    let eof = d.contains(None);
    if cs.len() == 0 && !eof {
        "nothing (error may be earlier)"@
    } else if cs.len() == 1 && !eof {
        quoted(cs[0])
    } else if cs.len() == 2 && !eof {
        quoted(cs[0]) + " or "@ + quoted(cs[1])
    } else if !eof {
        quote_join(cs.subrange(0, cs.len() - 1), 0) + ", or "@ + quoted(cs.last())
    } else if cs.len() == 0 {
        eof_text()
    } else if cs.len() == 1 {
        quoted(cs[0]) + " or "@ + eof_text()
    } else {
        quote_join(cs, 0) + ", or "@ + eof_text()
    }
}

/// The message of an unclosed-delimiter failure: its expected closer,
/// and, where the expected set holds other valid continuations besides
/// that closer, those as well.
pub open spec fn unclosed_text(opening: char, closer: char, expected: Seq<Option<char>>) -> Seq<
    char,
> {
    let kept = remove_kept(expected, Some(closer), 0);
    if kept.len() > 0 {
        "expected "@ + quoted(closer) + ", or also "@ + select_eof_text(kept)
    } else {
        "expected "@ + quoted(closer) + " to close opening "@ + quoted(opening)
    }
}

/// The headline of a diagnostic.
pub open spec fn diag_message_text(d: DiagView) -> Seq<char> {
    match d {
        DiagView::UnexpectedInput { found, .. } => "unexpected "@ + to_eof_text(found),
        DiagView::UnclosedDelimiter { opening, .. } => "mismatched "@ + quoted(opening),
        DiagView::InvalidNumber { text, width, .. } => "invalid number "@ + seq!['\''] + text
            + "' for width "@ + dec_digits(width as nat),
        DiagView::NestingTooDeep { .. } => "nesting too deep"@,
    }
}

/// A character in single quotes.
pub fn quote_char(c: char) -> (r: String)
    ensures
        r@ == quoted(c),
{
    let mut v: Vec<char> = Vec::new();
    v.push('\'');
    v.push(c);
    v.push('\'');
    proof {
        assert(v@ =~= quoted(c));
    }
    chars_to_string(v)
}

/// The phrase for a character, or for end of input.
pub fn to_eof(c: Option<char>) -> (r: String)
    ensures
        r@ == to_eof_text(c),
{
    match c {
        Some(c) => quote_char(c),
        None => String::from_str("end of input"),
    }
}

/// Deduplicates an expected set, keeping first occurrences in order.
fn dedup(set: &Vec<Option<char>>) -> (r: Vec<Option<char>>)
    ensures
        r@ == dedup_from(set@, 0),
{
    let mut out: Vec<Option<char>> = Vec::new();
    let mut i: usize = 0;
    while i < set.len()
        invariant
            0 <= i <= set@.len(),
            out@ + dedup_from(set@, i as int) =~= dedup_from(set@, 0),
        decreases set@.len() - i,
    {
        let e = set[i];
        let mut seen = false;
        let mut k: usize = 0;
        while k < i
            invariant
                0 <= k <= i < set@.len(),
                e == set@[i as int],
                seen == set@.subrange(0, k as int).contains(set@[i as int]),
            decreases i - k,
        {
            let ghost pre = set@.subrange(0, k as int);
            let ghost was = seen;
            let same = match (set[k], e) {
                (Option::None, Option::None) => true,
                (Option::Some(a), Option::Some(b)) => a == b,
                _ => false,
            };
            if same {
                seen = true;
            }
            k = k + 1;
            proof {
                let cur = set@.subrange(0, k as int);
                assert(cur =~= pre.push(set@[k - 1]));
                if same {
                    assert(cur[k - 1] == set@[i as int]);
                    assert(cur.contains(set@[i as int]));
                } else if was {
                    let m = choose|m: int| 0 <= m < pre.len() && pre[m] == set@[i as int];
                    assert(cur[m] == set@[i as int]);
                    assert(cur.contains(set@[i as int]));
                } else {
                    if cur.contains(set@[i as int]) {
                        let m = choose|m: int| 0 <= m < cur.len() && cur[m] == set@[i as int];
                        if m < k - 1 {
                            assert(pre[m] == set@[i as int]);
                            assert(pre.contains(set@[i as int]));
                        }
                        assert(false);
                    }
                }
            }
        }
        if !seen {
            out.push(e);
        }
        i = i + 1;
        proof {
            assert(out@ + dedup_from(set@, i as int) =~= dedup_from(set@, 0));
        }
    }
    proof {
        assert(out@ + dedup_from(set@, set@.len() as int) =~= out@);
    }
    out
}

/// The quoted characters of `cs`, joined by commas.
fn quote_join_x(cs: &Vec<char>) -> (r: String)
    ensures
        r@ == quote_join(cs@, 0),
{
    let mut out = String::new();
    let mut i: usize = 0;
    while i < cs.len()
        invariant
            0 <= i <= cs@.len(),
            i == 0 ==> out@ + quote_join(cs@, 0) =~= quote_join(cs@, 0),
            0 < i < cs@.len() ==> out@ + ", "@ + quote_join(cs@, i as int) =~= quote_join(cs@, 0),
            i == cs@.len() ==> out@ =~= quote_join(cs@, 0),
        decreases cs@.len() - i,
    {
        if i > 0 {
            out.append(", ");
        }
        let q = quote_char(cs[i]);
        out.append(q.as_str());
        i = i + 1;
    }
    out
}

/// The first `upto` characters of `cs`.
fn prefix_chars(cs: &Vec<char>, upto: usize) -> (r: Vec<char>)
    requires
        upto <= cs@.len(),
    ensures
        r@ == cs@.subrange(0, upto as int),
{
    let mut out: Vec<char> = Vec::new();
    let mut i: usize = 0;
    while i < upto
        invariant
            0 <= i <= upto <= cs@.len(),
            out@ =~= cs@.subrange(0, i as int),
        decreases upto - i,
    {
        out.push(cs[i]);
        i = i + 1;
        proof {
            assert(out@ =~= cs@.subrange(0, i as int));
        }
    }
    out
}

/// Renders an expected set: deduplicated, end of input last, phrased for
/// zero, one, two or many alternatives.
pub fn select_eof(set: &Vec<Option<char>>) -> (r: String)
    ensures
        r@ == select_eof_text(set@),
{
    let d = dedup(set);
    let f = d.signalling_filter_map();
    let items = f.items;
    let eof = f.removed;
    let n = items.len();
    if n == 0 && !eof {
        String::from_str("nothing (error may be earlier)")
    } else if n == 1 && !eof {
        quote_char(items[0])
    } else if n == 2 && !eof {
        let mut out = quote_char(items[0]);
        out.append(" or ");
        let q = quote_char(items[1]);
        out.append(q.as_str());
        out
    } else if !eof {
        let head = prefix_chars(&items, n - 1);
        let mut out = quote_join_x(&head);
        out.append(", or ");
        let q = quote_char(items[n - 1]);
        out.append(q.as_str());
        out
    } else if n == 0 {
        String::from_str("end of input")
    } else if n == 1 {
        let mut out = quote_char(items[0]);
        out.append(" or ");
        out.append("end of input");
        out
    } else {
        let mut out = quote_join_x(&items);
        out.append(", or ");
        out.append("end of input");
        out
    }
}

/// The message of an unclosed-delimiter failure, per the expected set
/// valid at the failure point.
pub fn unclosed_message(opening: char, closer: char, expected: &Vec<Option<char>>) -> (r: String)
    ensures
        r@ == unclosed_text(opening, closer, expected@),
{
    let kept = CountRemoveIf::count_remove(expected, Some(closer));
    let mut out = String::from_str("expected ");
    let q = quote_char(closer);
    out.append(q.as_str());
    if kept.items.len() > 0 {
        out.append(", or also ");
        let sel = select_eof(&kept.items);
        out.append(sel.as_str());
        out
    } else {
        out.append(" to close opening ");
        let q2 = quote_char(opening);
        out.append(q2.as_str());
        out
    }
}

/// The headline of a diagnostic.
pub fn diag_message(d: &Diag) -> (r: String)
    ensures
        r@ == diag_message_text(diag_view(*d)),
{
    match d {
        Diag::UnexpectedInput { found, .. } => {
            let mut out = String::from_str("unexpected ");
            let t = to_eof(*found);
            out.append(t.as_str());
            out
        },
        Diag::UnclosedDelimiter { opening, .. } => {
            let mut out = String::from_str("mismatched ");
            let q = quote_char(*opening);
            out.append(q.as_str());
            out
        },
        Diag::InvalidNumber { text, width, .. } => {
            let mut out = String::from_str("invalid number ");
            out.append("'");
            out.append(text.as_str());
            out.append("' for width ");
            let w = crate::token::u64_dec(*width as u64);
            out.append(w.as_str());
            proof {
                reveal_strlit("'");
                assert("'"@ =~= seq!['\'']);
            }
            out
        },
        Diag::NestingTooDeep { .. } => String::from_str("nesting too deep"),
    }
}

/// The follow-up hint of a diagnostic: the rendered expected set of an
/// unexpected-input failure, the closer phrasing of an unclosed
/// delimiter; nothing otherwise.
pub fn diag_hint(d: &Diag) -> (r: Option<String>)
    ensures
        ({
            match diag_view(*d) {
                DiagView::UnexpectedInput { expected, .. } => r is Some && r->0@
                    == select_eof_text(expected),
                DiagView::UnclosedDelimiter { opening, expected_closer, .. } => r is Some && r->0@
                    == unclosed_text(opening, expected_closer, seq![Some(expected_closer)]),
                _ => r is None,
            }
        }),
{
    match d {
        Diag::UnexpectedInput { expected, .. } => Some(select_eof(expected)),
        Diag::UnclosedDelimiter { opening, expected_closer, .. } => {
            let mut set: Vec<Option<char>> = Vec::new();
            set.push(Some(*expected_closer));
            proof {
                assert(set@ =~= seq![Some(*expected_closer)]);
            }
            Some(unclosed_message(*opening, *expected_closer, &set))
        },
        Diag::NestingTooDeep { .. } => None,
        Diag::InvalidNumber { .. } => None,
    }
}

} // verus!
