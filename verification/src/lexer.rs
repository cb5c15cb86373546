//! The recursive tokenizer: grammar, delimiter recovery and diagnostics.
//!
//! The grammar is stated once, as the specification function `spec_group`,
//! and the executable tokenizer is proved to return exactly what the
//! specification says, for every input.
//!
//! Recovery policy, where the specification of the language leaves a
//! choice: when a group fails (its closer is missing or of the wrong
//! kind), its interior tokens are discarded and a single `Error` token
//! stands for the whole region; a mismatched closer is consumed as the
//! best-guess closer of the failed group; diagnostics found inside the
//! failed region are all kept.

use vstd::prelude::*;
use crate::num::{digits_val, is_digit, num_of, width_max, readint};
use crate::tables::{
    delim_by_closing, delim_by_opening, delim_close, delim_open, kw_of_text, kw_text, sym_char,
    sym_of_char, Delim, Kw, Sym,
};
use crate::token::{tk_view, tks_view, Tk, TkView, lemma_tks_view_push, str_chars, chars_to_string};

verus! {

/// Groups may nest at most this deep; deeper nesting is reported as a
/// dedicated failure instead of exhausting the native call stack.
pub const MAX_DEPTH: usize = 64;

/// A half-open span of positions into the input character sequence.
#[derive(Clone, Copy, PartialEq, Eq, Structural, Debug)]
pub struct Span {
    pub start: usize,
    pub end: usize,
}

/// A located, classified tokenization failure.
#[derive(PartialEq, Eq, Debug)]
pub enum Diag {
    /// A character (or end of input) appeared where no grammar
    /// alternative could continue.
    UnexpectedInput { found: Option<char>, expected: Vec<Option<char>>, span: Span },
    /// A bracket was opened but never correctly closed before a
    /// conflicting closer or end of input.
    UnclosedDelimiter { opening: char, expected_closer: char, span: Span },
    /// Digits were syntactically valid for a radix but their value does
    /// not fit the requested signed bit width.
    InvalidNumber { text: String, radix: u32, width: u32, span: Span },
    /// Brackets nest deeper than `MAX_DEPTH`.
    NestingTooDeep { span: Span },
}

/// Mathematical shape of a diagnostic.
pub enum DiagView {
    UnexpectedInput { found: Option<char>, expected: Seq<Option<char>>, span: Span },
    UnclosedDelimiter { opening: char, expected_closer: char, span: Span },
    InvalidNumber { text: Seq<char>, radix: u32, width: u32, span: Span },
    NestingTooDeep { span: Span },
}

/// View of one diagnostic.
pub open spec fn diag_view(d: Diag) -> DiagView {
    match d {
        Diag::UnexpectedInput { found, expected, span } => DiagView::UnexpectedInput {
            found,
            expected: expected@,
            span,
        },
        Diag::UnclosedDelimiter { opening, expected_closer, span } => DiagView::UnclosedDelimiter {
            opening,
            expected_closer,
            span,
        },
        Diag::InvalidNumber { text, radix, width, span } => DiagView::InvalidNumber {
            text: text@,
            radix,
            width,
            span,
        },
        Diag::NestingTooDeep { span } => DiagView::NestingTooDeep { span },
    }
}

/// Views of a sequence of diagnostics.
pub open spec fn diags_view(ds: Seq<Diag>) -> Seq<DiagView> {
    Seq::new(ds.len(), |i: int| diag_view(ds[i]))
}

/// Appending one diagnostic appends one view.
pub proof fn lemma_diags_view_push(ds: Seq<Diag>, d: Diag)
    ensures
        diags_view(ds.push(d)) =~= diags_view(ds).push(diag_view(d)),
{
}

/// The views of a concatenation are the concatenated views.
pub proof fn lemma_diags_view_concat(a: Seq<Diag>, b: Seq<Diag>)
    ensures
        diags_view(a + b) =~= diags_view(a) + diags_view(b),
{
    assert forall|i: int| 0 <= i < a.len() + b.len() implies diags_view(a + b)[i] == (diags_view(a)
        + diags_view(b))[i] by {
        if i < a.len() {
            assert((a + b)[i] == a[i]);
        } else {
            assert((a + b)[i] == b[i - a.len()]);
        }
    }
}

impl View for Diag {
    type V = DiagView;

    open spec fn view(&self) -> DiagView {
        diag_view(*self)
    }
}

/// Whitespace, insignificant and skipped between tokens.
pub open spec fn is_ws(c: char) -> bool {
    c == ' ' || c == '\t' || c == '\n' || c == '\r'
}

/// A character that may start an identifier.
pub open spec fn is_ident_start(c: char) -> bool {
    let u = c as u32;
    (65 <= u && u <= 90) || (97 <= u && u <= 122) || c == '_'
}

/// A character that may continue an identifier.
pub open spec fn is_ident_char(c: char) -> bool {
    is_ident_start(c) || (48 <= c as u32 && c as u32 <= 57)
}

/// First position at or after `pos` that does not continue an identifier.
pub open spec fn scan_ident_end(s: Seq<char>, pos: int) -> int
    decreases s.len() - pos,
{
    if 0 <= pos < s.len() && is_ident_char(s[pos]) {
        scan_ident_end(s, pos + 1)
    } else {
        pos
    }
}

/// The end of an identifier scan never lies before its start.
pub proof fn lemma_scan_ident_ge(s: Seq<char>, pos: int)
    ensures
        scan_ident_end(s, pos) >= pos,
    decreases s.len() - pos,
{
    if 0 <= pos < s.len() && is_ident_char(s[pos]) {
        lemma_scan_ident_ge(s, pos + 1);
    }
}

/// First position at or after `pos` that is not a digit of `radix`.
pub open spec fn scan_digits_end(s: Seq<char>, pos: int, radix: u32) -> int
    decreases s.len() - pos,
{
    if 0 <= pos < s.len() && is_digit(s[pos], radix) {
        scan_digits_end(s, pos + 1, radix)
    } else {
        pos
    }
}

/// The radix of the numeric literal starting at `pos`, and the position
/// of its first digit: a mandatory two-character marker for hexadecimal,
/// octal and binary, an optional one for decimal.
pub open spec fn num_radix_at(s: Seq<char>, pos: int) -> Option<(u32, int)> {
    if 0 <= pos < s.len() && s[pos] == '\\' {
        if pos + 1 < s.len() && s[pos + 1] == 'x' {
            Some((16u32, pos + 2))
        } else if pos + 1 < s.len() && s[pos + 1] == 'd' {
            Some((10u32, pos + 2))
        } else if pos + 1 < s.len() && s[pos + 1] == 'o' {
            Some((8u32, pos + 2))
        } else if pos + 1 < s.len() && s[pos + 1] == 'b' {
            Some((2u32, pos + 2))
        } else {
            None
        }
    } else if 0 <= pos < s.len() && is_digit(s[pos], 10) {
        Some((10u32, pos))
    } else {
        None
    }
}

/// The width chosen by the suffix at `pos`, and the position after it:
/// `:8`, `:16` and `:64` are literal markers; `:32` may be omitted, in
/// which case width 32 is the default and nothing is consumed.
pub open spec fn suffix_at(s: Seq<char>, pos: int) -> (u32, int) {
    if 0 <= pos < s.len() && s[pos] == ':' {
        if pos + 1 < s.len() && s[pos + 1] == '8' {
            (8u32, pos + 2)
        } else if pos + 2 < s.len() && s[pos + 1] == '1' && s[pos + 2] == '6' {
            (16u32, pos + 3)
        } else if pos + 2 < s.len() && s[pos + 1] == '3' && s[pos + 2] == '2' {
            (32u32, pos + 3)
        } else if pos + 2 < s.len() && s[pos + 1] == '6' && s[pos + 2] == '4' {
            (64u32, pos + 3)
        } else {
            (32u32, pos)
        }
    } else {
        (32u32, pos)
    }
}

/// First position after the balanced bracket region that starts with
/// `level` brackets already open at `pos`.
pub open spec fn skip_balanced(s: Seq<char>, pos: int, level: int) -> int
    decreases s.len() - pos,
{
    if pos < 0 || pos >= s.len() || level <= 0 {
        pos
    } else if delim_by_opening(s[pos]) is Some {
        skip_balanced(s, pos + 1, level + 1)
    } else if delim_by_closing(s[pos]) is Some {
        skip_balanced(s, pos + 1, level - 1)
    } else {
        skip_balanced(s, pos + 1, level)
    }
}

/// What tokenizing the rest of one group yields: the group's tokens and
/// diagnostics, the position after its closer (or where it gave up), and
/// whether the group was closed by its own closing character.
#[verifier::ext_equal]
pub struct GroupRes {
    pub toks: Seq<TkView>,
    pub diags: Seq<DiagView>,
    pub end: int,
    pub closed: bool,
}

/// One token and its diagnostics, followed by the rest of the group.
pub open spec fn cons_res(tok: TkView, ds: Seq<DiagView>, rest: GroupRes) -> GroupRes {
    GroupRes {
        toks: seq![tok] + rest.toks,
        diags: ds + rest.diags,
        end: rest.end,
        closed: rest.closed,
    }
}

/// The span of the single position `pos`.
pub open spec fn span_at(pos: int) -> Span {
    Span { start: pos as usize, end: (pos + 1) as usize }
}

/// `e`, clamped into the progress window `(pos, len]`.
pub open spec fn step_to(e: int, pos: int, len: int) -> int {
    if e < pos + 1 {
        pos + 1
    } else if e > len {
        len
    } else {
        e
    }
}

/// The grammar and its recovery, in one step: tokenizing the contents of
/// a group (`open` is its kind, `open_pos` its opening character's
/// position; `None` at top level) from position `pos` on, at nesting
/// depth `depth`.
#[verifier::opaque]
pub open spec fn spec_group(
    s: Seq<char>,
    pos: int,
    open: Option<Delim>,
    open_pos: int,
    depth: nat,
) -> GroupRes
    decreases s.len() - pos,
{
    if pos < 0 || pos >= s.len() {
        match open {
            Option::None => GroupRes {
                toks: Seq::empty(),
                diags: Seq::empty(),
                end: pos,
                closed: true,
            },
            Option::Some(d) => GroupRes {
                toks: Seq::empty(),
                diags: seq![
                    DiagView::UnclosedDelimiter {
                        opening: delim_open(d),
                        expected_closer: delim_close(d),
                        span: span_at(open_pos),
                    },
                ],
                end: pos,
                closed: false,
            },
        }
    } else {
        let c = s[pos];
        if is_ws(c) {
            spec_group(s, pos + 1, open, open_pos, depth)
        } else if open is Some && c == delim_close(open->0) {
            GroupRes { toks: Seq::empty(), diags: Seq::empty(), end: pos + 1, closed: true }
        } else if delim_by_closing(c) is Some && open is Some {
            GroupRes {
                toks: Seq::empty(),
                diags: seq![
                    DiagView::UnclosedDelimiter {
                        opening: delim_open(open->0),
                        expected_closer: delim_close(open->0),
                        span: span_at(open_pos),
                    },
                ],
                end: pos + 1,
                closed: false,
            }
        } else if delim_by_closing(c) is Some {
            let rest = spec_group(s, pos + 1, open, open_pos, depth);
            cons_res(
                TkView::Error,
                seq![
                    DiagView::UnexpectedInput {
                        found: Some(c),
                        expected: Seq::empty(),
                        span: span_at(pos),
                    },
                ],
                rest,
            )
        } else if is_ident_start(c) {
            let e = scan_ident_end(s, pos);
            let text = s.subrange(pos, step_to(e, pos, s.len() as int));
            let tok = match kw_of_text(text) {
                Option::Some(k) => TkView::Kw(k),
                Option::None => TkView::Ident(text),
            };
            let rest = spec_group(s, step_to(e, pos, s.len() as int), open, open_pos, depth);
            cons_res(tok, Seq::empty(), rest)
        } else if sym_of_char(c) is Some {
            let rest = spec_group(s, pos + 1, open, open_pos, depth);
            cons_res(TkView::Sym(sym_of_char(c)->0), Seq::empty(), rest)
        } else if num_radix_at(s, pos) is Some {
            let radix = (num_radix_at(s, pos)->0).0;
            let dstart = (num_radix_at(s, pos)->0).1;
            let dend = scan_digits_end(s, dstart, radix);
            if dend == dstart {
                let found = if dstart < s.len() {
                    Some(s[dstart])
                } else {
                    None
                };
                let next = step_to(dstart, pos, s.len() as int);
                let rest = spec_group(s, next, open, open_pos, depth);
                cons_res(
                    TkView::Error,
                    seq![
                        DiagView::UnexpectedInput {
                            found,
                            expected: Seq::empty(),
                            span: Span { start: pos as usize, end: dstart as usize },
                        },
                    ],
                    rest,
                )
            } else {
                let width = suffix_at(s, dend).0;
                let send = suffix_at(s, dend).1;
                let v = digits_val(s.subrange(dstart, dend), radix);
                let next = step_to(send, pos, s.len() as int);
                let rest = spec_group(s, next, open, open_pos, depth);
                if v <= width_max(width) {
                    cons_res(TkView::Num(num_of(width, v)), Seq::empty(), rest)
                } else {
                    cons_res(
                        TkView::Error,
                        seq![
                            DiagView::InvalidNumber {
                                text: s.subrange(dstart, dend),
                                radix,
                                width,
                                span: Span { start: pos as usize, end: send as usize },
                            },
                        ],
                        rest,
                    )
                }
            }
        } else if delim_by_opening(c) is Some {
            let d2 = delim_by_opening(c)->0;
            if depth >= MAX_DEPTH {
                let e = skip_balanced(s, pos + 1, 1);
                let next = step_to(e, pos, s.len() as int);
                let rest = spec_group(s, next, open, open_pos, depth);
                cons_res(TkView::Error, seq![DiagView::NestingTooDeep { span: span_at(pos) }], rest)
            } else {
                let inner = spec_group(s, pos + 1, Some(d2), pos, (depth + 1) as nat);
                let tok = if inner.closed {
                    TkView::Delim(d2, inner.toks)
                } else {
                    TkView::Error
                };
                let next = step_to(inner.end, pos, s.len() as int);
                let rest = spec_group(s, next, open, open_pos, depth);
                cons_res(tok, inner.diags, rest)
            }
        } else {
            let exp: Seq<Option<char>> = if c == '\\' {
                seq![Some('x'), Some('d'), Some('o'), Some('b')]
            } else {
                Seq::empty()
            };
            let rest = spec_group(s, pos + 1, open, open_pos, depth);
            cons_res(
                TkView::Error,
                seq![DiagView::UnexpectedInput { found: Some(c), expected: exp, span: span_at(pos) }],
                rest,
            )
        }
    }
}

/// What tokenizing a whole input yields: the token tree and the
/// diagnostics, in order of appearance.
pub open spec fn spec_lex(s: Seq<char>) -> (Seq<TkView>, Seq<DiagView>) {
    let g = spec_group(s, 0, None, 0, 0);
    (g.toks, g.diags)
}

/// At end of input a top-level sequence ends well; an open group is
/// reported unclosed.
pub proof fn lemma_sg_eof(s: Seq<char>, pos: int, open: Option<Delim>, open_pos: int, depth: nat)
    requires
        pos >= s.len() || pos < 0,
    ensures
        open is None ==> spec_group(s, pos, open, open_pos, depth) == (GroupRes {
            toks: Seq::<TkView>::empty(),
            diags: Seq::<DiagView>::empty(),
            end: pos,
            closed: true,
        }),
        open is Some ==> spec_group(s, pos, open, open_pos, depth) == (GroupRes {
            toks: Seq::<TkView>::empty(),
            diags: seq![
                DiagView::UnclosedDelimiter {
                    opening: delim_open(open->0),
                    expected_closer: delim_close(open->0),
                    span: span_at(open_pos),
                },
            ],
            end: pos,
            closed: false,
        }),
{
    reveal(spec_group);
}

/// Whitespace before a token is skipped.
pub proof fn lemma_sg_ws(s: Seq<char>, pos: int, open: Option<Delim>, open_pos: int, depth: nat)
    requires
        0 <= pos < s.len(),
        is_ws(s[pos]),
    ensures
        spec_group(s, pos, open, open_pos, depth) == spec_group(s, pos + 1, open, open_pos, depth),
{
    reveal(spec_group);
}

/// The matching closer ends the group.
pub proof fn lemma_sg_close(s: Seq<char>, pos: int, open: Option<Delim>, open_pos: int, depth: nat)
    requires
        0 <= pos < s.len(),
        !is_ws(s[pos]),
        open is Some,
        s[pos] == delim_close(open->0),
    ensures
        spec_group(s, pos, open, open_pos, depth) == (GroupRes {
            toks: Seq::<TkView>::empty(),
            diags: Seq::<DiagView>::empty(),
            end: pos + 1,
            closed: true,
        }),
{
    reveal(spec_group);
}

/// A closer of another kind fails the group and is consumed as its
/// best-guess closer.
pub proof fn lemma_sg_mismatch(
    s: Seq<char>,
    pos: int,
    open: Option<Delim>,
    open_pos: int,
    depth: nat,
)
    requires
        0 <= pos < s.len(),
        !is_ws(s[pos]),
        open is Some,
        s[pos] != delim_close(open->0),
        delim_by_closing(s[pos]) is Some,
    ensures
        spec_group(s, pos, open, open_pos, depth) == (GroupRes {
            toks: Seq::<TkView>::empty(),
            diags: seq![
                DiagView::UnclosedDelimiter {
                    opening: delim_open(open->0),
                    expected_closer: delim_close(open->0),
                    span: span_at(open_pos),
                },
            ],
            end: pos + 1,
            closed: false,
        }),
{
    reveal(spec_group);
}

/// A closer with no group open is unexpected input; an error marker
/// stands for it.
pub proof fn lemma_sg_stray(s: Seq<char>, pos: int, open: Option<Delim>, open_pos: int, depth: nat)
    requires
        0 <= pos < s.len(),
        !is_ws(s[pos]),
        open is None,
        delim_by_closing(s[pos]) is Some,
    ensures
        spec_group(s, pos, open, open_pos, depth) == cons_res(
            TkView::Error,
            seq![
                DiagView::UnexpectedInput {
                    found: Some(s[pos]),
                    expected: Seq::<Option<char>>::empty(),
                    span: span_at(pos),
                },
            ],
            spec_group(s, pos + 1, open, open_pos, depth),
        ),
{
    reveal(spec_group);
}

/// An identifier-shaped run becomes a keyword exactly when its text is a
/// keyword's canonical text, else an identifier.
pub proof fn lemma_sg_ident(s: Seq<char>, pos: int, open: Option<Delim>, open_pos: int, depth: nat)
    requires
        0 <= pos < s.len(),
        !is_ws(s[pos]),
        !(open is Some && s[pos] == delim_close(open->0)),
        delim_by_closing(s[pos]) is None,
        is_ident_start(s[pos]),
    ensures
        ({
            let e = step_to(scan_ident_end(s, pos), pos, s.len() as int);
            let text = s.subrange(pos, e);
            let tok = match kw_of_text(text) {
                Option::Some(k) => TkView::Kw(k),
                Option::None => TkView::Ident(text),
            };
            spec_group(s, pos, open, open_pos, depth) == cons_res(
                tok,
                Seq::<DiagView>::empty(),
                spec_group(s, e, open, open_pos, depth),
            )
        }),
{
    reveal(spec_group);
}

/// A symbol character becomes its symbol token.
pub proof fn lemma_sg_sym(s: Seq<char>, pos: int, open: Option<Delim>, open_pos: int, depth: nat)
    requires
        0 <= pos < s.len(),
        !is_ws(s[pos]),
        !(open is Some && s[pos] == delim_close(open->0)),
        delim_by_closing(s[pos]) is None,
        !is_ident_start(s[pos]),
        sym_of_char(s[pos]) is Some,
    ensures
        spec_group(s, pos, open, open_pos, depth) == cons_res(
            TkView::Sym(sym_of_char(s[pos])->0),
            Seq::<DiagView>::empty(),
            spec_group(s, pos + 1, open, open_pos, depth),
        ),
{
    reveal(spec_group);
}

/// A numeric literal: its digit run is read in the radix its marker
/// names and converted to the width its suffix names; a marker with no
/// digits is unexpected input; a value that does not fit its width is an
/// invalid number. In the failure cases an error marker stands for the
/// literal.
pub proof fn lemma_sg_num(s: Seq<char>, pos: int, open: Option<Delim>, open_pos: int, depth: nat)
    requires
        0 <= pos < s.len(),
        !is_ws(s[pos]),
        !(open is Some && s[pos] == delim_close(open->0)),
        delim_by_closing(s[pos]) is None,
        !is_ident_start(s[pos]),
        sym_of_char(s[pos]) is None,
        num_radix_at(s, pos) is Some,
    ensures
        ({
            let radix = (num_radix_at(s, pos)->0).0;
            let dstart = (num_radix_at(s, pos)->0).1;
            let dend = scan_digits_end(s, dstart, radix);
            let sg = spec_group(s, pos, open, open_pos, depth);
            if dend == dstart {
                sg == cons_res(
                    TkView::Error,
                    seq![
                        DiagView::UnexpectedInput {
                            found: if dstart < s.len() {
                                Some(s[dstart])
                            } else {
                                None
                            },
                            expected: Seq::<Option<char>>::empty(),
                            span: Span { start: pos as usize, end: dstart as usize },
                        },
                    ],
                    spec_group(s, step_to(dstart, pos, s.len() as int), open, open_pos, depth),
                )
            } else {
                let width = suffix_at(s, dend).0;
                let send = suffix_at(s, dend).1;
                let v = digits_val(s.subrange(dstart, dend), radix);
                let rest = spec_group(s, step_to(send, pos, s.len() as int), open, open_pos, depth);
                if v <= width_max(width) {
                    sg == cons_res(TkView::Num(num_of(width, v)), Seq::<DiagView>::empty(), rest)
                } else {
                    sg == cons_res(
                        TkView::Error,
                        seq![
                            DiagView::InvalidNumber {
                                text: s.subrange(dstart, dend),
                                radix,
                                width,
                                span: Span { start: pos as usize, end: send as usize },
                            },
                        ],
                        rest,
                    )
                }
            }
        }),
{
    reveal(spec_group);
}

/// An opener at the nesting cap: the balanced region is skipped and
/// reported as nesting too deep.
pub proof fn lemma_sg_deep(s: Seq<char>, pos: int, open: Option<Delim>, open_pos: int, depth: nat)
    requires
        0 <= pos < s.len(),
        !is_ws(s[pos]),
        !(open is Some && s[pos] == delim_close(open->0)),
        delim_by_closing(s[pos]) is None,
        !is_ident_start(s[pos]),
        sym_of_char(s[pos]) is None,
        num_radix_at(s, pos) is None,
        delim_by_opening(s[pos]) is Some,
        depth >= MAX_DEPTH,
    ensures
        spec_group(s, pos, open, open_pos, depth) == cons_res(
            TkView::Error,
            seq![DiagView::NestingTooDeep { span: span_at(pos) }],
            spec_group(
                s,
                step_to(skip_balanced(s, pos + 1, 1), pos, s.len() as int),
                open,
                open_pos,
                depth,
            ),
        ),
{
    reveal(spec_group);
}

/// An opener below the cap: the enclosed content is tokenized as a group
/// of its own; a closed group becomes a `Delim` token of its kind, a
/// failed one a single error marker; its diagnostics are kept either
/// way.
pub proof fn lemma_sg_open(s: Seq<char>, pos: int, open: Option<Delim>, open_pos: int, depth: nat)
    requires
        0 <= pos < s.len(),
        !is_ws(s[pos]),
        !(open is Some && s[pos] == delim_close(open->0)),
        delim_by_closing(s[pos]) is None,
        !is_ident_start(s[pos]),
        sym_of_char(s[pos]) is None,
        num_radix_at(s, pos) is None,
        delim_by_opening(s[pos]) is Some,
        depth < MAX_DEPTH,
    ensures
        ({
            let d2 = delim_by_opening(s[pos])->0;
            let inner = spec_group(s, pos + 1, Some(d2), pos, (depth + 1) as nat);
            let tok = if inner.closed {
                TkView::Delim(d2, inner.toks)
            } else {
                TkView::Error
            };
            spec_group(s, pos, open, open_pos, depth) == cons_res(
                tok,
                inner.diags,
                spec_group(s, step_to(inner.end, pos, s.len() as int), open, open_pos, depth),
            )
        }),
{
    reveal(spec_group);
}

/// A character no grammar alternative can start is unexpected input; an
/// error marker stands for it.
pub proof fn lemma_sg_unexpected(
    s: Seq<char>,
    pos: int,
    open: Option<Delim>,
    open_pos: int,
    depth: nat,
)
    requires
        0 <= pos < s.len(),
        !is_ws(s[pos]),
        !(open is Some && s[pos] == delim_close(open->0)),
        delim_by_closing(s[pos]) is None,
        !is_ident_start(s[pos]),
        sym_of_char(s[pos]) is None,
        num_radix_at(s, pos) is None,
        delim_by_opening(s[pos]) is None,
    ensures
        spec_group(s, pos, open, open_pos, depth) == cons_res(
            TkView::Error,
            seq![
                DiagView::UnexpectedInput {
                    found: Some(s[pos]),
                    expected: if s[pos] == '\\' {
                        seq![Some('x'), Some('d'), Some('o'), Some('b')]
                    } else {
                        Seq::<Option<char>>::empty()
                    },
                    span: span_at(pos),
                },
            ],
            spec_group(s, pos + 1, open, open_pos, depth),
        ),
{
    reveal(spec_group);
}

/// Whitespace test, as the grammar defines it.
fn ws_char(c: char) -> (r: bool)
    ensures
        r == is_ws(c),
{
    c == ' ' || c == '\t' || c == '\n' || c == '\r'
}

/// Identifier-start test, as the grammar defines it.
fn ident_start_char(c: char) -> (r: bool)
    ensures
        r == is_ident_start(c),
{
    let u = c as u32;
    (65 <= u && u <= 90) || (97 <= u && u <= 122) || c == '_'
}

/// Identifier-continuation test, as the grammar defines it.
fn ident_char(c: char) -> (r: bool)
    ensures
        r == is_ident_char(c),
{
    let u = c as u32;
    (65 <= u && u <= 90) || (97 <= u && u <= 122) || c == '_' || (48 <= u && u <= 57)
}

/// The keyword whose canonical text is exactly the given characters.
fn kw_of_chars(v: &Vec<char>) -> (r: Option<Kw>)
    ensures
        r == kw_of_text(v@),
{
    if v.len() == 2 && v[0] == 'f' && v[1] == 'n' {
        proof {
            assert(v@ =~= kw_text(Kw::Fn));
        }
        Some(Kw::Fn)
    } else if v.len() == 5 && v[0] == 'c' && v[1] == 'l' && v[2] == 'a' && v[3] == 's' && v[4]
        == 's' {
        proof {
            assert(v@ =~= kw_text(Kw::Class));
        }
        Some(Kw::Class)
    } else if v.len() == 6 && v[0] == 's' && v[1] == 't' && v[2] == 'r' && v[3] == 'u' && v[4]
        == 'c' && v[5] == 't' {
        proof {
            assert(v@ =~= kw_text(Kw::Struct));
        }
        Some(Kw::Struct)
    } else {
        None
    }
}

/// The radix marker at `pos`, as the grammar defines it.
fn num_radix_at_x(s: &Vec<char>, pos: usize) -> (r: Option<(u32, usize)>)
    requires
        pos < s@.len(),
    ensures
        r is Some <==> num_radix_at(s@, pos as int) is Some,
        r is Some ==> (r->0).0 == (num_radix_at(s@, pos as int)->0).0,
        r is Some ==> (r->0).1 as int == (num_radix_at(s@, pos as int)->0).1,
{
    let n = s.len();
    let c = s[pos];
    if c == '\\' {
        if pos + 1 < n {
            let c2 = s[pos + 1];
            if c2 == 'x' {
                Some((16, pos + 2))
            } else if c2 == 'd' {
                Some((10, pos + 2))
            } else if c2 == 'o' {
                Some((8, pos + 2))
            } else if c2 == 'b' {
                Some((2, pos + 2))
            } else {
                None
            }
        } else {
            None
        }
    } else {
        match crate::num::digit_of(c, 10) {
            Some(_) => Some((10, pos)),
            None => None,
        }
    }
}

/// The width suffix at `pos`, as the grammar defines it.
fn suffix_at_x(s: &Vec<char>, pos: usize) -> (r: (u32, usize))
    requires
        pos <= s@.len(),
    ensures
        r.0 == suffix_at(s@, pos as int).0,
        r.1 as int == suffix_at(s@, pos as int).1,
{
    let n = s.len();
    if pos < n && s[pos] == ':' {
        if pos + 1 < n && s[pos + 1] == '8' {
            (8, pos + 2)
        } else if pos + 1 < n && pos + 2 < n && s[pos + 1] == '1' && s[pos + 2] == '6' {
            (16, pos + 3)
        } else if pos + 1 < n && pos + 2 < n && s[pos + 1] == '3' && s[pos + 2] == '2' {
            (32, pos + 3)
        } else if pos + 1 < n && pos + 2 < n && s[pos + 1] == '6' && s[pos + 2] == '4' {
            (64, pos + 3)
        } else {
            (32, pos)
        }
    } else {
        (32, pos)
    }
}

/// Tokenizes the contents of one group, returning its tokens, its
/// diagnostics, the position after it, and whether it was closed by its
/// own closing character. Equal, in every part, to what `spec_group`
/// says.
#[verifier::loop_isolation(false)]
#[verifier::rlimit(100)]
#[verifier::spinoff_prover]
fn lex_group(s: &Vec<char>, start: usize, open: Option<Delim>, open_pos: usize, depth: usize) -> (r:
    (Vec<Tk>, Vec<Diag>, usize, bool))
    requires
        start <= s@.len(),
        depth <= MAX_DEPTH,
        open is Some ==> open_pos < s@.len(),
    ensures
        ({
            let g = spec_group(s@, start as int, open, open_pos as int, depth as nat);
            &&& tks_view(r.0@) == g.toks
            &&& diags_view(r.1@) == g.diags
            &&& r.2 as int == g.end
            &&& r.3 == g.closed
            &&& start <= r.2 <= s@.len()
        }),
    decreases s@.len() - start,
{
    let ghost g0 = spec_group(s@, start as int, open, open_pos as int, depth as nat);
    let mut toks: Vec<Tk> = Vec::new();
    let mut diags: Vec<Diag> = Vec::new();
    let mut pos: usize = start;
    proof {
        assert(tks_view(toks@) + g0.toks =~= g0.toks);
        assert(diags_view(diags@) + g0.diags =~= g0.diags);
    }
    loop
        invariant
            start <= pos <= s@.len(),
            ({
                let g = spec_group(s@, pos as int, open, open_pos as int, depth as nat);
                &&& g0.toks == tks_view(toks@) + g.toks
                &&& g0.diags == diags_view(diags@) + g.diags
                &&& g0.end == g.end
                &&& g0.closed == g.closed
            }),
        decreases s@.len() - pos,
    {
        let ghost p0 = pos as int;
        let ghost g = spec_group(s@, p0, open, open_pos as int, depth as nat);
        if pos >= s.len() {
            match open {
                None => {
                    proof {
                        lemma_sg_eof(s@, p0, open, open_pos as int, depth as nat);
                        assert(tks_view(toks@) + g.toks =~= tks_view(toks@));
                        assert(diags_view(diags@) + g.diags =~= diags_view(diags@));
                    }
                    return (toks, diags, pos, true);
                },
                Some(d) => {
                    let ghost ds0 = diags@;
                    diags.push(
                        Diag::UnclosedDelimiter {
                            opening: d.opening(),
                            expected_closer: d.closing(),
                            span: Span { start: open_pos, end: open_pos + 1 },
                        },
                    );
                    proof {
                        lemma_sg_eof(s@, p0, open, open_pos as int, depth as nat);
                        lemma_diags_view_push(
                            ds0,
                            Diag::UnclosedDelimiter {
                                opening: delim_open(d),
                                expected_closer: delim_close(d),
                                span: span_at(open_pos as int),
                            },
                        );
                        assert(tks_view(toks@) + g.toks =~= tks_view(toks@));
                        assert(diags_view(diags@) =~= diags_view(ds0) + g.diags);
                    }
                    return (toks, diags, pos, false);
                },
            }
        }
        let c = s[pos];
        if ws_char(c) {
            pos = pos + 1;
            proof {
                lemma_sg_ws(s@, p0, open, open_pos as int, depth as nat);
            }
        } else if open.is_some() && c == open.unwrap().closing() {
            proof {
                lemma_sg_close(s@, p0, open, open_pos as int, depth as nat);
                assert(tks_view(toks@) + g.toks =~= tks_view(toks@));
                assert(diags_view(diags@) + g.diags =~= diags_view(diags@));
            }
            return (toks, diags, pos + 1, true);
        } else if Delim::by_closing(c).is_some() && open.is_some() {
            let d = open.unwrap();
            let ghost ds0 = diags@;
            diags.push(
                Diag::UnclosedDelimiter {
                    opening: d.opening(),
                    expected_closer: d.closing(),
                    span: Span { start: open_pos, end: open_pos + 1 },
                },
            );
            proof {
                lemma_sg_mismatch(s@, p0, open, open_pos as int, depth as nat);
                lemma_diags_view_push(
                    ds0,
                    Diag::UnclosedDelimiter {
                        opening: delim_open(d),
                        expected_closer: delim_close(d),
                        span: span_at(open_pos as int),
                    },
                );
                assert(tks_view(toks@) + g.toks =~= tks_view(toks@));
                assert(diags_view(diags@) =~= diags_view(ds0) + g.diags);
            }
            return (toks, diags, pos + 1, false);
        } else if Delim::by_closing(c).is_some() {
            let ghost ts0 = toks@;
            let ghost ds0 = diags@;
            toks.push(Tk::Error);
            let dg = Diag::UnexpectedInput {
                found: Some(c),
                expected: Vec::new(),
                span: Span { start: pos, end: pos + 1 },
            };
            let ghost dgv = dg;
            diags.push(dg);
            pos = pos + 1;
            proof {
                lemma_sg_stray(s@, p0, open, open_pos as int, depth as nat);
                let gn = spec_group(s@, pos as int, open, open_pos as int, depth as nat);
                lemma_tks_view_push(ts0, Tk::Error);
                lemma_diags_view_push(ds0, dgv);
                assert(diag_view(dgv) == DiagView::UnexpectedInput {
                    found: Some(c),
                    expected: Seq::<Option<char>>::empty(),
                    span: span_at(p0),
                });
                assert(tks_view(toks@) + gn.toks =~= tks_view(ts0) + g.toks);
                assert(diags_view(diags@) + gn.diags =~= diags_view(ds0) + g.diags);
            }
        } else if ident_start_char(c) {
            let idstart = pos;
            let mut text: Vec<char> = Vec::new();
            let mut j: usize = pos;
            while j < s.len() && ident_char(s[j])
                invariant
                    idstart <= j <= s@.len(),
                    scan_ident_end(s@, idstart as int) == scan_ident_end(s@, j as int),
                    text@ =~= s@.subrange(idstart as int, j as int),
                decreases s@.len() - j,
            {
                text.push(s[j]);
                j = j + 1;
                proof {
                    assert(text@ =~= s@.subrange(idstart as int, j as int));
                }
            }
            let ghost e = scan_ident_end(s@, idstart as int);
            proof {
                lemma_scan_ident_ge(s@, idstart as int + 1);
                assert(e == j as int);
                assert(e >= idstart + 1);
                assert(step_to(e, p0, s@.len() as int) == j as int);
            }
            let ghost ts0 = toks@;
            let ghost t0 = text@;
            let tok = match kw_of_chars(&text) {
                Some(k) => Tk::Kw(k),
                None => Tk::Ident(chars_to_string(text)),
            };
            let ghost tokv = tok;
            toks.push(tok);
            pos = j;
            proof {
                lemma_sg_ident(s@, p0, open, open_pos as int, depth as nat);
                let gn = spec_group(s@, pos as int, open, open_pos as int, depth as nat);
                lemma_tks_view_push(ts0, tokv);
                assert(tk_view(tokv) == (match kw_of_text(t0) {
                    Option::Some(k) => TkView::Kw(k),
                    Option::None => TkView::Ident(t0),
                }));
                assert(tks_view(toks@) + gn.toks =~= tks_view(ts0) + g.toks);
                assert(diags_view(diags@) + gn.diags =~= diags_view(diags@) + g.diags);
            }
        } else if Sym::by_char(c).is_some() {
            let sy = Sym::by_char(c).unwrap();
            let ghost ts0 = toks@;
            toks.push(Tk::Sym(sy));
            pos = pos + 1;
            proof {
                lemma_sg_sym(s@, p0, open, open_pos as int, depth as nat);
                let gn = spec_group(s@, pos as int, open, open_pos as int, depth as nat);
                lemma_tks_view_push(ts0, Tk::Sym(sy));
                assert(tks_view(toks@) + gn.toks =~= tks_view(ts0) + g.toks);
                assert(diags_view(diags@) + gn.diags =~= diags_view(diags@) + g.diags);
            }
        } else if num_radix_at_x(s, pos).is_some() {
            let (radix, dstart) = num_radix_at_x(s, pos).unwrap();
            let mut text: Vec<char> = Vec::new();
            let mut j: usize = dstart;
            proof {
                assert(radix == 2 || radix == 8 || radix == 10 || radix == 16);
                assert(text@ =~= s@.subrange(dstart as int, dstart as int));
            }
            while j < s.len() && crate::num::digit_of(s[j], radix).is_some()
                invariant
                    dstart <= j <= s@.len(),
                    radix == 2 || radix == 8 || radix == 10 || radix == 16,
                    scan_digits_end(s@, dstart as int, radix) == scan_digits_end(
                        s@,
                        j as int,
                        radix,
                    ),
                    forall|k: int| dstart <= k < j ==> is_digit(s@[k], radix),
                    text@ =~= s@.subrange(dstart as int, j as int),
                decreases s@.len() - j,
            {
                text.push(s[j]);
                j = j + 1;
                proof {
                    assert(text@ =~= s@.subrange(dstart as int, j as int));
                }
            }
            let ghost dend = scan_digits_end(s@, dstart as int, radix);
            proof {
                assert(dend == j as int);
            }
            if j == dstart {
                let found: Option<char> = if dstart < s.len() {
                    Some(s[dstart])
                } else {
                    None
                };
                let ghost ts0 = toks@;
                let ghost ds0 = diags@;
                toks.push(Tk::Error);
                let dg = Diag::UnexpectedInput {
                    found,
                    expected: Vec::new(),
                    span: Span { start: pos, end: dstart },
                };
                let ghost dgv = dg;
                diags.push(dg);
                pos = if dstart > pos {
                    dstart
                } else {
                    pos + 1
                };
                proof {
                    lemma_sg_num(s@, p0, open, open_pos as int, depth as nat);
                    assert(pos as int == step_to(dend, p0, s@.len() as int));
                    let gn = spec_group(s@, pos as int, open, open_pos as int, depth as nat);
                    lemma_tks_view_push(ts0, Tk::Error);
                    lemma_diags_view_push(ds0, dgv);
                    assert(diag_view(dgv) == DiagView::UnexpectedInput {
                        found,
                        expected: Seq::<Option<char>>::empty(),
                        span: Span { start: p0 as usize, end: dend as usize },
                    });
                    assert(tks_view(toks@) + gn.toks =~= tks_view(ts0) + g.toks);
                    assert(diags_view(diags@) + gn.diags =~= diags_view(ds0) + g.diags);
                }
            } else {
                let (width, send) = suffix_at_x(s, j);
                let ghost ts0 = toks@;
                let ghost ds0 = diags@;
                let ghost t0 = text@;
                match readint(&text, radix, width) {
                    Some(n) => {
                        toks.push(Tk::Num(n));
                        pos = send;
                        proof {
                            lemma_sg_num(s@, p0, open, open_pos as int, depth as nat);
                            assert(pos as int == step_to(suffix_at(s@, dend).1, p0, s@.len() as int));
                            let gn = spec_group(s@, pos as int, open, open_pos as int, depth as nat);
                            lemma_tks_view_push(ts0, Tk::Num(n));
                            assert(tks_view(toks@) + gn.toks =~= tks_view(ts0) + g.toks);
                            assert(diags_view(diags@) + gn.diags =~= diags_view(ds0) + g.diags);
                        }
                    },
                    None => {
                        toks.push(Tk::Error);
                        let dg = Diag::InvalidNumber {
                            text: chars_to_string(text),
                            radix,
                            width,
                            span: Span { start: pos, end: send },
                        };
                        let ghost dgv = dg;
                        diags.push(dg);
                        pos = send;
                        proof {
                            lemma_sg_num(s@, p0, open, open_pos as int, depth as nat);
                            assert(pos as int == step_to(suffix_at(s@, dend).1, p0, s@.len() as int));
                            let gn = spec_group(s@, pos as int, open, open_pos as int, depth as nat);
                            lemma_tks_view_push(ts0, Tk::Error);
                            lemma_diags_view_push(ds0, dgv);
                            assert(diag_view(dgv) == DiagView::InvalidNumber {
                                text: t0,
                                radix,
                                width,
                                span: Span { start: p0 as usize, end: suffix_at(s@, dend).1 as usize },
                            });
                            assert(tks_view(toks@) + gn.toks =~= tks_view(ts0) + g.toks);
                            assert(diags_view(diags@) + gn.diags =~= diags_view(ds0) + g.diags);
                        }
                    },
                }
            }
        } else if Delim::by_opening(c).is_some() {
            let d2 = Delim::by_opening(c).unwrap();
            if depth >= MAX_DEPTH {
                let mut j: usize = pos + 1;
                let mut level: usize = 1;
                while j < s.len() && level > 0
                    invariant
                        pos + 1 <= j <= s@.len(),
                        level <= j,
                        skip_balanced(s@, p0 + 1, 1) == skip_balanced(s@, j as int, level as int),
                    decreases s@.len() - j,
                {
                    let cj = s[j];
                    if Delim::by_opening(cj).is_some() {
                        level = level + 1;
                    } else if Delim::by_closing(cj).is_some() {
                        level = level - 1;
                    }
                    j = j + 1;
                }
                let ghost ts0 = toks@;
                let ghost ds0 = diags@;
                toks.push(Tk::Error);
                let dg = Diag::NestingTooDeep { span: Span { start: pos, end: pos + 1 } };
                diags.push(dg);
                pos = j;
                proof {
                    lemma_sg_deep(s@, p0, open, open_pos as int, depth as nat);
                    assert(skip_balanced(s@, j as int, level as int) == j as int);
                    assert(pos as int == step_to(skip_balanced(s@, p0 + 1, 1), p0, s@.len() as int));
                    let gn = spec_group(s@, pos as int, open, open_pos as int, depth as nat);
                    lemma_tks_view_push(ts0, Tk::Error);
                    lemma_diags_view_push(ds0, dg);
                    assert(tks_view(toks@) + gn.toks =~= tks_view(ts0) + g.toks);
                    assert(diags_view(diags@) + gn.diags =~= diags_view(ds0) + g.diags);
                }
            } else {
                let (itoks, mut idiags, iend, iclosed) = lex_group(
                    s,
                    pos + 1,
                    Some(d2),
                    pos,
                    depth + 1,
                );
                let ghost ts0 = toks@;
                let ghost ds0 = diags@;
                let ghost inner = spec_group(s@, p0 + 1, Some(d2), p0, (depth + 1) as nat);
                let ghost ids0 = idiags@;
                let tok = if iclosed {
                    Tk::Delim(d2, itoks)
                } else {
                    Tk::Error
                };
                let ghost tokv = tok;
                toks.push(tok);
                diags.append(&mut idiags);
                pos = iend;
                proof {
                    lemma_sg_open(s@, p0, open, open_pos as int, depth as nat);
                    assert(pos as int == step_to(inner.end, p0, s@.len() as int));
                    let gn = spec_group(s@, pos as int, open, open_pos as int, depth as nat);
                    lemma_tks_view_push(ts0, tokv);
                    assert(tk_view(tokv) == (if inner.closed {
                        TkView::Delim(d2, inner.toks)
                    } else {
                        TkView::Error
                    }));
                    lemma_diags_view_concat(ds0, ids0);
                    assert(diags_view(diags@) =~= diags_view(ds0) + inner.diags);
                    assert(tks_view(toks@) + gn.toks =~= tks_view(ts0) + g.toks);
                    assert(diags_view(diags@) + gn.diags =~= diags_view(ds0) + g.diags);
                }
            }
        } else {
            let mut exp: Vec<Option<char>> = Vec::new();
            if c == '\\' {
                exp.push(Some('x'));
                exp.push(Some('d'));
                exp.push(Some('o'));
                exp.push(Some('b'));
                proof {
                    assert(exp@ =~= seq![Some('x'), Some('d'), Some('o'), Some('b')]);
                }
            } else {
                proof {
                    assert(exp@ =~= Seq::<Option<char>>::empty());
                }
            }
            let ghost ts0 = toks@;
            let ghost ds0 = diags@;
            let ghost expv = exp@;
            toks.push(Tk::Error);
            let dg = Diag::UnexpectedInput {
                found: Some(c),
                expected: exp,
                span: Span { start: pos, end: pos + 1 },
            };
            let ghost dgv = dg;
            diags.push(dg);
            pos = pos + 1;
            proof {
                lemma_sg_unexpected(s@, p0, open, open_pos as int, depth as nat);
                let gn = spec_group(s@, pos as int, open, open_pos as int, depth as nat);
                lemma_tks_view_push(ts0, Tk::Error);
                lemma_diags_view_push(ds0, dgv);
                assert(diag_view(dgv) == DiagView::UnexpectedInput {
                    found: Some(c),
                    expected: expv,
                    span: span_at(p0),
                });
                assert(tks_view(toks@) + gn.toks =~= tks_view(ts0) + g.toks);
                assert(diags_view(diags@) + gn.diags =~= diags_view(ds0) + g.diags);
            }
        }
    }
}

/// Tokenizes a whole input: the token tree and the diagnostics, exactly
/// as `spec_lex` says. The tree is complete and the diagnostics empty on
/// well-formed input; on malformed input the tree is the recovered one.
pub fn lexer(input: &str) -> (r: (Vec<Tk>, Vec<Diag>))
    ensures
        tks_view(r.0@) == spec_lex(input@).0,
        diags_view(r.1@) == spec_lex(input@).1,
{
    let cs = str_chars(input);
    let (toks, diags, _end, _closed) = lex_group(&cs, 0, None, 0, 0);
    (toks, diags)
}

/// Tokenizes a whole input, as `lexer` does, and splits the outcome: the
/// token tree alone when there is no diagnostic, otherwise the non-empty
/// diagnostic list together with the recovered tree, which recovery
/// always produces.
pub fn lex(input: &str) -> (r: Result<Vec<Tk>, (Vec<Diag>, Option<Vec<Tk>>)>)
    ensures
        spec_lex(input@).1.len() == 0 ==> r is Ok && tks_view(r->Ok_0@) == spec_lex(input@).0,
        spec_lex(input@).1.len() != 0 ==> r is Err && diags_view(r->Err_0.0@) == spec_lex(
            input@,
        ).1 && r->Err_0.1 is Some && tks_view(r->Err_0.1->0@) == spec_lex(input@).0,
{
    let (toks, diags) = lexer(input);
    if diags.len() == 0 {
        proof {
            assert(diags_view(diags@).len() == 0);
        }
        Ok(toks)
    } else {
        proof {
            assert(diags_view(diags@).len() != 0);
        }
        Err((diags, Some(toks)))
    }
}

} // verus!
