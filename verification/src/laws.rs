//! Laws of the tokenizer, stated over the specification model and proved
//! once for all inputs: the keyword/identifier boundary, and the round
//! trip from a well-formed token tree through its canonical rendering
//! back to the same tree.

use vstd::prelude::*;
use crate::lexer::{
    is_ident_char, is_ident_start, is_ws, lemma_sg_close, lemma_sg_eof, lemma_sg_ident,
    lemma_sg_num, lemma_sg_open, lemma_sg_sym, lemma_sg_ws, num_radix_at, scan_digits_end,
    scan_ident_end, spec_group, spec_lex, suffix_at, DiagView, GroupRes, MAX_DEPTH,
};
use crate::num::{
    dec_digits, digit_char, digits_val, is_digit, num_of, num_value, num_width, render_num,
    width_max, Num,
};
use crate::tables::{
    delim_by_closing, delim_by_opening, delim_close, delim_open, kw_of_text, kw_text, sym_char,
    sym_of_char, Delim, Kw, Sym,
};
use crate::token::{render_tok, render_toks, render_toks_from, TkView};

verus! {

/// Scanning an identifier run ends exactly where the run does.
pub proof fn lemma_scan_ident_exact(s: Seq<char>, a: int, b: int)
    requires
        0 <= a <= b <= s.len(),
        forall|k: int| a <= k < b ==> is_ident_char(s[k]),
        b == s.len() || !is_ident_char(s[b]),
    ensures
        scan_ident_end(s, a) == b,
    decreases b - a,
{
    if a < b {
        lemma_scan_ident_exact(s, a + 1, b);
    }
}

/// Keyword/identifier boundary: identifier-shaped text, on its own,
/// always tokenizes as one token and without diagnostics; it is the
/// keyword of exactly that canonical text where one exists, else an
/// identifier holding the text itself.
pub proof fn lemma_keyword_identifier_boundary(t: Seq<char>)
    requires
        t.len() > 0,
        is_ident_start(t[0]),
        forall|i: int| 0 <= i < t.len() ==> is_ident_char(t[i]),
    ensures
        spec_lex(t).1 == Seq::<DiagView>::empty(),
        kw_of_text(t) is Some ==> spec_lex(t).0 == seq![TkView::Kw(kw_of_text(t)->0)],
        kw_of_text(t) is None ==> spec_lex(t).0 == seq![TkView::Ident(t)],
{
    let open: Option<Delim> = None;
    lemma_scan_ident_exact(t, 0, t.len() as int);
    lemma_sg_ident(t, 0, open, 0, 0);
    lemma_sg_eof(t, t.len() as int, open, 0, 0);
    assert(t.subrange(0, t.len() as int) =~= t);
    let g = spec_group(t, 0, open, 0, 0);
    assert(g.toks =~= seq![
        match kw_of_text(t) {
            Option::Some(k) => TkView::Kw(k),
            Option::None => TkView::Ident(t),
        },
    ]);
    assert(g.diags =~= Seq::<DiagView>::empty());
}

/// A token the tokenizer itself could have produced at the given group
/// depth: identifiers are identifier-shaped and never a keyword's text,
/// numbers are non-negative, groups lie under the nesting cap and hold
/// well-formed children, and no error marker appears.
pub open spec fn wf_tok(t: TkView, depth: nat) -> bool
    decreases t,
{
    match t {
        TkView::Ident(s) => s.len() > 0 && is_ident_start(s[0]) && (forall|k: int|
            0 <= k < s.len() ==> is_ident_char(s[k])) && kw_of_text(s) is None,
        TkView::Kw(_) => true,
        TkView::Sym(_) => true,
        TkView::Num(n) => num_value(n) >= 0,
        TkView::Delim(_, ts) => depth < MAX_DEPTH && wf_toks(ts, 0, (depth + 1) as nat),
        TkView::Error => false,
    }
}

/// Well-formedness of the tokens of `ts` from index `i` on.
pub open spec fn wf_toks(ts: Seq<TkView>, i: int, depth: nat) -> bool
    decreases ts, ts.len() - i,
{
    if i < 0 || i >= ts.len() {
        true
    } else {
        wf_tok(ts[i], depth) && wf_toks(ts, i + 1, depth)
    }
}

/// Scanning a digit run ends exactly where the run does.
pub proof fn lemma_scan_digits_exact(s: Seq<char>, a: int, b: int, radix: u32)
    requires
        0 <= a <= b <= s.len(),
        forall|k: int| a <= k < b ==> is_digit(s[k], radix),
        b == s.len() || !is_digit(s[b], radix),
    ensures
        scan_digits_end(s, a, radix) == b,
    decreases b - a,
{
    if a < b {
        lemma_scan_digits_exact(s, a + 1, b, radix);
    }
}

/// A digit's character reads back as the digit.
pub proof fn lemma_digit_char_val(d: int)
    requires
        0 <= d < 10,
    ensures
        digit_char(d) as u32 >= 48,
        crate::num::digit_val(digit_char(d)) == d,
{
}

/// The decimal digits of `v` are a non-empty run of decimal digit
/// characters that reads back as `v`.
pub proof fn lemma_dec_digits(v: nat)
    ensures
        dec_digits(v).len() >= 1,
        forall|k: int| 0 <= k < dec_digits(v).len() ==> is_digit(#[trigger] dec_digits(v)[k], 10),
        digits_val(dec_digits(v), 10) == v,
    decreases v,
{
    if v < 10 {
        lemma_digit_char_val(v as int);
        assert(dec_digits(v) == seq![digit_char(v as int)]);
        assert(dec_digits(v).drop_last() =~= Seq::<char>::empty());
        assert(dec_digits(v).last() == digit_char(v as int));
        assert(digits_val(Seq::<char>::empty(), 10) == 0);
    } else {
        lemma_dec_digits(v / 10);
        lemma_digit_char_val((v % 10) as int);
        let d = dec_digits(v);
        let x = dec_digits(v / 10);
        let c = digit_char((v % 10) as int);
        assert(d == x + seq![c]);
        assert(d.drop_last() =~= x);
        assert(d.last() == c);
        assert forall|k: int| 0 <= k < d.len() implies is_digit(#[trigger] d[k], 10) by {
            if k < x.len() {
                assert(d[k] == x[k]);
            }
        }
    }
}

/// A keyword's canonical text is identifier-shaped and names exactly
/// that keyword.
pub proof fn lemma_kw_text(k: Kw)
    ensures
        kw_text(k).len() > 0,
        is_ident_start(kw_text(k)[0]),
        forall|j: int| 0 <= j < kw_text(k).len() ==> is_ident_char(#[trigger] kw_text(k)[j]),
        kw_of_text(kw_text(k)) == Some(k),
{
    assert(kw_text(Kw::Fn).len() == 2);
    assert(kw_text(Kw::Class).len() == 5);
    assert(kw_text(Kw::Struct).len() == 6);
    assert forall|j: int| 0 <= j < kw_text(k).len() implies is_ident_char(
        #[trigger] kw_text(k)[j],
    ) by {
        match k {
            Kw::Fn => {
                assert(kw_text(k)[j] == 'f' || kw_text(k)[j] == 'n');
            },
            Kw::Class => {
                assert(kw_text(k)[j] == 'c' || kw_text(k)[j] == 'l' || kw_text(k)[j] == 'a'
                    || kw_text(k)[j] == 's');
            },
            Kw::Struct => {
                assert(kw_text(k)[j] == 's' || kw_text(k)[j] == 't' || kw_text(k)[j] == 'r'
                    || kw_text(k)[j] == 'u' || kw_text(k)[j] == 'c');
            },
        }
    }
}

/// A region that renders a concatenation splits at the concatenation.
pub proof fn lemma_region_split(s: Seq<char>, p: int, e: int, a: Seq<char>, b: Seq<char>)
    requires
        0 <= p <= e <= s.len(),
        s.subrange(p, e) == a + b,
    ensures
        e - p == a.len() + b.len(),
        s.subrange(p, p + a.len()) == a,
        s.subrange(p + a.len(), e) == b,
{
    assert(s.subrange(p, e).len() == a.len() + b.len());
    assert(s.subrange(p, p + a.len() as int) =~= a) by {
        assert forall|k: int| 0 <= k < a.len() implies s.subrange(p, p + a.len() as int)[k]
            == a[k] by {
            assert(s.subrange(p, e)[k] == (a + b)[k]);
        }
    }
    assert(s.subrange(p + a.len(), e) =~= b) by {
        assert forall|k: int| 0 <= k < b.len() implies s.subrange(p + a.len() as int, e)[k]
            == b[k] by {
            assert(s.subrange(p + a.len() as int, e)[k] == s[p + a.len() + k]);
            assert(s.subrange(p, e)[a.len() + k] == s[p + a.len() + k]);
            assert(s.subrange(p, e)[a.len() + k] == (a + b)[a.len() + k]);
            assert((a + b)[a.len() + k] == b[k]);
        }
    }
}

/// A symbol's character is recognized as that symbol and as nothing
/// before it in the grammar's priority.
pub proof fn lemma_sym_char(sy: Sym)
    ensures
        sym_of_char(sym_char(sy)) == Some(sy),
        !is_ws(sym_char(sy)),
        !is_ident_start(sym_char(sy)),
        delim_by_closing(sym_char(sy)) is None,
{
}

/// Parsing what a well-formed token suffix renders, inside a region that
/// ends with the open group's closer (or at end of input at top level),
/// yields exactly those tokens, no diagnostics, and a proper close.
pub proof fn lemma_parse_render(
    s: Seq<char>,
    p: int,
    e: int,
    ts: Seq<TkView>,
    i: int,
    open: Option<Delim>,
    open_pos: int,
    depth: nat,
)
    requires
        0 <= i <= ts.len(),
        0 <= p <= e <= s.len(),
        s.subrange(p, e) == render_toks_from(ts, i),
        wf_toks(ts, i, depth),
        match open {
            Option::None => e == s.len(),
            Option::Some(d) => e < s.len() && s[e] == delim_close(d),
        },
    ensures
        spec_group(s, p, open, open_pos, depth) == (GroupRes {
            toks: ts.subrange(i, ts.len() as int),
            diags: Seq::<DiagView>::empty(),
            end: if open is Some {
                e + 1
            } else {
                e
            },
            closed: true,
        }),
    decreases ts, ts.len() - i,
{
    if i == ts.len() {
        assert(render_toks_from(ts, i).len() == 0);
        assert(p == e);
        assert(ts.subrange(i, ts.len() as int) =~= Seq::<TkView>::empty());
        match open {
            Option::None => {
                lemma_sg_eof(s, p, open, open_pos, depth);
            },
            Option::Some(d) => {
                lemma_sg_close(s, p, open, open_pos, depth);
            },
        }
    } else {
        let t0 = ts[i];
        assert(wf_tok(t0, depth) && wf_toks(ts, i + 1, depth)) by {
            assert(wf_toks(ts, i, depth));
        }
        let r0 = render_tok(t0);
        let rest_part: Seq<char> = if i == ts.len() - 1 {
            Seq::empty()
        } else {
            seq![' '] + render_toks_from(ts, i + 1)
        };
        assert(s.subrange(p, e) =~= r0 + rest_part);
        lemma_region_split(s, p, e, r0, rest_part);
        let e0 = p + r0.len() as int;
        assert(s.subrange(p, e0) == r0);
        assert(forall|k: int| 0 <= k < r0.len() ==> s[p + k] == #[trigger] r0[k]) by {
            assert(forall|k: int|
                0 <= k < r0.len() ==> s.subrange(p, e0)[k] == s[p + k] && s.subrange(p, e0)[k]
                    == #[trigger] r0[k]);
        }
        // the character after the first token's rendering
        if i < ts.len() - 1 {
            assert(s.subrange(e0, e)[0] == rest_part[0]);
            assert(s[e0] == ' ');
        }
        let rest = spec_group(s, e0, open, open_pos, depth);
        let tail = ts.subrange(i + 1, ts.len() as int);
        // the rest of the group parses by induction
        if i == ts.len() - 1 {
            assert(e0 == e);
            lemma_parse_render(s, e0, e, ts, i + 1, open, open_pos, depth);
        } else {
            lemma_sg_ws(s, e0, open, open_pos, depth);
            assert(s.subrange(e0 + 1, e) =~= render_toks_from(ts, i + 1)) by {
                assert(s.subrange(e0, e) == rest_part);
                assert forall|k: int|
                    0 <= k < render_toks_from(ts, i + 1).len() implies #[trigger] s.subrange(
                    e0 + 1,
                    e,
                )[k] == render_toks_from(ts, i + 1)[k] by {
                    assert(s.subrange(e0, e)[k + 1] == rest_part[k + 1]);
                }
            }
            lemma_parse_render(s, e0 + 1, e, ts, i + 1, open, open_pos, depth);
        }
        assert(rest == GroupRes {
            toks: tail,
            diags: Seq::<DiagView>::empty(),
            end: if open is Some {
                e + 1
            } else {
                e
            },
            closed: true,
        });
        // the first token parses as itself
        let c = s[p];
        match t0 {
            TkView::Ident(txt) => {
                assert(r0 == txt);
                assert(s[p + 0] == r0[0]);
                assert(c == txt[0]);
                assert forall|k: int| p <= k < e0 implies is_ident_char(s[k]) by {
                    assert(s[p + (k - p)] == r0[k - p]);
                }
                assert(e0 == s.len() || !is_ident_char(s[e0]));
                lemma_scan_ident_exact(s, p, e0);
                lemma_sg_ident(s, p, open, open_pos, depth);
                assert(s.subrange(p, e0) == txt);
            },
            TkView::Kw(k) => {
                lemma_kw_text(k);
                assert(r0 == kw_text(k));
                assert(s[p + 0] == r0[0]);
                assert(c == kw_text(k)[0]);
                assert forall|k2: int| p <= k2 < e0 implies is_ident_char(s[k2]) by {
                    assert(s[p + (k2 - p)] == r0[k2 - p]);
                }
                assert(e0 == s.len() || !is_ident_char(s[e0]));
                lemma_scan_ident_exact(s, p, e0);
                lemma_sg_ident(s, p, open, open_pos, depth);
                assert(s.subrange(p, e0) == kw_text(k));
            },
            TkView::Sym(sy) => {
                lemma_sym_char(sy);
                assert(r0 == seq![sym_char(sy)]);
                assert(s[p + 0] == r0[0]);
                assert(c == sym_char(sy));
                lemma_sg_sym(s, p, open, open_pos, depth);
            },
            TkView::Num(n) => {
                lemma_parse_render_num(s, p, e0, e, n, open, open_pos, depth);
            },
            TkView::Delim(d, ch) => {
                assert(r0 == seq![delim_open(d)] + render_toks_from(ch, 0) + seq![delim_close(d)]);
                assert(s[p + 0] == r0[0]);
                assert(c == delim_open(d));
                assert(s[e0 - 1] == r0[r0.len() - 1]);
                assert(s[e0 - 1] == delim_close(d));
                assert(s.subrange(p + 1, e0 - 1) =~= render_toks_from(ch, 0)) by {
                    assert forall|k: int| 0 <= k < render_toks_from(ch, 0).len() implies s.subrange(
                        p + 1,
                        e0 - 1,
                    )[k] == render_toks_from(ch, 0)[k] by {
                        assert(r0[k + 1] == (seq![delim_open(d)] + render_toks_from(ch, 0))[k + 1]);
                        assert(s[p + (k + 1)] == r0[k + 1]);
                    }
                }
                lemma_parse_render(s, p + 1, e0 - 1, ch, 0, Some(d), p, (depth + 1) as nat);
                assert(ch.subrange(0, ch.len() as int) =~= ch);
                lemma_sg_open(s, p, open, open_pos, depth);
            },
            TkView::Error => {
                assert(false);
            },
        }
        // combine the first token with the rest
        let g = spec_group(s, p, open, open_pos, depth);
        assert(g.toks =~= ts.subrange(i, ts.len() as int)) by {
            assert(g.toks == seq![t0] + tail);
            assert forall|k: int| 0 <= k < ts.len() - i implies (seq![t0] + tail)[k]
                == ts.subrange(i, ts.len() as int)[k] by {
                if k > 0 {
                    assert(tail[k - 1] == ts[i + k]);
                }
            }
        }
        assert(g.diags =~= Seq::<DiagView>::empty());
    }
}

/// A rendered numeric token parses back to itself: its digits read in
/// decimal, its width suffix chosen exactly.
proof fn lemma_parse_render_num(
    s: Seq<char>,
    p: int,
    e0: int,
    e: int,
    n: Num,
    open: Option<Delim>,
    open_pos: int,
    depth: nat,
)
    requires
        0 <= p < e0 <= e <= s.len(),
        num_value(n) >= 0,
        s.subrange(p, e0) == render_num(n),
        e0 == e || s[e0] == ' ',
        match open {
            Option::None => e == s.len(),
            Option::Some(d) => e < s.len() && s[e] == delim_close(d),
        },
    ensures
        spec_group(s, p, open, open_pos, depth) == crate::lexer::cons_res(
            TkView::Num(n),
            Seq::<DiagView>::empty(),
            spec_group(s, e0, open, open_pos, depth),
        ),
{
    let v = num_value(n) as nat;
    let w = num_width(n);
    let dd = dec_digits(v);
    let wd = dec_digits(w as nat);
    lemma_dec_digits(v);
    lemma_dec_digits(w as nat);
    assert(w == 8 || w == 16 || w == 32 || w == 64);
    reveal_with_fuel(dec_digits, 3);
    assert(wd =~= (if w == 8 {
        seq!['8']
    } else if w == 16 {
        seq!['1', '6']
    } else if w == 32 {
        seq!['3', '2']
    } else {
        seq!['6', '4']
    }));
    assert(render_num(n) == dd + seq![':'] + wd);
    lemma_region_split(s, p, e0, dd + seq![':'], wd);
    lemma_region_split(s, p, p + dd.len() + 1, dd, seq![':']);
    let dend = p + dd.len() as int;
    assert(s.subrange(p, dend) == dd);
    assert(forall|k: int| 0 <= k < dd.len() ==> s[p + k] == #[trigger] dd[k]) by {
        assert(forall|k: int|
            0 <= k < dd.len() ==> s.subrange(p, dend)[k] == s[p + k] && s.subrange(p, dend)[k]
                == #[trigger] dd[k]);
    }
    assert(s.subrange(dend, dend + 1) == seq![':']);
    assert(s[dend] == s.subrange(dend, dend + 1)[0]);
    assert(s[dend] == ':');
    assert(s.subrange(dend + 1, e0) == wd);
    assert(forall|k: int| 0 <= k < wd.len() ==> s[dend + 1 + k] == #[trigger] wd[k]) by {
        assert(forall|k: int|
            0 <= k < wd.len() ==> s.subrange(dend + 1, e0)[k] == s[dend + 1 + k] && s.subrange(
                dend + 1,
                e0,
            )[k] == #[trigger] wd[k]);
    }
    let c = s[p];
    assert(c == dd[0]);
    assert(is_digit(c, 10));
    // a decimal digit starts no other grammar alternative
    assert(!is_ws(c));
    assert(delim_by_closing(c) is None);
    assert(!is_ident_start(c));
    assert(sym_of_char(c) is None);
    assert(c != '\\');
    assert(num_radix_at(s, p) == Some((10u32, p)));
    // the digit run ends at the suffix colon
    assert forall|k: int| p <= k < dend implies is_digit(s[k], 10) by {
        assert(s[p + (k - p)] == dd[k - p]);
    }
    assert(!is_digit(':', 10));
    lemma_scan_digits_exact(s, p, dend, 10);
    assert(digits_val(s.subrange(p, dend), 10) == v);
    // the character after the rendering neither extends the digits nor
    // the suffix
    if e0 < s.len() {
        if e0 == e {
            assert(open is Some);
        } else {
            assert(s[e0] == ' ');
        }
        assert(s[e0] != '8' && s[e0] != '6' && s[e0] != '2' && s[e0] != '4');
    }
    // the suffix chooses exactly the token's width
    assert(suffix_at(s, dend) == (w, e0)) by {
        if w == 8 {
            assert(s[dend + 1] == '8');
        } else if w == 16 {
            assert(s[dend + 1] == '1');
            assert(s[dend + 2] == '6');
        } else if w == 32 {
            assert(s[dend + 1] == '3');
            assert(s[dend + 2] == '2');
        } else {
            assert(s[dend + 1] == '6');
            assert(s[dend + 2] == '4');
        }
    }
    assert(v <= width_max(w));
    assert(num_of(w, v as int) == n);
    lemma_sg_num(s, p, open, open_pos, depth);
}

/// Well-formedness of a token suffix is pointwise well-formedness.
pub proof fn lemma_wf_toks_index(ts: Seq<TkView>, i: int, depth: nat)
    requires
        0 <= i <= ts.len(),
    ensures
        wf_toks(ts, i, depth) <==> (forall|k: int| i <= k < ts.len() ==> wf_tok(#[trigger] ts[k], depth)),
    decreases ts.len() - i,
{
    if i < ts.len() {
        lemma_wf_toks_index(ts, i + 1, depth);
    }
}

/// An identifier scan stays within the input and covers identifier
/// characters only.
pub proof fn lemma_scan_ident_chars(s: Seq<char>, pos: int)
    requires
        0 <= pos <= s.len(),
    ensures
        pos <= scan_ident_end(s, pos) <= s.len(),
        forall|k: int| pos <= k < scan_ident_end(s, pos) ==> is_ident_char(s[k]),
    decreases s.len() - pos,
{
    if pos < s.len() && is_ident_char(s[pos]) {
        lemma_scan_ident_chars(s, pos + 1);
    }
}

/// A digit scan stays within the input and covers digits only.
pub proof fn lemma_scan_digits_chars(s: Seq<char>, pos: int, radix: u32)
    requires
        0 <= pos <= s.len(),
    ensures
        pos <= scan_digits_end(s, pos, radix) <= s.len(),
        forall|k: int| pos <= k < scan_digits_end(s, pos, radix) ==> is_digit(s[k], radix),
    decreases s.len() - pos,
{
    if pos < s.len() && is_digit(s[pos], radix) {
        lemma_scan_digits_chars(s, pos + 1, radix);
    }
}

/// Whatever the tokenizer returns without any diagnostic is a
/// well-formed token sequence; and a group that did not close always
/// left a diagnostic behind.
#[verifier::rlimit(100)]
#[verifier::spinoff_prover]
pub proof fn lemma_lex_output_wf(
    s: Seq<char>,
    pos: int,
    open: Option<Delim>,
    open_pos: int,
    depth: nat,
)
    requires
        0 <= pos <= s.len(),
    ensures
        ({
            let g = spec_group(s, pos, open, open_pos, depth);
            &&& (g.diags.len() == 0 ==> wf_toks(g.toks, 0, depth))
            &&& (!g.closed ==> g.diags.len() >= 1)
        }),
    decreases s.len() - pos,
{
    reveal(spec_group);
    let g = spec_group(s, pos, open, open_pos, depth);
    let len = s.len() as int;
    if pos >= len {
    } else {
        let c = s[pos];
        if is_ws(c) {
            lemma_lex_output_wf(s, pos + 1, open, open_pos, depth);
        } else if open is Some && c == delim_close(open->0) {
        } else if delim_by_closing(c) is Some && open is Some {
        } else if delim_by_closing(c) is Some {
            lemma_lex_output_wf(s, pos + 1, open, open_pos, depth);
        } else if is_ident_start(c) {
            let e = crate::lexer::step_to(scan_ident_end(s, pos), pos, len);
            lemma_scan_ident_chars(s, pos);
            lemma_lex_output_wf(s, e, open, open_pos, depth);
            let rest = spec_group(s, e, open, open_pos, depth);
            if g.diags.len() == 0 {
                let text = s.subrange(pos, e);
                assert(text.len() > 0);
                assert(text[0] == s[pos]);
                assert(forall|k: int| 0 <= k < text.len() ==> text[k] == s[pos + k]);
                let tok = match kw_of_text(text) {
                    Option::Some(k) => TkView::Kw(k),
                    Option::None => TkView::Ident(text),
                };
                assert(wf_tok(tok, depth));
                lemma_wf_toks_index(rest.toks, 0, depth);
                lemma_wf_toks_index(g.toks, 0, depth);
                assert(forall|k: int|
                    1 <= k < g.toks.len() ==> g.toks[k] == rest.toks[k - 1]);
            }
        } else if sym_of_char(c) is Some {
            lemma_lex_output_wf(s, pos + 1, open, open_pos, depth);
            let rest = spec_group(s, pos + 1, open, open_pos, depth);
            if g.diags.len() == 0 {
                lemma_wf_toks_index(rest.toks, 0, depth);
                lemma_wf_toks_index(g.toks, 0, depth);
                assert(forall|k: int|
                    1 <= k < g.toks.len() ==> g.toks[k] == rest.toks[k - 1]);
            }
        } else if num_radix_at(s, pos) is Some {
            let radix = (num_radix_at(s, pos)->0).0;
            let dstart = (num_radix_at(s, pos)->0).1;
            let dend = scan_digits_end(s, dstart, radix);
            lemma_scan_digits_chars(s, dstart, radix);
            if dend == dstart {
                let next = crate::lexer::step_to(dstart, pos, len);
                lemma_lex_output_wf(s, next, open, open_pos, depth);
            } else {
                let width = suffix_at(s, dend).0;
                let send = suffix_at(s, dend).1;
                let v = digits_val(s.subrange(dstart, dend), radix);
                let next = crate::lexer::step_to(send, pos, len);
                lemma_lex_output_wf(s, next, open, open_pos, depth);
                let rest = spec_group(s, next, open, open_pos, depth);
                if g.diags.len() == 0 {
                    assert(forall|k: int|
                        0 <= k < dend - dstart ==> s.subrange(dstart, dend)[k] == s[dstart + k]);
                    crate::num::lemma_digits_val_nonneg(s.subrange(dstart, dend), radix);
                    assert(v <= width_max(width));
                    assert(wf_tok(TkView::Num(num_of(width, v)), depth));
                    lemma_wf_toks_index(rest.toks, 0, depth);
                    lemma_wf_toks_index(g.toks, 0, depth);
                    assert(forall|k: int|
                        1 <= k < g.toks.len() ==> g.toks[k] == rest.toks[k - 1]);
                }
            }
        } else if delim_by_opening(c) is Some {
            let d2 = delim_by_opening(c)->0;
            if depth >= MAX_DEPTH {
                let next = crate::lexer::step_to(
                    crate::lexer::skip_balanced(s, pos + 1, 1),
                    pos,
                    len,
                );
                lemma_lex_output_wf(s, next, open, open_pos, depth);
            } else {
                lemma_lex_output_wf(s, pos + 1, Some(d2), pos, (depth + 1) as nat);
                let inner = spec_group(s, pos + 1, Some(d2), pos, (depth + 1) as nat);
                let next = crate::lexer::step_to(inner.end, pos, len);
                lemma_lex_output_wf(s, next, open, open_pos, depth);
                let rest = spec_group(s, next, open, open_pos, depth);
                if g.diags.len() == 0 {
                    assert(inner.diags.len() == 0);
                    assert(inner.closed);
                    assert(wf_toks(inner.toks, 0, (depth + 1) as nat));
                    assert(wf_tok(TkView::Delim(d2, inner.toks), depth));
                    lemma_wf_toks_index(rest.toks, 0, depth);
                    lemma_wf_toks_index(g.toks, 0, depth);
                    assert(forall|k: int|
                        1 <= k < g.toks.len() ==> g.toks[k] == rest.toks[k - 1]);
                }
            }
        } else {
            lemma_lex_output_wf(s, pos + 1, open, open_pos, depth);
        }
    }
}

/// Round trip, stated over trees: rendering a well-formed token tree and
/// tokenizing the rendering yields exactly that tree, with no
/// diagnostics.
pub proof fn lemma_render_round_trip(ts: Seq<TkView>)
    requires
        wf_toks(ts, 0, 0),
    ensures
        spec_lex(render_toks(ts)).0 == ts,
        spec_lex(render_toks(ts)).1 == Seq::<DiagView>::empty(),
{
    let s = render_toks(ts);
    assert(s.subrange(0, s.len() as int) =~= s);
    lemma_parse_render(s, 0, s.len() as int, ts, 0, None, 0, 0);
    assert(ts.subrange(0, ts.len() as int) =~= ts);
}

/// Round trip: for any successfully tokenized input, rendering the
/// resulting tree canonically and tokenizing it again yields a tree
/// equal to the original, again without diagnostics.
pub proof fn lemma_round_trip(s: Seq<char>)
    requires
        spec_lex(s).1.len() == 0,
    ensures
        spec_lex(render_toks(spec_lex(s).0)).0 == spec_lex(s).0,
        spec_lex(render_toks(spec_lex(s).0)).1.len() == 0,
{
    lemma_lex_output_wf(s, 0, None, 0, 0);
    lemma_render_round_trip(spec_lex(s).0);
}

/// The bracket text of one token of a bracket-only tree.
pub open spec fn flat_tok(t: TkView) -> Seq<char>
    decreases t,
{
    match t {
        TkView::Delim(d, ts) => seq![delim_open(d)] + flat_from(ts, 0) + seq![delim_close(d)],
        _ => Seq::empty(),
    }
}

/// The bracket text of the tokens of `ts` from `i` on, with nothing in
/// between.
pub open spec fn flat_from(ts: Seq<TkView>, i: int) -> Seq<char>
    decreases ts, ts.len() - i,
{
    if i < 0 || i >= ts.len() {
        Seq::empty()
    } else {
        flat_tok(ts[i]) + flat_from(ts, i + 1)
    }
}

/// A token of a bracket-only tree under the nesting cap.
pub open spec fn brk_tok(t: TkView, depth: nat) -> bool
    decreases t,
{
    match t {
        TkView::Delim(_, ts) => depth < MAX_DEPTH && brk_toks(ts, 0, (depth + 1) as nat),
        _ => false,
    }
}

/// Bracket-only well-formedness of the tokens of `ts` from `i` on.
pub open spec fn brk_toks(ts: Seq<TkView>, i: int, depth: nat) -> bool
    decreases ts, ts.len() - i,
{
    if i < 0 || i >= ts.len() {
        true
    } else {
        brk_tok(ts[i], depth) && brk_toks(ts, i + 1, depth)
    }
}

/// Nesting depth of one token: how deep `Delim` tokens nest in it.
pub open spec fn tok_depth(t: TkView) -> int
    decreases t,
{
    match t {
        TkView::Delim(_, ts) => 1 + toks_depth(ts, 0),
        _ => 0,
    }
}

/// Maximum nesting depth of the tokens of `ts` from `i` on.
pub open spec fn toks_depth(ts: Seq<TkView>, i: int) -> int
    decreases ts, ts.len() - i,
{
    if i < 0 || i >= ts.len() {
        0
    } else if tok_depth(ts[i]) >= toks_depth(ts, i + 1) {
        tok_depth(ts[i])
    } else {
        toks_depth(ts, i + 1)
    }
}

/// The bracket weight of a character: openers count up, closers down.
pub open spec fn bracket_weight(c: char) -> int {
    if delim_by_opening(c) is Some {
        1
    } else if delim_by_closing(c) is Some {
        -1
    } else {
        0
    }
}

/// Net bracket balance of a text.
pub open spec fn net(s: Seq<char>) -> int
    decreases s.len(),
{
    if s.len() == 0 {
        0
    } else {
        net(s.drop_last()) + bracket_weight(s.last())
    }
}

/// Maximum bracket nesting depth of a text: the largest net balance of
/// any of its prefixes.
pub open spec fn max_nesting(s: Seq<char>) -> int
    decreases s.len(),
{
    if s.len() == 0 {
        0
    } else if max_nesting(s.drop_last()) >= net(s) {
        max_nesting(s.drop_last())
    } else {
        net(s)
    }
}

/// The nesting depth of a text bounds its balance and is never negative.
pub proof fn lemma_max_nesting_ge(s: Seq<char>)
    ensures
        max_nesting(s) >= net(s) || s.len() == 0,
        max_nesting(s) >= 0,
    decreases s.len(),
{
    if s.len() > 0 {
        lemma_max_nesting_ge(s.drop_last());
    }
}

/// Balance adds over concatenation.
pub proof fn lemma_net_concat(a: Seq<char>, b: Seq<char>)
    ensures
        net(a + b) == net(a) + net(b),
    decreases b.len(),
{
    if b.len() == 0 {
        assert(a + b =~= a);
    } else {
        lemma_net_concat(a, b.drop_last());
        assert((a + b).drop_last() =~= a + b.drop_last());
        assert((a + b).last() == b.last());
    }
}

/// Nesting depth over a concatenation: the left part's, or the left
/// balance plus the right part's.
pub proof fn lemma_max_nesting_concat(a: Seq<char>, b: Seq<char>)
    ensures
        max_nesting(a + b) == if max_nesting(a) >= net(a) + max_nesting(b) {
            max_nesting(a)
        } else {
            net(a) + max_nesting(b)
        },
    decreases b.len(),
{
    lemma_max_nesting_ge(a);
    lemma_max_nesting_ge(b);
    if b.len() == 0 {
        assert(a + b =~= a);
    } else {
        lemma_max_nesting_concat(a, b.drop_last());
        lemma_max_nesting_ge(b.drop_last());
        lemma_net_concat(a, b);
        lemma_net_concat(a, b.drop_last());
        assert((a + b).drop_last() =~= a + b.drop_last());
        assert((a + b).last() == b.last());
    }
}

/// The bracket text of a tree is balanced, and its nesting depth is the
/// tree's.
pub proof fn lemma_flat_depth(ts: Seq<TkView>, i: int)
    requires
        0 <= i <= ts.len(),
    ensures
        net(flat_from(ts, i)) == 0,
        max_nesting(flat_from(ts, i)) == toks_depth(ts, i),
    decreases ts, ts.len() - i, 1int,
{
    if i < ts.len() {
        lemma_flat_tok_depth(ts[i]);
        lemma_flat_depth(ts, i + 1);
        lemma_net_concat(flat_tok(ts[i]), flat_from(ts, i + 1));
        lemma_max_nesting_concat(flat_tok(ts[i]), flat_from(ts, i + 1));
        lemma_max_nesting_ge(flat_tok(ts[i]));
        lemma_max_nesting_ge(flat_from(ts, i + 1));
    }
}

/// The bracket text of one token is balanced, and its nesting depth is
/// the token's.
pub proof fn lemma_flat_tok_depth(t: TkView)
    ensures
        net(flat_tok(t)) == 0,
        max_nesting(flat_tok(t)) == tok_depth(t),
    decreases t, 2int,
{
    match t {
        TkView::Delim(d, ts) => {
            lemma_flat_depth(ts, 0);
            let a = seq![delim_open(d)];
            let m = flat_from(ts, 0);
            let z = seq![delim_close(d)];
            assert(a.drop_last() =~= Seq::<char>::empty());
            assert(z.drop_last() =~= Seq::<char>::empty());
            assert(net(Seq::<char>::empty()) == 0);
            assert(max_nesting(Seq::<char>::empty()) == 0);
            assert(a.last() == delim_open(d));
            assert(z.last() == delim_close(d));
            assert(bracket_weight(delim_open(d)) == 1);
            assert(bracket_weight(delim_close(d)) == -1);
            assert(net(a) == 1);
            assert(net(z) == -1);
            assert(max_nesting(a) == 1);
            assert(max_nesting(z) == 0);
            lemma_net_concat(a, m);
            lemma_net_concat(a + m, z);
            lemma_max_nesting_concat(a, m);
            lemma_max_nesting_concat(a + m, z);
            lemma_max_nesting_ge(m);
            assert(flat_tok(t) == a + m + z);
        },
        _ => {},
    }
}

/// Parsing the bracket text of a bracket-only token suffix, inside a
/// region that ends with the open group's closer (or at end of input at
/// top level), yields exactly those tokens, no diagnostics, and a proper
/// close.
pub proof fn lemma_parse_brackets(
    s: Seq<char>,
    p: int,
    e: int,
    ts: Seq<TkView>,
    i: int,
    open: Option<Delim>,
    open_pos: int,
    depth: nat,
)
    requires
        0 <= i <= ts.len(),
        0 <= p <= e <= s.len(),
        s.subrange(p, e) == flat_from(ts, i),
        brk_toks(ts, i, depth),
        match open {
            Option::None => e == s.len(),
            Option::Some(d) => e < s.len() && s[e] == delim_close(d),
        },
    ensures
        spec_group(s, p, open, open_pos, depth) == (GroupRes {
            toks: ts.subrange(i, ts.len() as int),
            diags: Seq::<DiagView>::empty(),
            end: if open is Some {
                e + 1
            } else {
                e
            },
            closed: true,
        }),
    decreases ts, ts.len() - i,
{
    if i == ts.len() {
        assert(flat_from(ts, i).len() == 0);
        assert(p == e);
        assert(ts.subrange(i, ts.len() as int) =~= Seq::<TkView>::empty());
        match open {
            Option::None => {
                lemma_sg_eof(s, p, open, open_pos, depth);
            },
            Option::Some(d) => {
                lemma_sg_close(s, p, open, open_pos, depth);
            },
        }
    } else {
        let t0 = ts[i];
        assert(brk_tok(t0, depth) && brk_toks(ts, i + 1, depth)) by {
            assert(brk_toks(ts, i, depth));
        }
        let d = t0->Delim_0;
        let ch = t0->Delim_1;
        let r0 = flat_tok(t0);
        assert(r0 == seq![delim_open(d)] + flat_from(ch, 0) + seq![delim_close(d)]);
        let rest_part = flat_from(ts, i + 1);
        assert(s.subrange(p, e) =~= r0 + rest_part);
        lemma_region_split(s, p, e, r0, rest_part);
        let e0 = p + r0.len() as int;
        assert(forall|k: int| 0 <= k < r0.len() ==> s[p + k] == #[trigger] r0[k]) by {
            assert(forall|k: int|
                0 <= k < r0.len() ==> s.subrange(p, e0)[k] == s[p + k] && s.subrange(p, e0)[k]
                    == #[trigger] r0[k]);
        }
        assert(s[p + 0] == r0[0]);
        let c = s[p];
        assert(c == delim_open(d));
        assert(s[e0 - 1] == r0[r0.len() - 1]);
        assert(s[e0 - 1] == delim_close(d));
        assert(s.subrange(p + 1, e0 - 1) =~= flat_from(ch, 0)) by {
            assert forall|k: int| 0 <= k < flat_from(ch, 0).len() implies #[trigger] s.subrange(
                p + 1,
                e0 - 1,
            )[k] == flat_from(ch, 0)[k] by {
                assert(r0[k + 1] == (seq![delim_open(d)] + flat_from(ch, 0))[k + 1]);
                assert(s[p + (k + 1)] == r0[k + 1]);
            }
        }
        lemma_parse_brackets(s, p + 1, e0 - 1, ch, 0, Some(d), p, (depth + 1) as nat);
        assert(ch.subrange(0, ch.len() as int) =~= ch);
        lemma_sg_open(s, p, open, open_pos, depth);
        lemma_parse_brackets(s, e0, e, ts, i + 1, open, open_pos, depth);
        let g = spec_group(s, p, open, open_pos, depth);
        let tail = ts.subrange(i + 1, ts.len() as int);
        assert(g.toks =~= ts.subrange(i, ts.len() as int)) by {
            assert(g.toks == seq![t0] + tail);
            assert forall|k: int| 0 <= k < ts.len() - i implies (seq![t0] + tail)[k]
                == ts.subrange(i, ts.len() as int)[k] by {
                if k > 0 {
                    assert(tail[k - 1] == ts[i + k]);
                }
            }
        }
        assert(g.diags =~= Seq::<DiagView>::empty());
    }
}

/// Depth correspondence: an input of only correctly matched brackets —
/// the bracket text of a bracket-only tree — tokenizes without
/// diagnostics, and the maximum `Delim` nesting depth of the resulting
/// tree equals the maximum bracket nesting depth of the input text.
pub proof fn lemma_depth_correspondence(ts: Seq<TkView>)
    requires
        brk_toks(ts, 0, 0),
    ensures
        spec_lex(flat_from(ts, 0)).1.len() == 0,
        spec_lex(flat_from(ts, 0)).0 == ts,
        toks_depth(spec_lex(flat_from(ts, 0)).0, 0) == max_nesting(flat_from(ts, 0)),
{
    let s = flat_from(ts, 0);
    assert(s.subrange(0, s.len() as int) =~= s);
    lemma_parse_brackets(s, 0, s.len() as int, ts, 0, None, 0, 0);
    assert(ts.subrange(0, ts.len() as int) =~= ts);
    lemma_flat_depth(ts, 0);
}

} // verus!
