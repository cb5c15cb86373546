//! The token tree: tagged tokens, nested bracketed groups, and the
//! canonical (colorless) rendering every token can be turned back into.

use vstd::prelude::*;
use vstd::string::StrSliceExecFns;
use crate::num::{dec_digits, digit_char, num_value, num_width, render_num, Num};
use crate::tables::{delim_close, delim_open, kw_text, sym_char, Delim, Kw, Sym};

verus! {

broadcast use vstd::std_specs::vec::group_vec_axioms;

/// A token of the language. A `Delim` token owns the ordered subtree of
/// tokens its brackets enclose; `Error` stands for a region of input that
/// could not be tokenized validly.
#[derive(PartialEq, Eq, Debug)]
pub enum Tk {
    Ident(String),
    Kw(Kw),
    Sym(Sym),
    Num(Num),
    Delim(Delim, Vec<Tk>),
    Error,
}

/// Mathematical shape of a token: identifier text as a character sequence,
/// children as a sequence of token views.
pub enum TkView {
    Ident(Seq<char>),
    Kw(Kw),
    Sym(Sym),
    Num(Num),
    Delim(Delim, Seq<TkView>),
    Error,
}

/// View of one token.
pub open spec fn tk_view(t: Tk) -> TkView
    decreases t,
{
    match t {
        Tk::Ident(s) => TkView::Ident(s@),
        Tk::Kw(k) => TkView::Kw(k),
        Tk::Sym(s) => TkView::Sym(s),
        Tk::Num(n) => TkView::Num(n),
        Tk::Delim(d, ts) => TkView::Delim(d, tks_view_from(ts@, 0)),
        Tk::Error => TkView::Error,
    }
}

/// Views of the tokens of `ts` from index `i` on.
pub open spec fn tks_view_from(ts: Seq<Tk>, i: int) -> Seq<TkView>
    decreases ts, ts.len() - i,
{
    if i < 0 || i >= ts.len() {
        Seq::empty()
    } else {
        seq![tk_view(ts[i])] + tks_view_from(ts, i + 1)
    }
}

/// Views of a sequence of tokens.
pub open spec fn tks_view(ts: Seq<Tk>) -> Seq<TkView> {
    tks_view_from(ts, 0)
}

impl View for Tk {
    type V = TkView;

    open spec fn view(&self) -> TkView {
        tk_view(*self)
    }
}

impl DeepView for Tk {
    type V = TkView;

    open spec fn deep_view(&self) -> TkView {
        tk_view(*self)
    }
}

/// The views of a token sequence index pointwise into the views.
pub proof fn lemma_tks_view_from_len(ts: Seq<Tk>, i: int)
    requires
        0 <= i <= ts.len(),
    ensures
        tks_view_from(ts, i).len() == ts.len() - i,
        forall|j: int|
            0 <= j < ts.len() - i ==> tks_view_from(ts, i)[j] == tk_view(ts[i + j]),
    decreases ts.len() - i,
{
    if i < ts.len() {
        lemma_tks_view_from_len(ts, i + 1);
    }
}

/// Appending one token appends one view.
pub proof fn lemma_tks_view_push(ts: Seq<Tk>, t: Tk)
    ensures
        tks_view(ts.push(t)) =~= tks_view(ts).push(tk_view(t)),
{
    lemma_tks_view_from_len(ts, 0);
    lemma_tks_view_from_len(ts.push(t), 0);
    assert forall|j: int| 0 <= j < ts.len() + 1 implies tks_view(ts.push(t))[j] == tks_view(
        ts,
    ).push(tk_view(t))[j] by {
        if j < ts.len() {
            assert(ts.push(t)[j] == ts[j]);
        } else {
            assert(ts.push(t)[j] == t);
        }
    }
}

/// Canonical rendering of one token view.
pub open spec fn render_tok(t: TkView) -> Seq<char>
    decreases t,
{
    match t {
        TkView::Ident(s) => s,
        TkView::Kw(k) => kw_text(k),
        TkView::Sym(s) => seq![sym_char(s)],
        TkView::Num(n) => render_num(n),
        TkView::Delim(d, ts) => seq![delim_open(d)] + render_toks_from(ts, 0) + seq![
            delim_close(d),
        ],
        TkView::Error => seq!['?'],
    }
}

/// Canonical rendering of the token views of `ts` from index `i` on,
/// joined by single spaces.
pub open spec fn render_toks_from(ts: Seq<TkView>, i: int) -> Seq<char>
    decreases ts, ts.len() - i,
{
    if i < 0 || i >= ts.len() {
        Seq::empty()
    } else if i == ts.len() - 1 {
        render_tok(ts[i])
    } else {
        render_tok(ts[i]) + seq![' '] + render_toks_from(ts, i + 1)
    }
}

/// Canonical rendering of a sequence of token views, joined by single
/// spaces.
pub open spec fn render_toks(ts: Seq<TkView>) -> Seq<char> {
    render_toks_from(ts, 0)
}

/// Relies on `String`'s `FromIterator<char>` implementation: collecting
/// characters concatenates exactly those characters, in order.
#[verifier::external_body]
pub(crate) fn chars_to_string(v: Vec<char>) -> (r: String)
    ensures
        r@ == v@,
{
    v.into_iter().collect()
}

/// The characters of a string slice, in order.
pub fn str_chars(s: &str) -> (r: Vec<char>)
    ensures
        r@ == s@,
{
    let n = s.unicode_len();
    let mut r: Vec<char> = Vec::new();
    let mut i: usize = 0;
    while i < n
        invariant
            n == s@.len(),
            0 <= i <= n,
            r@ =~= s@.subrange(0, i as int),
        decreases n - i,
    {
        r.push(s.get_char(i));
        i = i + 1;
    }
    proof {
        assert(r@ =~= s@);
    }
    r
}

/// Decimal digit characters of `n`.
fn u64_dec_chars(n: u64) -> (r: Vec<char>)
    ensures
        r@ == dec_digits(n as nat),
{
    let mut rev: Vec<char> = Vec::new();
    let mut m: u64 = n;
    if m == 0 {
        let mut r: Vec<char> = Vec::new();
        r.push('0');
        proof {
            assert(r@ =~= dec_digits(0));
        }
        return r;
    }
    while m > 0
        invariant
            m > 0 ==> dec_digits(n as nat) =~= dec_digits(m as nat) + rev@.reverse(),
            m == 0 ==> dec_digits(n as nat) =~= rev@.reverse(),
        decreases m,
    {
        let d = m % 10;
        let c = digit_char_of(d);
        proof {
            let old_rev = rev@;
            assert(old_rev.push(c).reverse() =~= seq![c] + old_rev.reverse());
            if m >= 10 {
                assert(dec_digits(m as nat) == dec_digits((m / 10) as nat) + seq![
                    digit_char((m % 10) as int),
                ]);
                assert(dec_digits((m / 10) as nat) + seq![c] + old_rev.reverse()
                    =~= dec_digits((m / 10) as nat) + (seq![c] + old_rev.reverse()));
            } else {
                assert(dec_digits(m as nat) =~= seq![c]);
            }
        }
        rev.push(c);
        m = m / 10;
    }
    let mut r: Vec<char> = Vec::new();
    let mut i: usize = rev.len();
    while i > 0
        invariant
            0 <= i <= rev@.len(),
            r@ =~= rev@.subrange(i as int, rev@.len() as int).reverse(),
        decreases i,
    {
        proof {
            let s = rev@.subrange(i - 1, rev@.len() as int);
            assert(s.reverse() =~= rev@.subrange(i as int, rev@.len() as int).reverse().push(
                rev@[i - 1],
            ));
        }
        i = i - 1;
        r.push(rev[i]);
    }
    proof {
        assert(rev@.subrange(0, rev@.len() as int) =~= rev@);
    }
    r
}

/// Decimal digits of `n`, as text.
pub fn u64_dec(n: u64) -> (r: String)
    ensures
        r@ == dec_digits(n as nat),
{
    chars_to_string(u64_dec_chars(n))
}

/// The character of decimal digit `d`.
fn digit_char_of(d: u64) -> (r: char)
    requires
        d < 10,
    ensures
        r == digit_char(d as int),
{
    match d {
        0 => '0',
        1 => '1',
        2 => '2',
        3 => '3',
        4 => '4',
        5 => '5',
        6 => '6',
        7 => '7',
        8 => '8',
        _ => '9',
    }
}

/// Canonical rendering characters of a numeric value.
fn num_render_chars(n: &Num) -> (r: Vec<char>)
    ensures
        r@ == render_num(*n),
{
    let v: i64 = n.value();
    let mut out: Vec<char> = Vec::new();
    if v >= 0 {
        let mut digits = u64_dec_chars(v as u64);
        out.append(&mut digits);
    } else {
        out.push('-');
        let mag: u64 = (-(v as i128)) as u64;
        let mut digits = u64_dec_chars(mag);
        out.append(&mut digits);
        proof {
            assert(out@ =~= seq!['-'] + dec_digits((-num_value(*n)) as nat));
        }
    }
    out.push(':');
    let mut w = u64_dec_chars(n.width() as u64);
    out.append(&mut w);
    proof {
        assert(out@ =~= render_num(*n));
    }
    out
}

impl Num {
    /// Canonical source text of this value: decimal digits, then `:` and
    /// the bit width.
    pub fn render(&self) -> (r: String)
        ensures
            r@ == render_num(*self),
    {
        chars_to_string(num_render_chars(self))
    }
}

impl Tk {
    /// Canonical rendering characters of this token.
    #[verifier::loop_isolation(false)]
    fn render_chars(&self) -> (r: Vec<char>)
        ensures
            r@ == render_tok(tk_view(*self)),
        decreases *self,
    {
        match self {
            Tk::Ident(s) => str_chars(s.as_str()),
            Tk::Kw(k) => str_chars(k.into_str()),
            Tk::Sym(s) => str_chars(s.into_str()),
            Tk::Num(n) => num_render_chars(n),
            Tk::Delim(d, ts) => {
                let ghost tsv = tks_view_from(ts@, 0);
                proof {
                    lemma_tks_view_from_len(ts@, 0);
                }
                let mut out: Vec<char> = Vec::new();
                out.push(d.opening());
                let mut i: usize = 0;
                while i < ts.len()
                    invariant
                        0 <= i <= ts@.len(),
                        tsv == tks_view_from(ts@, 0),
                        tsv.len() == ts@.len(),
                        forall|j: int| 0 <= j < ts@.len() ==> tsv[j] == tk_view(ts@[j]),
                        out@ + render_rest(tsv, i as int) =~= seq![delim_open(*d)]
                            + render_toks_from(tsv, 0),
                    decreases ts@.len() - i,
                {
                    if i > 0 {
                        out.push(' ');
                    }
                    proof {
                        assert(*self == Tk::Delim(*d, *ts));
                        assert(decreases_to!(Tk::Delim(*d, *ts) => *ts));
                        assert(decreases_to!(*ts => ts@[i as int]));
                        assert(decreases_to!(*self => ts@[i as int]));
                    }
                    let mut c = ts[i].render_chars();
                    out.append(&mut c);
                    i = i + 1;
                    proof {
                        assert(out@ + render_rest(tsv, i as int) =~= seq![delim_open(*d)]
                            + render_toks_from(tsv, 0));
                    }
                }
                out.push(d.closing());
                proof {
                    assert(out@ =~= render_tok(tk_view(*self)));
                }
                out
            },
            Tk::Error => {
                let mut r: Vec<char> = Vec::new();
                r.push('?');
                proof {
                    assert(r@ =~= seq!['?']);
                }
                r
            },
        }
    }

    /// Canonical source text of this token: identifier text; keyword or
    /// symbol table text; a number's digits and width; for a group, its
    /// opening character, its space-joined children and its closing
    /// character; `?` for an error marker.
    pub fn render(&self) -> (r: String)
        ensures
            r@ == render_tok(tk_view(*self)),
    {
        chars_to_string(self.render_chars())
    }
}

impl Delim {
    /// Wraps a token sequence as a group of this bracket kind: the
    /// group's opening and closing characters are of one kind by
    /// construction.
    pub fn enclose(self, tree: Vec<Tk>) -> (r: Tk)
        ensures
            tk_view(r) == TkView::Delim(self, tks_view(tree@)),
    {
        Tk::Delim(self, tree)
    }

    /// A function that wraps a token sequence as a group of this
    /// bracket kind, as `enclose` does.
    pub fn encloser(self) -> (r: impl Fn(Vec<Tk>) -> Tk)
        ensures
            forall|tree: Vec<Tk>| #[trigger] r.requires((tree,)),
            forall|tree: Vec<Tk>, t: Tk|
                #[trigger] r.ensures((tree,), t) ==> tk_view(t) == TkView::Delim(
                    self,
                    tks_view(tree@),
                ),
    {
        let d = self;
        (move |tree: Vec<Tk>| -> (t: Tk)
            ensures
                tk_view(t) == TkView::Delim(d, tks_view(tree@)),
            { d.enclose(tree) })
    }

    /// Wraps one token as a group of this bracket kind.
    pub fn enclose_just(self, tk: Tk) -> (r: Tk)
        ensures
            tk_view(r) == TkView::Delim(self, seq![tk_view(tk)]),
    {
        let ghost tkv = tk_view(tk);
        let mut v: Vec<Tk> = Vec::new();
        v.push(tk);
        proof {
            lemma_tks_view_from_len(v@, 0);
            assert(tks_view(v@) =~= seq![tkv]);
        }
        Tk::Delim(self, v)
    }
}

/// What is still to be rendered when the children before index `i` are
/// done: the rest of the join, with its leading separator if some child
/// was already rendered.
pub open spec fn render_rest(ts: Seq<TkView>, i: int) -> Seq<char> {
    if i == 0 {
        render_toks_from(ts, 0)
    } else if i < ts.len() {
        seq![' '] + render_toks_from(ts, i)
    } else {
        Seq::empty()
    }
}

/// Canonical source text of a token sequence: the tokens' renderings
/// joined by single spaces.
pub fn render_tokens(ts: &Vec<Tk>) -> (r: String)
    ensures
        r@ == render_toks(tks_view(ts@)),
{
    let ghost tsv = tks_view_from(ts@, 0);
    proof {
        lemma_tks_view_from_len(ts@, 0);
    }
    let mut out: Vec<char> = Vec::new();
    let mut i: usize = 0;
    while i < ts.len()
        invariant
            0 <= i <= ts@.len(),
            tsv == tks_view_from(ts@, 0),
            tsv.len() == ts@.len(),
            forall|j: int| 0 <= j < ts@.len() ==> tsv[j] == tk_view(ts@[j]),
            out@ + render_rest(tsv, i as int) =~= render_toks_from(tsv, 0),
        decreases ts@.len() - i,
    {
        if i > 0 {
            out.push(' ');
        }
        let mut c = ts[i].render_chars();
        out.append(&mut c);
        i = i + 1;
        proof {
            assert(out@ + render_rest(tsv, i as int) =~= render_toks_from(tsv, 0));
        }
    }
    proof {
        assert(out@ =~= render_toks(tks_view(ts@)));
    }
    chars_to_string(out)
}

} // verus!
