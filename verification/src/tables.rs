//! Literal tables: the closed sets of keywords, single-character symbols and
//! bracket kinds, each with its canonical text and exact reverse lookups.

use vstd::prelude::*;

verus! {

/// The reserved keywords of the language.
#[derive(Clone, Copy, PartialEq, Eq, Structural, Debug)]
pub enum Kw {
    Fn,
    Class,
    Struct,
}

/// Canonical text of a keyword, as a sequence of characters.
pub open spec fn kw_text(k: Kw) -> Seq<char> {
    match k {
        Kw::Fn => seq!['f', 'n'],
        Kw::Class => seq!['c', 'l', 'a', 's', 's'],
        Kw::Struct => seq!['s', 't', 'r', 'u', 'c', 't'],
    }
}

/// The keyword whose canonical text is exactly `t`, if any.
pub open spec fn kw_of_text(t: Seq<char>) -> Option<Kw> {
    if t == kw_text(Kw::Fn) {
        Some(Kw::Fn)
    } else if t == kw_text(Kw::Class) {
        Some(Kw::Class)
    } else if t == kw_text(Kw::Struct) {
        Some(Kw::Struct)
    } else {
        None
    }
}

impl Kw {
    /// Canonical source text of this keyword.
    pub fn into_str(self) -> (r: &'static str)
        ensures
            r@ == kw_text(self),
    {
        proof {
            reveal_strlit("fn");
            reveal_strlit("class");
            reveal_strlit("struct");
        }
        let r = match self {
            Kw::Fn => "fn",
            Kw::Class => "class",
            Kw::Struct => "struct",
        };
        proof {
            assert(r@ =~= kw_text(self));
        }
        r
    }
}

/// The single-character symbols of the language.
#[derive(Clone, Copy, PartialEq, Eq, Structural, Debug)]
pub enum Sym {
    Bang,
    At,
    Hash,
    Dollar,
    Percent,
    Caret,
    And,
    Mul,
    Minus,
    Plus,
    Equal,
    Or,
    Semi,
    Colon,
    Left,
    Right,
    Comma,
    Dot,
    Slash,
    Ques,
}

/// The single character a symbol is written as.
pub open spec fn sym_char(s: Sym) -> char {
    match s {
        Sym::Bang => '!',
        Sym::At => '@',
        Sym::Hash => '#',
        Sym::Dollar => '$',
        Sym::Percent => '%',
        Sym::Caret => '^',
        Sym::And => '&',
        Sym::Mul => '*',
        Sym::Minus => '-',
        Sym::Plus => '+',
        Sym::Equal => '=',
        Sym::Or => '|',
        Sym::Semi => ';',
        Sym::Colon => ':',
        Sym::Left => '<',
        Sym::Right => '>',
        Sym::Comma => ',',
        Sym::Dot => '.',
        Sym::Slash => '/',
        Sym::Ques => '?',
    }
}

/// The symbol written as character `c`, if any.
pub open spec fn sym_of_char(c: char) -> Option<Sym> {
    if c == '!' {
        Some(Sym::Bang)
    } else if c == '@' {
        Some(Sym::At)
    } else if c == '#' {
        Some(Sym::Hash)
    } else if c == '$' {
        Some(Sym::Dollar)
    } else if c == '%' {
        Some(Sym::Percent)
    } else if c == '^' {
        Some(Sym::Caret)
    } else if c == '&' {
        Some(Sym::And)
    } else if c == '*' {
        Some(Sym::Mul)
    } else if c == '-' {
        Some(Sym::Minus)
    } else if c == '+' {
        Some(Sym::Plus)
    } else if c == '=' {
        Some(Sym::Equal)
    } else if c == '|' {
        Some(Sym::Or)
    } else if c == ';' {
        Some(Sym::Semi)
    } else if c == ':' {
        Some(Sym::Colon)
    } else if c == '<' {
        Some(Sym::Left)
    } else if c == '>' {
        Some(Sym::Right)
    } else if c == ',' {
        Some(Sym::Comma)
    } else if c == '.' {
        Some(Sym::Dot)
    } else if c == '/' {
        Some(Sym::Slash)
    } else if c == '?' {
        Some(Sym::Ques)
    } else {
        None
    }
}

impl Sym {
    /// Canonical source text of this symbol: one character.
    pub fn into_str(self) -> (r: &'static str)
        ensures
            r@ == seq![sym_char(self)],
    {
        proof {
            reveal_strlit("!");
            reveal_strlit("@");
            reveal_strlit("#");
            reveal_strlit("$");
            reveal_strlit("%");
            reveal_strlit("^");
            reveal_strlit("&");
            reveal_strlit("*");
            reveal_strlit("-");
            reveal_strlit("+");
            reveal_strlit("=");
            reveal_strlit("|");
            reveal_strlit(";");
            reveal_strlit(":");
            reveal_strlit("<");
            reveal_strlit(">");
            reveal_strlit(",");
            reveal_strlit(".");
            reveal_strlit("/");
            reveal_strlit("?");
        }
        let r = match self {
            Sym::Bang => "!",
            Sym::At => "@",
            Sym::Hash => "#",
            Sym::Dollar => "$",
            Sym::Percent => "%",
            Sym::Caret => "^",
            Sym::And => "&",
            Sym::Mul => "*",
            Sym::Minus => "-",
            Sym::Plus => "+",
            Sym::Equal => "=",
            Sym::Or => "|",
            Sym::Semi => ";",
            Sym::Colon => ":",
            Sym::Left => "<",
            Sym::Right => ">",
            Sym::Comma => ",",
            Sym::Dot => ".",
            Sym::Slash => "/",
            Sym::Ques => "?",
        };
        proof {
            assert(r@ =~= seq![sym_char(self)]);
        }
        r
    }

    /// The symbol written as character `c`, if any.
    pub fn by_char(c: char) -> (r: Option<Sym>)
        ensures
            r == sym_of_char(c),
    {
        match c {
            '!' => Some(Sym::Bang),
            '@' => Some(Sym::At),
            '#' => Some(Sym::Hash),
            '$' => Some(Sym::Dollar),
            '%' => Some(Sym::Percent),
            '^' => Some(Sym::Caret),
            '&' => Some(Sym::And),
            '*' => Some(Sym::Mul),
            '-' => Some(Sym::Minus),
            '+' => Some(Sym::Plus),
            '=' => Some(Sym::Equal),
            '|' => Some(Sym::Or),
            ';' => Some(Sym::Semi),
            ':' => Some(Sym::Colon),
            '<' => Some(Sym::Left),
            '>' => Some(Sym::Right),
            ',' => Some(Sym::Comma),
            '.' => Some(Sym::Dot),
            '/' => Some(Sym::Slash),
            '?' => Some(Sym::Ques),
            _ => None,
        }
    }
}

/// The three bracket kinds.
#[derive(Clone, Copy, PartialEq, Eq, Structural, Debug)]
pub enum Delim {
    Paren,
    Bracket,
    Brace,
}

/// Opening character of a bracket kind.
pub open spec fn delim_open(d: Delim) -> char {
    match d {
        Delim::Paren => '(',
        Delim::Bracket => '[',
        Delim::Brace => '{',
    }
}

/// Closing character of a bracket kind.
pub open spec fn delim_close(d: Delim) -> char {
    match d {
        Delim::Paren => ')',
        Delim::Bracket => ']',
        Delim::Brace => '}',
    }
}

/// The bracket kind opened by `c`, if any.
pub open spec fn delim_by_opening(c: char) -> Option<Delim> {
    if c == '(' {
        Some(Delim::Paren)
    } else if c == '[' {
        Some(Delim::Bracket)
    } else if c == '{' {
        Some(Delim::Brace)
    } else {
        None
    }
}

/// The bracket kind closed by `c`, if any.
pub open spec fn delim_by_closing(c: char) -> Option<Delim> {
    if c == ')' {
        Some(Delim::Paren)
    } else if c == ']' {
        Some(Delim::Bracket)
    } else if c == '}' {
        Some(Delim::Brace)
    } else {
        None
    }
}

impl Delim {
    /// Opening character of this bracket kind.
    pub fn opening(self) -> (r: char)
        ensures
            r == delim_open(self),
    {
        match self {
            Delim::Paren => '(',
            Delim::Bracket => '[',
            Delim::Brace => '{',
        }
    }

    /// Closing character of this bracket kind.
    pub fn closing(self) -> (r: char)
        ensures
            r == delim_close(self),
    {
        match self {
            Delim::Paren => ')',
            Delim::Bracket => ']',
            Delim::Brace => '}',
        }
    }

    /// The bracket kind opened by `c`: `Some` exactly for `(`, `[` and `{`.
    pub fn by_opening(c: char) -> (r: Option<Delim>)
        ensures
            r == delim_by_opening(c),
    {
        match c {
            '(' => Some(Delim::Paren),
            '[' => Some(Delim::Bracket),
            '{' => Some(Delim::Brace),
            _ => None,
        }
    }

    /// The bracket kind closed by `c`: `Some` exactly for `)`, `]` and `}`.
    pub fn by_closing(c: char) -> (r: Option<Delim>)
        ensures
            r == delim_by_closing(c),
    {
        match c {
            ')' => Some(Delim::Paren),
            ']' => Some(Delim::Bracket),
            '}' => Some(Delim::Brace),
            _ => None,
        }
    }

    /// The bracket kind whose opening and closing characters are exactly
    /// `cc.0` and `cc.1`; `None` when the two belong to different kinds.
    pub fn by_chars(cc: (char, char)) -> (r: Option<Delim>)
        ensures
            r is Some <==> (delim_by_opening(cc.0) is Some && delim_by_opening(cc.0)
                == delim_by_closing(cc.1)),
            r is Some ==> r == delim_by_opening(cc.0),
    {
        match cc {
            ('(', ')') => Some(Delim::Paren),
            ('[', ']') => Some(Delim::Bracket),
            ('{', '}') => Some(Delim::Brace),
            _ => None,
        }
    }

    /// The opening and closing characters of this bracket kind.
    pub fn chars(self) -> (r: (char, char))
        ensures
            r.0 == delim_open(self),
            r.1 == delim_close(self),
    {
        (self.opening(), self.closing())
    }
}

} // verus!
