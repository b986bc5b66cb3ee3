//! The tokens of the expression language: numbers, strings, `$`
//! variables, names, brackets, separators and operators.
use vstd::prelude::*;
use crate::dates::{alphanumeric, is_alphanumeric};
use crate::num::is_digit;
use crate::split::is_alpha;
use crate::text::{chars_of, is_whitespace, is_ws, lit, string_push};

verus! {

/// A token. A number is kept as the text that was read: digits with at
/// most one decimal point.
#[derive(Debug, PartialEq)]
pub enum Token {
    Num(String),
    Str(String),
    Var(String),
    Ident(String),
    Op(String),
    LParen,
    RParen,
    Comma,
    Semicolon,
}

/// A token, with its text as a sequence of characters.
pub enum SpecToken {
    Num(Seq<char>),
    Str(Seq<char>),
    Var(Seq<char>),
    Ident(Seq<char>),
    Op(Seq<char>),
    LParen,
    RParen,
    Comma,
    Semicolon,
}

impl View for Token {
    type V = SpecToken;

    open spec fn view(&self) -> SpecToken {
        match self {
            Token::Num(s) => SpecToken::Num(s@),
            Token::Str(s) => SpecToken::Str(s@),
            Token::Var(s) => SpecToken::Var(s@),
            Token::Ident(s) => SpecToken::Ident(s@),
            Token::Op(s) => SpecToken::Op(s@),
            Token::LParen => SpecToken::LParen,
            Token::RParen => SpecToken::RParen,
            Token::Comma => SpecToken::Comma,
            Token::Semicolon => SpecToken::Semicolon,
        }
    }
}

/// The first position from `p` that is not whitespace.
pub open spec fn ws_end(cs: Seq<char>, p: int) -> int
    decreases cs.len() - p,
{
    if 0 <= p < cs.len() && is_ws(cs[p]) {
        ws_end(cs, p + 1)
    } else {
        p
    }
}

/// The end of the run of `_` and alphanumeric characters from `p`.
pub open spec fn var_end(cs: Seq<char>, p: int) -> int
    decreases cs.len() - p,
{
    if 0 <= p < cs.len() && (cs[p] == '_' || alphanumeric(cs[p])) {
        var_end(cs, p + 1)
    } else {
        p
    }
}

/// The end of the run of `_`, ASCII letters and digits from `p`.
pub open spec fn ident_end(cs: Seq<char>, p: int) -> int
    decreases cs.len() - p,
{
    if 0 <= p < cs.len() && (cs[p] == '_' || is_alpha(cs[p]) || is_digit(cs[p])) {
        ident_end(cs, p + 1)
    } else {
        p
    }
}

/// The end of the run of digits from `p` with at most one decimal point
/// (none more once `dot` is set).
pub open spec fn num_end(cs: Seq<char>, p: int, dot: bool) -> int
    decreases cs.len() - p,
{
    if 0 <= p < cs.len() && cs[p] == '.' && !dot {
        num_end(cs, p + 1, true)
    } else if 0 <= p < cs.len() && is_digit(cs[p]) {
        num_end(cs, p + 1, dot)
    } else {
        p
    }
}

/// The character that an escape `\c` stands for in a string.
pub open spec fn unescape_char(c: char) -> char {
    if c == 'n' {
        '\n'
    } else if c == 'r' {
        '\r'
    } else if c == 't' {
        '\t'
    } else {
        c
    }
}

/// Reads a string from `p` up to the closing `quote`, with escapes: the
/// string and the position after the quote, or the error.
pub open spec fn str_scan(cs: Seq<char>, p: int, quote: char, acc: Seq<char>) -> Result<
    (Seq<char>, int),
    Seq<char>,
>
    decreases cs.len() - p,
{
    if p < 0 || p >= cs.len() {
        Err("Unterminated string literal"@)
    } else if cs[p] == '\\' {
        if p + 1 >= cs.len() {
            Err("Invalid escape in string"@)
        } else {
            str_scan(cs, p + 2, quote, acc.push(unescape_char(cs[p + 1])))
        }
    } else if cs[p] == quote {
        Ok((acc, p + 1))
    } else {
        str_scan(cs, p + 1, quote, acc.push(cs[p]))
    }
}

/// The two-character operators.
pub open spec fn is_double_op(a: char, b: char) -> bool {
    ||| a == '=' && b == '='
    ||| a == '!' && b == '='
    ||| a == '<' && b == '='
    ||| a == '>' && b == '='
    ||| a == '&' && b == '&'
    ||| a == '|' && b == '|'
    ||| a == '<' && b == '>'
}

/// The next token of `cs` from position `pos`, when a minus sign there
/// would be unary if `unary`: the token (`None` at the end) or the error,
/// the position after it, and whether a minus sign after it is unary.
pub open spec fn spec_next_token(cs: Seq<char>, pos: int, unary: bool) -> (
    Result<Option<SpecToken>, Seq<char>>,
    int,
    bool,
) {
    let p = ws_end(cs, pos);
    if p < 0 || p >= cs.len() {
        (Ok(None), p, unary)
    } else {
        let c = cs[p];
        if c == '$' {
            let e = var_end(cs, p + 1);
            if e == p + 1 {
                (Err("Unnamed variable after $"@), e, unary)
            } else {
                (Ok(Some(SpecToken::Var(cs.subrange(p + 1, e)))), e, false)
            }
        } else if c == '"' || c == '\'' {
            match str_scan(cs, p + 1, c, seq![]) {
                Ok((s, e)) => (Ok(Some(SpecToken::Str(s))), e, false),
                Err(m) => (Err(m), cs.len() as int, unary),
            }
        } else if is_digit(c) || (c == '.' && p + 1 < cs.len() && is_digit(cs[p + 1])) {
            let e = num_end(cs, p, false);
            (Ok(Some(SpecToken::Num(cs.subrange(p, e)))), e, false)
        } else if is_alpha(c) {
            let e = ident_end(cs, p);
            (Ok(Some(SpecToken::Ident(cs.subrange(p, e)))), e, e < cs.len() && cs[e] == '(')
        } else if c == '(' {
            (Ok(Some(SpecToken::LParen)), p + 1, true)
        } else if c == ')' {
            (Ok(Some(SpecToken::RParen)), p + 1, false)
        } else if c == ',' {
            (Ok(Some(SpecToken::Comma)), p + 1, true)
        } else if c == ';' {
            (Ok(Some(SpecToken::Semicolon)), p + 1, true)
        } else if c == '-' && unary {
            (Ok(Some(SpecToken::Op("UM"@))), p + 1, unary)
        } else if p + 1 < cs.len() && is_double_op(c, cs[p + 1]) {
            (Ok(Some(SpecToken::Op(seq![c, cs[p + 1]]))), p + 2, true)
        } else {
            (Ok(Some(SpecToken::Op(seq![c]))), p + 1, true)
        }
    }
}

proof fn lemma_ws_end(cs: Seq<char>, p: int)
    requires
        0 <= p,
    ensures
        ws_end(cs, p) >= p,
        p <= cs.len() ==> ws_end(cs, p) <= cs.len(),
        p >= cs.len() ==> ws_end(cs, p) == p,
    decreases cs.len() - p,
{
    if 0 <= p < cs.len() && is_ws(cs[p]) {
        lemma_ws_end(cs, p + 1);
    }
}

proof fn lemma_var_end(cs: Seq<char>, p: int)
    requires
        0 <= p <= cs.len(),
    ensures
        p <= var_end(cs, p) <= cs.len(),
    decreases cs.len() - p,
{
    if 0 <= p < cs.len() && (cs[p] == '_' || alphanumeric(cs[p])) {
        lemma_var_end(cs, p + 1);
    }
}

proof fn lemma_ident_end(cs: Seq<char>, p: int)
    requires
        0 <= p <= cs.len(),
    ensures
        p <= ident_end(cs, p) <= cs.len(),
        p < cs.len() && is_alpha(cs[p]) ==> ident_end(cs, p) > p,
    decreases cs.len() - p,
{
    if 0 <= p < cs.len() && (cs[p] == '_' || is_alpha(cs[p]) || is_digit(cs[p])) {
        lemma_ident_end(cs, p + 1);
    }
}

proof fn lemma_num_end(cs: Seq<char>, p: int, dot: bool)
    requires
        0 <= p <= cs.len(),
    ensures
        p <= num_end(cs, p, dot) <= cs.len(),
        p < cs.len() && (is_digit(cs[p]) || (cs[p] == '.' && !dot)) ==> num_end(cs, p, dot) > p,
    decreases cs.len() - p,
{
    if 0 <= p < cs.len() && cs[p] == '.' && !dot {
        lemma_num_end(cs, p + 1, true);
    } else if 0 <= p < cs.len() && is_digit(cs[p]) {
        lemma_num_end(cs, p + 1, dot);
    }
}

proof fn lemma_str_scan(cs: Seq<char>, p: int, quote: char, acc: Seq<char>)
    requires
        0 <= p,
    ensures
        str_scan(cs, p, quote, acc) matches Ok((_s, e)) ==> p < e <= cs.len(),
    decreases cs.len() - p,
{
    if p < 0 || p >= cs.len() {
    } else if cs[p] == '\\' {
        if p + 1 < cs.len() {
            lemma_str_scan(cs, p + 2, quote, acc.push(unescape_char(cs[p + 1])));
        }
    } else if cs[p] == quote {
    } else {
        lemma_str_scan(cs, p + 1, quote, acc.push(cs[p]));
    }
}

/// Each read of the lexer from a position inside the text ends inside it;
/// at the end of the text it reads nothing and stays there, and anything
/// else it reads, a token or an error, moves it forward.
pub proof fn lemma_next_token_moves(cs: Seq<char>, pos: int, unary: bool)
    requires
        0 <= pos <= cs.len(),
    ensures
        ({
            let (r, p, _u) = spec_next_token(cs, pos, unary);
            &&& 0 <= p <= cs.len()
            &&& r == Ok::<Option<SpecToken>, Seq<char>>(None) ==> p == cs.len()
            &&& pos == cs.len() ==> r == Ok::<Option<SpecToken>, Seq<char>>(None) && p == pos
            &&& r != Ok::<Option<SpecToken>, Seq<char>>(None) ==> p > pos
        }),
{
    lemma_ws_end(cs, pos);
    let p = ws_end(cs, pos);
    if p < cs.len() {
        let c = cs[p];
        if c == '$' {
            lemma_var_end(cs, p + 1);
        } else if c == '"' || c == '\'' {
            lemma_str_scan(cs, p + 1, c, seq![]);
        } else if is_digit(c) || (c == '.' && p + 1 < cs.len() && is_digit(cs[p + 1])) {
            lemma_num_end(cs, p, false);
        } else if is_alpha(c) {
            lemma_ident_end(cs, p);
        }
    }
}

/// Splits an expression into tokens.
pub struct Lexer {
    pub chars: Vec<char>,
    pub pos: usize,
    /// Whether a minus sign here is unary.
    pub can_be_unary: bool,
}

impl Lexer {
    /// A lexer at the start of `input`.
    pub fn new(input: &str) -> (l: Self)
        ensures
            l.chars@ == input@,
            l.pos == 0,
            l.can_be_unary,
    {
        Lexer { chars: chars_of(input), pos: 0, can_be_unary: true }
    }

    /// The next character, if any.
    fn peek(&self) -> (c: Option<char>)
        ensures
            c == (if self.pos < self.chars@.len() {
                Some(self.chars@[self.pos as int])
            } else {
                None::<char>
            }),
    {
        if self.pos < self.chars.len() {
            Some(self.chars[self.pos])
        } else {
            None
        }
    }

    /// The character after the next is a digit.
    fn peek_second_is_digit(&self) -> (b: bool)
        requires
            self.pos < self.chars@.len(),
        ensures
            b == (self.pos + 1 < self.chars@.len() && is_digit(self.chars@[self.pos + 1])),
    {
        self.chars.len() - self.pos > 1 && self.chars[self.pos + 1] >= '0' && self.chars[self.pos
            + 1] <= '9'
    }

    /// Reads the next token.
    pub fn next_token(&mut self) -> (r: Result<Option<Token>, String>)
        requires
            old(self).pos <= old(self).chars@.len(),
        ensures
            final(self).chars@ == old(self).chars@,
            final(self).pos <= final(self).chars@.len(),
            ({
                let (res, p, u) = spec_next_token(
                    old(self).chars@,
                    old(self).pos as int,
                    old(self).can_be_unary,
                );
                &&& final(self).pos == p
                &&& final(self).can_be_unary == u
                &&& match res {
                    Ok(None) => r matches Ok(None),
                    Ok(Some(t)) => r matches Ok(Some(x)) && x@ == t,
                    Err(m) => r matches Err(e) && e@ == m,
                }
            }),
    {
        let ghost cs = self.chars@;
        let n = self.chars.len();
        while self.pos < n && is_whitespace(self.chars[self.pos])
            invariant
                self.chars@ == cs,
                cs == old(self).chars@,
                n == cs.len(),
                self.pos <= n,
                ws_end(cs, old(self).pos as int) == ws_end(cs, self.pos as int),
                self.can_be_unary == old(self).can_be_unary,
            decreases n - self.pos,
        {
            self.pos = self.pos + 1;
        }
        if self.pos >= n {
            return Ok(None);
        }
        let p = self.pos;
        let c = self.chars[p];
        if c == '$' {
            self.pos = p + 1;
            let mut name = String::new();
            while self.pos < n && (self.chars[self.pos] == '_' || is_alphanumeric(
                self.chars[self.pos],
            ))
                invariant
                    self.chars@ == cs,
                    cs == old(self).chars@,
                    n == cs.len(),
                    p + 1 <= self.pos <= n,
                    var_end(cs, p + 1) == var_end(cs, self.pos as int),
                    name@ == cs.subrange(p + 1, self.pos as int),
                    self.can_be_unary == old(self).can_be_unary,
                decreases n - self.pos,
            {
                string_push(&mut name, self.chars[self.pos]);
                assert(cs.subrange(p + 1, self.pos + 1) =~= cs.subrange(p + 1, self.pos as int).push(
                    cs[self.pos as int],
                ));
                self.pos = self.pos + 1;
            }
            if self.pos == p + 1 {
                return Err(lit("Unnamed variable after $"));
            }
            self.can_be_unary = false;
            return Ok(Some(Token::Var(name)));
        }
        if c == '"' || c == '\'' {
            let quote = c;
            self.pos = p + 1;
            let mut s = String::new();
            while self.pos < n
                invariant
                    self.chars@ == cs,
                    cs == old(self).chars@,
                    n == cs.len(),
                    p + 1 <= self.pos <= n,
                    str_scan(cs, p + 1, quote, seq![]) == str_scan(cs, self.pos as int, quote, s@),
                    p == ws_end(cs, old(self).pos as int),
                    p < n,
                    cs[p as int] == quote,
                    quote == '"' || quote == '\'',
                    self.can_be_unary == old(self).can_be_unary,
                decreases n - self.pos,
            {
                let sc = self.chars[self.pos];
                if sc == '\\' {
                    if self.pos + 1 >= n {
                        self.pos = n;
                        return Err(lit("Invalid escape in string"));
                    }
                    let esc = self.chars[self.pos + 1];
                    let u = if esc == 'n' {
                        '\n'
                    } else if esc == 'r' {
                        '\r'
                    } else if esc == 't' {
                        '\t'
                    } else {
                        esc
                    };
                    string_push(&mut s, u);
                    self.pos = self.pos + 2;
                } else if sc == quote {
                    self.pos = self.pos + 1;
                    self.can_be_unary = false;
                    return Ok(Some(Token::Str(s)));
                } else {
                    string_push(&mut s, sc);
                    self.pos = self.pos + 1;
                }
            }
            return Err(lit("Unterminated string literal"));
        }
        if (c >= '0' && c <= '9') || (c == '.' && self.peek_second_is_digit()) {
            let mut num = String::new();
            let mut has_dot = false;
            while self.pos < n && ((self.chars[self.pos] == '.' && !has_dot) || (self.chars[self.pos]
                >= '0' && self.chars[self.pos] <= '9'))
                invariant
                    self.chars@ == cs,
                    cs == old(self).chars@,
                    n == cs.len(),
                    p <= self.pos <= n,
                    num_end(cs, p as int, false) == num_end(cs, self.pos as int, has_dot),
                    num@ == cs.subrange(p as int, self.pos as int),
                decreases n - self.pos,
            {
                let nc = self.chars[self.pos];
                if nc == '.' {
                    has_dot = true;
                }
                string_push(&mut num, nc);
                assert(cs.subrange(p as int, self.pos + 1) =~= cs.subrange(p as int, self.pos as int).push(
                    nc,
                ));
                self.pos = self.pos + 1;
            }
            self.can_be_unary = false;
            return Ok(Some(Token::Num(num)));
        }
        if ('a' <= c && c <= 'z') || ('A' <= c && c <= 'Z') {
            let mut ident = String::new();
            while self.pos < n && (self.chars[self.pos] == '_' || ('a' <= self.chars[self.pos]
                && self.chars[self.pos] <= 'z') || ('A' <= self.chars[self.pos] && self.chars[self.pos]
                <= 'Z') || ('0' <= self.chars[self.pos] && self.chars[self.pos] <= '9'))
                invariant
                    self.chars@ == cs,
                    cs == old(self).chars@,
                    n == cs.len(),
                    p <= self.pos <= n,
                    ident_end(cs, p as int) == ident_end(cs, self.pos as int),
                    ident@ == cs.subrange(p as int, self.pos as int),
                decreases n - self.pos,
            {
                string_push(&mut ident, self.chars[self.pos]);
                assert(cs.subrange(p as int, self.pos + 1) =~= cs.subrange(p as int, self.pos as int).push(
                    cs[self.pos as int],
                ));
                self.pos = self.pos + 1;
            }
            self.can_be_unary = self.peek() == Some('(');
            return Ok(Some(Token::Ident(ident)));
        }
        if c == '(' {
            self.pos = p + 1;
            self.can_be_unary = true;
            return Ok(Some(Token::LParen));
        }
        if c == ')' {
            self.pos = p + 1;
            self.can_be_unary = false;
            return Ok(Some(Token::RParen));
        }
        if c == ',' {
            self.pos = p + 1;
            self.can_be_unary = true;
            return Ok(Some(Token::Comma));
        }
        if c == ';' {
            self.pos = p + 1;
            self.can_be_unary = true;
            return Ok(Some(Token::Semicolon));
        }
        if c == '-' && self.can_be_unary {
            self.pos = p + 1;
            return Ok(Some(Token::Op(lit("UM"))));
        }
        let mut op = String::new();
        string_push(&mut op, c);
        assert(op@ =~= seq![c]);
        self.pos = p + 1;
        if self.pos < n {
            let d = self.chars[self.pos];
            if (c == '=' && d == '=') || (c == '!' && d == '=') || (c == '<' && d == '=') || (c
                == '>' && d == '=') || (c == '&' && d == '&') || (c == '|' && d == '|') || (c == '<'
                && d == '>') {
                string_push(&mut op, d);
                assert(op@ =~= seq![c, d]);
                self.pos = self.pos + 1;
            }
        }
        self.can_be_unary = true;
        Ok(Some(Token::Op(op)))
    }
}

} // verus!
