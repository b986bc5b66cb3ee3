//! Parsing expressions: a precedence-climbing parser over the tokens of
//! the lexer, which it reads one token ahead. A number keeps the text it
//! was written with; what an expression computes is the caller's.
use vstd::prelude::*;
use crate::lexer::{lemma_next_token_moves, spec_next_token, Lexer, SpecToken, Token};
use crate::text::lit;

verus! {

/// The lexer after it has been called `k + 1` times on `cs`: the last
/// token read (or the error), the position, and whether a minus sign there
/// is unary.
pub open spec fn lex_state(cs: Seq<char>, k: nat) -> (Result<Option<SpecToken>, Seq<char>>, int, bool)
    decreases k,
{
    if k == 0 {
        spec_next_token(cs, 0, true)
    } else {
        let (_r, p, u) = lex_state(cs, (k - 1) as nat);
        spec_next_token(cs, p, u)
    }
}

/// Token `j` of `cs`: `None` at the end, or where reading it failed.
pub open spec fn tok(cs: Seq<char>, j: int) -> Option<SpecToken> {
    match lex_state(cs, j as nat).0 {
        Ok(t) => t,
        Err(_e) => None,
    }
}

/// The error of reading token `j` of `cs`, if reading it failed.
pub open spec fn lex_error(cs: Seq<char>, j: int) -> Option<Seq<char>> {
    match lex_state(cs, j as nat).0 {
        Err(e) => Some(e),
        Ok(_t) => None,
    }
}

proof fn lemma_lex_state(cs: Seq<char>, k: nat)
    ensures
        0 <= lex_state(cs, k).1 <= cs.len(),
        lex_state(cs, k).0 != Ok::<Option<SpecToken>, Seq<char>>(None) ==> lex_state(cs, k).1 >= k + 1,
        lex_state(cs, k).0 == Ok::<Option<SpecToken>, Seq<char>>(None) ==> lex_state(cs, k).1
            == cs.len(),
    decreases k,
{
    if k == 0 {
        lemma_next_token_moves(cs, 0, true);
    } else {
        lemma_lex_state(cs, (k - 1) as nat);
        let (_r, p, u) = lex_state(cs, (k - 1) as nat);
        lemma_next_token_moves(cs, p, u);
    }
}

/// A token that is read lies inside the text: there are fewer tokens than
/// characters.
pub proof fn lemma_tok_bound(cs: Seq<char>, j: int)
    requires
        tok(cs, j) is Some,
    ensures
        j < cs.len(),
{
    if j >= 0 {
        lemma_lex_state(cs, j as nat);
    }
}

/// An expression, with its text as sequences of characters.
pub enum SpecExpr {
    Num(Seq<char>),
    Str(Seq<char>),
    Var(Seq<char>),
    Func(Seq<char>, Seq<SpecExpr>),
    Binary(Seq<char>, Box<SpecExpr>, Box<SpecExpr>),
    Unary(Seq<char>, Box<SpecExpr>),
}

/// Why parsing failed: the lexer's error, a missing bracket, a token that
/// cannot start an expression, or a token left after one.
pub enum SpecParseError {
    Lex(Seq<char>),
    Message(Seq<char>),
    Unexpected(Option<SpecToken>),
    Trailing(Option<SpecToken>),
}

/// How tightly a binary operator binds; 0 for any other text.
pub open spec fn prec_of(op: Seq<char>) -> int {
    if op == "*"@ || op == "/"@ || op == "%"@ {
        10
    } else if op == "+"@ || op == "-"@ {
        8
    } else if op == "=="@ || op == "<>"@ || op == "!="@ || op == "<="@ || op == ">="@ || op
        == "<"@ || op == ">"@ {
        6
    } else if op == "."@ {
        4
    } else if op == "&&"@ || op == "||"@ {
        3
    } else {
        0
    }
}

/// What is left to read from token `j` on, as a bound.
pub open spec fn measure(cs: Seq<char>, j: int) -> int {
    cs.len() + 2 - j
}

/// Whether a parse that began at token `j` ended well placed: at a token
/// `k` no earlier, and no further than the length of the text. A parse
/// always does; the test keeps the definitions below well founded.
pub open spec fn ends_well(cs: Seq<char>, j: int, k: int) -> bool {
    j <= k <= cs.len()
}

/// The error of a parse that did not end well placed (never met).
pub open spec fn misplaced() -> SpecParseError {
    SpecParseError::Message(seq![])
}

/// Parses an expression whose first token is token `j`, taking binary
/// operators that bind tighter than `prec`: the expression and the index
/// of its last token, or the error.
pub open spec fn spec_parse_expression(cs: Seq<char>, j: int, prec: int) -> Result<
    (SpecExpr, int),
    SpecParseError,
>
    decreases measure(cs, j), 2int,
{
    match spec_parse_prefix(cs, j) {
        Err(e) => Err(e),
        Ok((left, k)) => if ends_well(cs, j, k) {
            spec_infix_loop(cs, left, k, prec)
        } else {
            Err(misplaced())
        },
    }
}

/// Extends `left`, whose last token is token `j`, with each binary
/// operator after it that binds tighter than `prec`, and its right side.
pub open spec fn spec_infix_loop(cs: Seq<char>, left: SpecExpr, j: int, prec: int) -> Result<
    (SpecExpr, int),
    SpecParseError,
>
    decreases measure(cs, j), 1int,
{
    match tok(cs, j + 1) {
        Some(SpecToken::Op(op)) => if prec < prec_of(op) {
            match lex_error(cs, j + 2) {
                Some(e) => Err(SpecParseError::Lex(e)),
                None => match lex_error(cs, j + 3) {
                    Some(e) => Err(SpecParseError::Lex(e)),
                    None => {
                        proof {
                            lemma_tok_bound(cs, j + 1);
                        }
                        match spec_parse_expression(cs, j + 2, prec_of(op)) {
                            Err(e) => Err(e),
                            Ok((right, k)) => if ends_well(cs, j + 2, k) {
                                spec_infix_loop(
                                    cs,
                                    SpecExpr::Binary(op, Box::new(left), Box::new(right)),
                                    k,
                                    prec,
                                )
                            } else {
                                Err(misplaced())
                            },
                        }
                    },
                },
            }
        } else {
            Ok((left, j))
        },
        _ => Ok((left, j)),
    }
}

/// Parses the arguments after the first, `args`, of a function call whose
/// last argument so far ends at token `j`: each comma and the argument
/// after it.
pub open spec fn spec_arg_loop(cs: Seq<char>, args: Seq<SpecExpr>, j: int) -> Result<
    (Seq<SpecExpr>, int),
    SpecParseError,
>
    decreases measure(cs, j), 1int,
{
    if tok(cs, j + 1) == Some(SpecToken::Comma) {
        match lex_error(cs, j + 2) {
            Some(e) => Err(SpecParseError::Lex(e)),
            None => match lex_error(cs, j + 3) {
                Some(e) => Err(SpecParseError::Lex(e)),
                None => {
                    proof {
                        lemma_tok_bound(cs, j + 1);
                    }
                    match spec_parse_expression(cs, j + 2, 0) {
                        Err(e) => Err(e),
                        Ok((a, k)) => if ends_well(cs, j + 2, k) {
                            spec_arg_loop(cs, args.push(a), k)
                        } else {
                            Err(misplaced())
                        },
                    }
                },
            },
        }
    } else {
        Ok((args, j))
    }
}

/// Parses what token `j` starts: a number, string or variable; a name, or
/// a function call with its arguments; an expression in brackets; or a
/// unary minus and what binds to it.
pub open spec fn spec_parse_prefix(cs: Seq<char>, j: int) -> Result<(SpecExpr, int), SpecParseError>
    decreases measure(cs, j), 1int,
{
    match tok(cs, j) {
        Some(SpecToken::Num(n)) => Ok((SpecExpr::Num(n), j)),
        Some(SpecToken::Str(s)) => Ok((SpecExpr::Str(s), j)),
        Some(SpecToken::Var(v)) => Ok((SpecExpr::Var(v), j)),
        Some(SpecToken::Ident(id)) => if tok(cs, j + 1) == Some(SpecToken::LParen) {
            match lex_error(cs, j + 2) {
                Some(e) => Err(SpecParseError::Lex(e)),
                None => match lex_error(cs, j + 3) {
                    Some(e) => Err(SpecParseError::Lex(e)),
                    None => if tok(cs, j + 2) == Some(SpecToken::RParen) {
                        match lex_error(cs, j + 4) {
                            Some(e) => Err(SpecParseError::Lex(e)),
                            None => Ok((SpecExpr::Func(id, seq![]), j + 3)),
                        }
                    } else {
                        proof {
                            lemma_tok_bound(cs, j + 1);
                        }
                        match spec_parse_expression(cs, j + 2, 0) {
                            Err(e) => Err(e),
                            Ok((a, k)) => if ends_well(cs, j + 2, k) {
                                match spec_arg_loop(cs, seq![a], k) {
                                    Err(e) => Err(e),
                                    Ok((args, k2)) => if tok(cs, k2 + 1) != Some(SpecToken::RParen) {
                                        Err(
                                            SpecParseError::Message(
                                                "Expected matching ')' in function call"@,
                                            ),
                                        )
                                    } else {
                                        match lex_error(cs, k2 + 2) {
                                            Some(e) => Err(SpecParseError::Lex(e)),
                                            None => Ok((SpecExpr::Func(id, args), k2 + 1)),
                                        }
                                    },
                                }
                            } else {
                                Err(misplaced())
                            },
                        }
                    },
                },
            }
        } else {
            Ok((SpecExpr::Str(id), j))
        },
        Some(SpecToken::LParen) => match lex_error(cs, j + 2) {
            Some(e) => Err(SpecParseError::Lex(e)),
            None => {
                proof {
                    lemma_tok_bound(cs, j);
                }
                match spec_parse_expression(cs, j + 1, 0) {
                    Err(e) => Err(e),
                    Ok((inner, k)) => if tok(cs, k + 1) != Some(SpecToken::RParen) {
                        Err(SpecParseError::Message("Expected matching ')'"@))
                    } else {
                        match lex_error(cs, k + 2) {
                            Some(e) => Err(SpecParseError::Lex(e)),
                            None => Ok((inner, k + 1)),
                        }
                    },
                }
            },
        },
        Some(SpecToken::Op(op)) => if op == "UM"@ {
            match lex_error(cs, j + 2) {
                Some(e) => Err(SpecParseError::Lex(e)),
                None => {
                    proof {
                        lemma_tok_bound(cs, j);
                    }
                    match spec_parse_expression(cs, j + 1, 11) {
                        Err(e) => Err(e),
                        Ok((inner, k)) => Ok((SpecExpr::Unary("-"@, Box::new(inner)), k)),
                    }
                }
            }
        } else {
            Err(SpecParseError::Unexpected(tok(cs, j)))
        },
        _ => Err(SpecParseError::Unexpected(tok(cs, j))),
    }
}

/// Parses the expressions from token `j` on, separated by semicolons,
/// after the expressions `acc` already read.
pub open spec fn spec_parse_all(cs: Seq<char>, j: int, acc: Seq<SpecExpr>) -> Result<Seq<SpecExpr>, SpecParseError>
    decreases measure(cs, j),
{
    if tok(cs, j) is None {
        Ok(acc)
    } else {
        match spec_parse_expression(cs, j, 0) {
            Err(e) => Err(e),
            Ok((e, k)) => if ends_well(cs, j, k) {
                match lex_error(cs, k + 2) {
                    Some(x) => Err(SpecParseError::Lex(x)),
                    None => if tok(cs, k + 1) == Some(SpecToken::Semicolon) {
                        proof {
                            lemma_tok_bound(cs, k + 1);
                        }
                        match lex_error(cs, k + 3) {
                            Some(x) => Err(SpecParseError::Lex(x)),
                            None => spec_parse_all(cs, k + 2, acc.push(e)),
                        }
                    } else if tok(cs, k + 1) is Some {
                        Err(SpecParseError::Trailing(tok(cs, k + 1)))
                    } else {
                        spec_parse_all(cs, k + 1, acc.push(e))
                    },
                }
            } else {
                Err(misplaced())
            },
        }
    }
}

/// The expressions of `cs`, or why they cannot be parsed.
pub open spec fn spec_parse(cs: Seq<char>) -> Result<Seq<SpecExpr>, SpecParseError> {
    match lex_error(cs, 0) {
        Some(e) => Err(SpecParseError::Lex(e)),
        None => match lex_error(cs, 1) {
            Some(e) => Err(SpecParseError::Lex(e)),
            None => spec_parse_all(cs, 0, seq![]),
        },
    }
}


/// An expression. A number keeps the text it was written with.
#[derive(Debug)]
pub enum Expr {
    Num(String),
    Str(String),
    Var(String),
    Func(String, Vec<Expr>),
    Binary(String, Box<Expr>, Box<Expr>),
    Unary(String, Box<Expr>),
}

/// Why parsing failed (see [`SpecParseError`]).
#[derive(Debug)]
pub enum ParseError {
    Lex(String),
    Message(String),
    Unexpected(Option<Token>),
    Trailing(Option<Token>),
}

/// An expression as a value.
pub open spec fn expr_v(e: Expr) -> SpecExpr
    decreases e,
{
    match e {
        Expr::Num(n) => SpecExpr::Num(n@),
        Expr::Str(s) => SpecExpr::Str(s@),
        Expr::Var(v) => SpecExpr::Var(v@),
        Expr::Func(n, args) => SpecExpr::Func(n@, exprs_v(args@)),
        Expr::Binary(op, l, r) => SpecExpr::Binary(op@, Box::new(expr_v(*l)), Box::new(expr_v(*r))),
        Expr::Unary(op, x) => SpecExpr::Unary(op@, Box::new(expr_v(*x))),
    }
}

/// A list of expressions as values.
pub open spec fn exprs_v(es: Seq<Expr>) -> Seq<SpecExpr>
    decreases es,
{
    if es.len() == 0 {
        seq![]
    } else {
        exprs_v(es.drop_last()).push(expr_v(es.last()))
    }
}

proof fn lemma_exprs_push(es: Seq<Expr>, e: Expr)
    ensures
        exprs_v(es.push(e)) == exprs_v(es).push(expr_v(e)),
{
    assert(es.push(e).drop_last() =~= es);
}

/// A token that may be absent, as a value.
pub open spec fn opt_tok(t: Option<Token>) -> Option<SpecToken> {
    match t {
        Some(x) => Some(x@),
        None => None,
    }
}

/// A parse error as a value.
pub open spec fn err_v(e: ParseError) -> SpecParseError {
    match e {
        ParseError::Lex(m) => SpecParseError::Lex(m@),
        ParseError::Message(m) => SpecParseError::Message(m@),
        ParseError::Unexpected(t) => SpecParseError::Unexpected(opt_tok(t)),
        ParseError::Trailing(t) => SpecParseError::Trailing(opt_tok(t)),
    }
}

/// A parser: the lexer, the current token and the one after it.
pub struct Parser {
    lexer: Lexer,
    current_token: Option<Token>,
    peek_token: Option<Token>,
    at: Ghost<int>,
}

impl Parser {
    /// The text being parsed.
    pub closed spec fn text(&self) -> Seq<char> {
        self.lexer.chars@
    }

    /// The index of the current token.
    pub closed spec fn at(&self) -> int {
        self.at@
    }

    /// The lexer has read tokens up to the one after the current one, and
    /// both are held.
    pub closed spec fn wf(&self) -> bool {
        let cs = self.lexer.chars@;
        let j = self.at@;
        &&& j >= 0
        &&& self.lexer.pos <= cs.len()
        &&& self.lexer.pos as int == lex_state(cs, (j + 1) as nat).1
        &&& self.lexer.can_be_unary == lex_state(cs, (j + 1) as nat).2
        &&& lex_state(cs, j as nat).0 == Ok::<Option<SpecToken>, Seq<char>>(opt_tok(self.current_token))
        &&& lex_state(cs, (j + 1) as nat).0 == Ok::<Option<SpecToken>, Seq<char>>(opt_tok(self.peek_token))
    }

    /// The current token, as a value.
    pub closed spec fn current(&self) -> Option<SpecToken> {
        opt_tok(self.current_token)
    }

    /// A parser at the start of `input`, with its first two tokens read.
    pub fn new(input: &str) -> (r: Result<Parser, ParseError>)
        ensures
            match lex_error(input@, 0) {
                Some(e) => r matches Err(x) && err_v(x) == SpecParseError::Lex(e),
                None => match lex_error(input@, 1) {
                    Some(e) => r matches Err(x) && err_v(x) == SpecParseError::Lex(e),
                    None => r matches Ok(p) && p.wf() && p.text() == input@ && p.at() == 0,
                },
            },
    {
        let mut lexer = Lexer::new(input);
        let current_token = match lexer.next_token() {
            Ok(t) => t,
            Err(e) => return Err(ParseError::Lex(e)),
        };
        proof {
            lemma_next_token_moves(input@, 0, true);
        }
        let peek_token = match lexer.next_token() {
            Ok(t) => t,
            Err(e) => return Err(ParseError::Lex(e)),
        };
        let p = Parser { lexer, current_token, peek_token, at: Ghost(0) };
        assert(lex_state(input@, 1) == spec_next_token(input@, lex_state(input@, 0).1, lex_state(input@, 0).2));
        Ok(p)
    }

    /// Moves to the next token, reading the one after it.
    fn next_token(&mut self) -> (r: Result<(), ParseError>)
        requires
            old(self).wf(),
        ensures
            final(self).text() == old(self).text(),
            match lex_error(old(self).text(), old(self).at() + 2) {
                Some(e) => r matches Err(x) && err_v(x) == SpecParseError::Lex(e),
                None => r is Ok && final(self).wf() && final(self).at() == old(self).at() + 1,
            },
    {
        let ghost cs = self.lexer.chars@;
        let ghost j = self.at@;
        proof {
            lemma_next_token_moves(cs, self.lexer.pos as int, self.lexer.can_be_unary);
            assert(lex_state(cs, (j + 2) as nat) == spec_next_token(cs, lex_state(cs, (j + 1) as nat).1, lex_state(cs, (j + 1) as nat).2));
        }
        let t = match self.lexer.next_token() {
            Ok(t) => t,
            Err(e) => return Err(ParseError::Lex(e)),
        };
        std::mem::swap(&mut self.current_token, &mut self.peek_token);
        self.peek_token = t;
        self.at = Ghost(j + 1);
        Ok(())
    }

    /// Parses an expression from the current token, taking the binary
    /// operators that bind tighter than `precedence` (see
    /// [`spec_parse_expression`]); the current token is then its last.
    pub fn parse_expression(&mut self, precedence: i32) -> (r: Result<Expr, ParseError>)
        requires
            old(self).wf(),
        ensures
            final(self).text() == old(self).text(),
            match spec_parse_expression(old(self).text(), old(self).at(), precedence as int) {
                Ok((e, k)) => r matches Ok(x) && expr_v(x) == e && final(self).wf() && final(self).at()
                    == k && ends_well(old(self).text(), old(self).at(), k),
                Err(err) => r matches Err(x) && err_v(x) == err,
            },
        decreases measure(old(self).text(), old(self).at()), 2int,
    {
        let ghost cs = self.text();
        let ghost j0 = self.at();
        let mut left = match self.parse_prefix() {
            Ok(e) => e,
            Err(x) => return Err(x),
        };
        loop
            invariant
                self.wf(),
                self.text() == cs,
                cs == old(self).text(),
                j0 == old(self).at(),
                j0 >= 0,
                ends_well(cs, j0, self.at()),
                spec_parse_expression(cs, j0, precedence as int) == spec_infix_loop(
                    cs,
                    expr_v(left),
                    self.at(),
                    precedence as int,
                ),
            decreases measure(cs, self.at()),
        {
            let go = self.peek_token.is_some() && precedence < self.peek_precedence();
            if !go {
                return Ok(left);
            }
            let op = match &self.peek_token {
                Some(Token::Op(op)) => lit(op.as_str()),
                _ => return Ok(left),
            };
            let ghost j = self.at();
            proof {
                lemma_tok_bound(cs, j + 1);
            }
            match self.next_token() {
                Ok(()) => {},
                Err(x) => return Err(x),
            }
            left = match self.parse_infix(left, &op) {
                Ok(e) => e,
                Err(x) => return Err(x),
            };
        }
    }

    /// Parses the right side of the binary operator `op`, the current
    /// token, and joins it to `left`.
    fn parse_infix(&mut self, left: Expr, op: &String) -> (r: Result<Expr, ParseError>)
        requires
            old(self).wf(),
            old(self).current() == Some(SpecToken::Op(op@)),
        ensures
            final(self).text() == old(self).text(),
            match lex_error(old(self).text(), old(self).at() + 2) {
                Some(e) => r matches Err(x) && err_v(x) == SpecParseError::Lex(e),
                None => match spec_parse_expression(old(self).text(), old(self).at() + 1, prec_of(op@)) {
                    Ok((right, k)) => r matches Ok(x) && expr_v(x) == SpecExpr::Binary(
                        op@,
                        Box::new(expr_v(left)),
                        Box::new(right),
                    ) && final(self).wf() && final(self).at() == k && ends_well(
                        old(self).text(),
                        old(self).at() + 1,
                        k,
                    ),
                    Err(err) => r matches Err(x) && err_v(x) == err,
                },
            },
        decreases measure(old(self).text(), old(self).at()), 1int,
    {
        proof {
            lemma_tok_bound(self.text(), self.at());
        }
        let prec = Self::get_precedence(op.as_str());
        match self.next_token() {
            Ok(()) => {},
            Err(x) => return Err(x),
        }
        let right = match self.parse_expression(prec) {
            Ok(e) => e,
            Err(x) => return Err(x),
        };
        Ok(Expr::Binary(lit(op.as_str()), Box::new(left), Box::new(right)))
    }

    /// Parses what the current token starts (see [`spec_parse_prefix`]).
    fn parse_prefix(&mut self) -> (r: Result<Expr, ParseError>)
        requires
            old(self).wf(),
        ensures
            final(self).text() == old(self).text(),
            match spec_parse_prefix(old(self).text(), old(self).at()) {
                Ok((e, k)) => r matches Ok(x) && expr_v(x) == e && final(self).wf() && final(self).at()
                    == k && ends_well(old(self).text(), old(self).at(), k),
                Err(err) => r matches Err(x) && err_v(x) == err,
            },
        decreases measure(old(self).text(), old(self).at()), 1int,
    {
        let ghost cs = self.text();
        let ghost j = self.at();
        match &self.current_token {
            Some(Token::Num(n)) => {
                proof {
                    lemma_tok_bound(cs, j);
                }
                return Ok(Expr::Num(lit(n.as_str())));
            },
            Some(Token::Str(x)) => {
                proof {
                    lemma_tok_bound(cs, j);
                }
                return Ok(Expr::Str(lit(x.as_str())));
            },
            Some(Token::Var(v)) => {
                proof {
                    lemma_tok_bound(cs, j);
                }
                return Ok(Expr::Var(lit(v.as_str())));
            },
            _ => {},
        }
        let ident = match &self.current_token {
            Some(Token::Ident(id)) => Some(lit(id.as_str())),
            _ => None,
        };
        if let Some(id) = ident {
            proof {
                lemma_tok_bound(cs, j);
            }
            if !is_lparen(&self.peek_token) {
                return Ok(Expr::Str(id));
            }
            return self.parse_call(id);
        }
        if is_lparen(&self.current_token) {
            return self.parse_group();
        }
        if is_unary_minus(&self.current_token) {
            return self.parse_negation();
        }
        let t = self.current_token.take();
        Err(ParseError::Unexpected(t))
    }

    /// Parses a function call: the current token is its name `id`, the
    /// next its opening bracket.
    fn parse_call(&mut self, id: String) -> (r: Result<Expr, ParseError>)
        requires
            old(self).wf(),
            old(self).current() == Some(SpecToken::Ident(id@)),
            tok(old(self).text(), old(self).at() + 1) == Some(SpecToken::LParen),
        ensures
            final(self).text() == old(self).text(),
            match spec_parse_prefix(old(self).text(), old(self).at()) {
                Ok((e, k)) => r matches Ok(x) && expr_v(x) == e && final(self).wf() && final(self).at()
                    == k && ends_well(old(self).text(), old(self).at(), k),
                Err(err) => r matches Err(x) && err_v(x) == err,
            },
        decreases measure(old(self).text(), old(self).at()), 0int,
    {
        let ghost cs = self.text();
        let ghost j = self.at();
        proof {
            lemma_tok_bound(cs, j + 1);
        }
        match self.next_token() {
            Ok(()) => {},
            Err(x) => return Err(x),
        }
        match self.next_token() {
            Ok(()) => {},
            Err(x) => return Err(x),
        }
        let mut args: Vec<Expr> = Vec::new();
        if is_rparen(&self.current_token) {
            proof {
                lemma_tok_bound(cs, j + 2);
            }
            match self.next_token() {
                Ok(()) => {},
                Err(x) => return Err(x),
            }
            assert(exprs_v(args@) =~= Seq::<SpecExpr>::empty());
            return Ok(Expr::Func(id, args));
        }
        let first = match self.parse_expression(0) {
            Ok(e) => e,
            Err(x) => return Err(x),
        };
        args.push(first);
        proof {
            lemma_exprs_push(Seq::<Expr>::empty(), args@[0]);
            assert(Seq::<Expr>::empty().push(args@[0]) =~= args@);
            assert(exprs_v(Seq::<Expr>::empty()) =~= Seq::<SpecExpr>::empty());
        }
        let args = match self.parse_args(args) {
            Ok(a) => a,
            Err(x) => return Err(x),
        };
        if !is_rparen(&self.peek_token) {
            return Err(ParseError::Message(lit("Expected matching ')' in function call")));
        }
        proof {
            lemma_tok_bound(cs, self.at() + 1);
        }
        match self.next_token() {
            Ok(()) => {},
            Err(x) => return Err(x),
        }
        Ok(Expr::Func(id, args))
    }

    /// Parses the arguments of a call after those read, `args`, the last of
    /// which ends at the current token: each comma and the argument after
    /// it (see [`spec_arg_loop`]).
    fn parse_args(&mut self, args: Vec<Expr>) -> (r: Result<Vec<Expr>, ParseError>)
        requires
            old(self).wf(),
            old(self).at() <= old(self).text().len(),
        ensures
            final(self).text() == old(self).text(),
            match spec_arg_loop(old(self).text(), exprs_v(args@), old(self).at()) {
                Ok((es, k)) => r matches Ok(v) && exprs_v(v@) == es && final(self).wf()
                    && final(self).at() == k && old(self).at() <= k <= old(self).text().len(),
                Err(err) => r matches Err(x) && err_v(x) == err,
            },
        decreases measure(old(self).text(), old(self).at()), 0int,
    {
        let ghost cs = self.text();
        let ghost j = self.at();
        if !is_comma(&self.peek_token) {
            return Ok(args);
        }
        proof {
            lemma_tok_bound(cs, j + 1);
        }
        match self.next_token() {
            Ok(()) => {},
            Err(x) => return Err(x),
        }
        match self.next_token() {
            Ok(()) => {},
            Err(x) => return Err(x),
        }
        let a = match self.parse_expression(0) {
            Ok(e) => e,
            Err(x) => return Err(x),
        };
        let mut args = args;
        let ghost before = args@;
        args.push(a);
        proof {
            lemma_exprs_push(before, a);
        }
        self.parse_args(args)
    }

    /// Parses an expression in brackets: the current token is the opening
    /// one.
    fn parse_group(&mut self) -> (r: Result<Expr, ParseError>)
        requires
            old(self).wf(),
            old(self).current() == Some(SpecToken::LParen),
        ensures
            final(self).text() == old(self).text(),
            match spec_parse_prefix(old(self).text(), old(self).at()) {
                Ok((e, k)) => r matches Ok(x) && expr_v(x) == e && final(self).wf() && final(self).at()
                    == k && ends_well(old(self).text(), old(self).at(), k),
                Err(err) => r matches Err(x) && err_v(x) == err,
            },
        decreases measure(old(self).text(), old(self).at()), 0int,
    {
        let ghost cs = self.text();
        let ghost j = self.at();
        proof {
            lemma_tok_bound(cs, j);
        }
        match self.next_token() {
            Ok(()) => {},
            Err(x) => return Err(x),
        }
        let inner = match self.parse_expression(0) {
            Ok(e) => e,
            Err(x) => return Err(x),
        };
        if !is_rparen(&self.peek_token) {
            return Err(ParseError::Message(lit("Expected matching ')'")));
        }
        proof {
            lemma_tok_bound(cs, self.at() + 1);
        }
        match self.next_token() {
            Ok(()) => {},
            Err(x) => return Err(x),
        }
        Ok(inner)
    }

    /// Parses a unary minus, the current token, and what binds to it.
    fn parse_negation(&mut self) -> (r: Result<Expr, ParseError>)
        requires
            old(self).wf(),
            old(self).current() == Some(SpecToken::Op("UM"@)),
        ensures
            final(self).text() == old(self).text(),
            match spec_parse_prefix(old(self).text(), old(self).at()) {
                Ok((e, k)) => r matches Ok(x) && expr_v(x) == e && final(self).wf() && final(self).at()
                    == k && ends_well(old(self).text(), old(self).at(), k),
                Err(err) => r matches Err(x) && err_v(x) == err,
            },
        decreases measure(old(self).text(), old(self).at()), 0int,
    {
        let ghost cs = self.text();
        let ghost j = self.at();
        proof {
            lemma_tok_bound(cs, j);
        }
        match self.next_token() {
            Ok(()) => {},
            Err(x) => return Err(x),
        }
        let inner = match self.parse_expression(11) {
            Ok(e) => e,
            Err(x) => return Err(x),
        };
        proof {
            reveal_strlit("-");
        }
        Ok(Expr::Unary(lit("-"), Box::new(inner)))
    }

    /// Parses the expressions from the current token on, separated by
    /// semicolons (see [`spec_parse_all`]).
    pub fn parse_all_expressions(&mut self) -> (r: Result<Vec<Expr>, ParseError>)
        requires
            old(self).wf(),
        ensures
            match spec_parse_all(old(self).text(), old(self).at(), seq![]) {
                Ok(es) => r matches Ok(v) && exprs_v(v@) == es,
                Err(err) => r matches Err(x) && err_v(x) == err,
            },
    {
        let ghost cs = self.text();
        let ghost j0 = self.at();
        let mut exprs: Vec<Expr> = Vec::new();
        assert(exprs_v(exprs@) =~= Seq::<SpecExpr>::empty());
        while self.current_token.is_some()
            invariant
                self.wf(),
                self.text() == cs,
                cs == old(self).text(),
                j0 == old(self).at(),
                spec_parse_all(cs, j0, seq![]) == spec_parse_all(cs, self.at(), exprs_v(exprs@)),
            decreases measure(cs, self.at()),
        {
            let ghost j = self.at();
            proof {
                lemma_tok_bound(cs, j);
            }
            let e = match self.parse_expression(0) {
                Ok(e) => e,
                Err(x) => return Err(x),
            };
            let ghost before = exprs@;
            exprs.push(e);
            proof {
                lemma_exprs_push(before, e);
            }
            match self.next_token() {
                Ok(()) => {},
                Err(x) => return Err(x),
            }
            if is_semicolon(&self.current_token) {
                proof {
                    lemma_tok_bound(cs, self.at());
                }
                match self.next_token() {
                    Ok(()) => {},
                    Err(x) => return Err(x),
                }
            } else if self.current_token.is_some() {
                let t = self.current_token.take();
                return Err(ParseError::Trailing(t));
            }
        }
        Ok(exprs)
    }

    /// How tightly the binary operator `op` binds (see [`prec_of`]).
    fn get_precedence(op: &str) -> (p: i32)
        ensures
            p == prec_of(op@),
    {
        let s = lit(op);
        if s == lit("*") || s == lit("/") || s == lit("%") {
            10
        } else if s == lit("+") || s == lit("-") {
            8
        } else if s == lit("==") || s == lit("<>") || s == lit("!=") || s == lit("<=") || s == lit(
            ">=",
        ) || s == lit("<") || s == lit(">") {
            6
        } else if s == lit(".") {
            4
        } else if s == lit("&&") || s == lit("||") {
            3
        } else {
            0
        }
    }

    /// How tightly the token after the current one binds, when it is an
    /// operator; 0 otherwise.
    fn peek_precedence(&self) -> (p: i32)
        requires
            self.wf(),
        ensures
            p == (match tok(self.text(), self.at() + 1) {
                Some(SpecToken::Op(op)) => prec_of(op),
                _ => 0,
            }),
    {
        match &self.peek_token {
            Some(Token::Op(op)) => Self::get_precedence(op.as_str()),
            _ => 0,
        }
    }
}


fn is_lparen(t: &Option<Token>) -> (b: bool)
    ensures
        b == (opt_tok(*t) == Some(SpecToken::LParen)),
{
    match t {
        Some(Token::LParen) => true,
        _ => false,
    }
}

fn is_rparen(t: &Option<Token>) -> (b: bool)
    ensures
        b == (opt_tok(*t) == Some(SpecToken::RParen)),
{
    match t {
        Some(Token::RParen) => true,
        _ => false,
    }
}

fn is_comma(t: &Option<Token>) -> (b: bool)
    ensures
        b == (opt_tok(*t) == Some(SpecToken::Comma)),
{
    match t {
        Some(Token::Comma) => true,
        _ => false,
    }
}

fn is_semicolon(t: &Option<Token>) -> (b: bool)
    ensures
        b == (opt_tok(*t) == Some(SpecToken::Semicolon)),
{
    match t {
        Some(Token::Semicolon) => true,
        _ => false,
    }
}

fn is_unary_minus(t: &Option<Token>) -> (b: bool)
    ensures
        b == (opt_tok(*t) matches Some(SpecToken::Op(op)) && op == "UM"@),
{
    match t {
        Some(Token::Op(op)) => *op == lit("UM"),
        _ => false,
    }
}

/// Parses the expressions of `input` (see [`spec_parse`]).
pub fn parse(input: &str) -> (r: Result<Vec<Expr>, ParseError>)
    ensures
        match spec_parse(input@) {
            Ok(es) => r matches Ok(v) && exprs_v(v@) == es,
            Err(err) => r matches Err(x) && err_v(x) == err,
        },
{
    let mut parser = match Parser::new(input) {
        Ok(p) => p,
        Err(x) => return Err(x),
    };
    parser.parse_all_expressions()
}

} // verus!
