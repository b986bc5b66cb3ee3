//! Templates filled from rows: the template command's `{n}` and `{@expr}`
//! placeholders, and the exec command's `%n` parameters.
use vstd::prelude::*;
use crate::escape::{escape_unix, prefixed};
use crate::num::{is_digit, parse_usize, spec_parse_usize};
use crate::text::{chars_of, lit, push_chars, push_str, string_push, sview};

verus! {

/// A piece of a template: literal text, the value of a 1-based field, an
/// expression to evaluate, or the error that stops the template there.
pub enum TplPiece {
    Text(String),
    Col(usize),
    Expr(String),
    Fail(String),
}

/// A piece as a value.
pub enum TplV {
    Text(Seq<char>),
    Col(usize),
    Expr(Seq<char>),
    Fail(Seq<char>),
}

/// A piece as a value.
pub open spec fn piece_v(p: TplPiece) -> TplV {
    match p {
        TplPiece::Text(t) => TplV::Text(t@),
        TplPiece::Col(n) => TplV::Col(n),
        TplPiece::Expr(e) => TplV::Expr(e@),
        TplPiece::Fail(m) => TplV::Fail(m@),
    }
}

/// The pieces as values.
pub open spec fn pieces_v(ps: Seq<TplPiece>) -> Seq<TplV> {
    ps.map_values(|p: TplPiece| piece_v(p))
}

/// What a backslash before `c` stands for: a newline for `n`, a tab for
/// `t`, else `c` itself.
pub open spec fn tpl_escape(c: char) -> char {
    if c == 'n' {
        '\n'
    } else if c == 't' {
        '\t'
    } else {
        c
    }
}

/// The position of the `}` that closes a placeholder whose text starts at
/// `k`, or `None` when a line end or the end comes first.
pub open spec fn brace_end(cs: Seq<char>, k: int) -> Option<int>
    decreases cs.len() - k,
{
    if k < 0 || k >= cs.len() || cs[k] == '\n' || cs[k] == '\r' {
        None
    } else if cs[k] == '}' {
        Some(k)
    } else {
        brace_end(cs, k + 1)
    }
}

/// The piece of a placeholder's text: `@expr` an expression, a number a
/// field, anything else an error.
pub open spec fn placeholder_piece(p: Seq<char>) -> TplV {
    if p.len() > 0 && p[0] == '@' {
        TplV::Expr(p.skip(1))
    } else {
        match spec_parse_usize(p) {
            Some(n) => TplV::Col(n),
            None => TplV::Fail("Invalid placeholder: {"@ + p + "}"@),
        }
    }
}

/// The pieces of a template from position `i`: each character is text,
/// a backslash escapes the next one, `{...}` is a placeholder; the first
/// error ends the pieces.
pub open spec fn tpl_scan(cs: Seq<char>, i: int) -> Seq<TplV>
    decreases cs.len() - i,
{
    if i < 0 || i >= cs.len() {
        seq![]
    } else if cs[i] == '\\' {
        if i + 1 >= cs.len() {
            seq![TplV::Fail("Invalid escape at end of line"@)]
        } else {
            seq![TplV::Text(seq![tpl_escape(cs[i + 1])])] + tpl_scan(cs, i + 2)
        }
    } else if cs[i] == '{' {
        proof {
            lemma_brace_end(cs, i + 1);
        }
        match brace_end(cs, i + 1) {
            None => seq![TplV::Fail("Missing closing brace in template"@)],
            Some(j) => {
                let piece = placeholder_piece(cs.subrange(i + 1, j));
                if piece is Fail {
                    seq![piece]
                } else {
                    seq![piece] + tpl_scan(cs, j + 1)
                }
            },
        }
    } else {
        seq![TplV::Text(seq![cs[i]])] + tpl_scan(cs, i + 1)
    }
}

/// Where a placeholder's closing brace lies.
pub proof fn lemma_brace_end(cs: Seq<char>, k: int)
    ensures
        brace_end(cs, k) matches Some(j) ==> k <= j < cs.len() && cs[j] == '}',
        brace_end(cs, k) matches Some(j) ==> forall|m: int|
            k <= m < j ==> cs[m] != '}' && cs[m] != '\n' && cs[m] != '\r',
    decreases cs.len() - k,
{
    if 0 <= k < cs.len() && cs[k] != '\n' && cs[k] != '\r' && cs[k] != '}' {
        lemma_brace_end(cs, k + 1);
    }
}

/// Cuts a template into its pieces (see [`tpl_scan`]).
pub fn parse_template(tpl: &str) -> (r: Vec<TplPiece>)
    ensures
        pieces_v(r@) == tpl_scan(tpl@, 0),
{
    let cs = chars_of(tpl);
    let n = cs.len();
    let mut out: Vec<TplPiece> = Vec::new();
    let mut i: usize = 0;
    assert(pieces_v(out@) =~= seq![]);
    while i < n
        invariant
            i <= n == cs@.len(),
            cs@ == tpl@,
            tpl_scan(cs@, 0) == pieces_v(out@) + tpl_scan(cs@, i as int),
        decreases n - i,
    {
        let ghost before = pieces_v(out@);
        let c = cs[i];
        if c == '\\' {
            if i + 1 >= n {
                out.push(TplPiece::Fail(lit("Invalid escape at end of line")));
                assert(pieces_v(out@) =~= before + tpl_scan(cs@, i as int));
                assert(tpl_scan(cs@, 0) =~= pieces_v(out@));
                return out;
            }
            let d = cs[i + 1];
            let e = if d == 'n' {
                '\n'
            } else if d == 't' {
                '\t'
            } else {
                d
            };
            let mut t = String::new();
            string_push(&mut t, e);
            let ghost tv = t@;
            out.push(TplPiece::Text(t));
            assert(pieces_v(out@) =~= before.push(TplV::Text(tv)));
            assert(tv =~= seq![tpl_escape(d)]);
            i += 2;
        } else if c == '{' {
            proof {
                lemma_brace_end(cs@, i + 1);
            }
            let mut j = i + 1;
            while j < n && cs[j] != '}' && cs[j] != '\n' && cs[j] != '\r'
                invariant
                    i < j <= n == cs@.len(),
                    brace_end(cs@, i + 1) == brace_end(cs@, j as int),
                decreases n - j,
            {
                j += 1;
            }
            if j >= n || cs[j] != '}' {
                out.push(TplPiece::Fail(lit("Missing closing brace in template")));
                assert(pieces_v(out@) =~= before + tpl_scan(cs@, i as int));
                assert(tpl_scan(cs@, 0) =~= pieces_v(out@));
                return out;
            }
            let mut p = String::new();
            push_chars(&mut p, &cs, i + 1, j);
            let pc = chars_of(p.as_str());
            let piece = if pc.len() > 0 && pc[0] == '@' {
                let mut e = String::new();
                push_chars(&mut e, &pc, 1, pc.len());
                assert(pc@.subrange(1, pc@.len() as int) =~= p@.skip(1));
                TplPiece::Expr(e)
            } else {
                match parse_usize(p.as_str()) {
                    Some(k) => TplPiece::Col(k),
                    None => {
                        let mut m = lit("Invalid placeholder: {");
                        push_str(&mut m, p.as_str());
                        push_str(&mut m, "}");
                        TplPiece::Fail(m)
                    },
                }
            };
            let fail = match &piece {
                TplPiece::Fail(_) => true,
                _ => false,
            };
            let ghost pv = piece_v(piece);
            assert(pv == placeholder_piece(cs@.subrange(i + 1, j as int)));
            out.push(piece);
            assert(pieces_v(out@) =~= before.push(pv));
            if fail {
                assert(tpl_scan(cs@, 0) =~= pieces_v(out@));
                return out;
            }
            i = j + 1;
        } else {
            let mut t = String::new();
            string_push(&mut t, c);
            let ghost tv = t@;
            out.push(TplPiece::Text(t));
            assert(pieces_v(out@) =~= before.push(TplV::Text(tv)));
            assert(tv =~= seq![c]);
            i += 1;
        }
    }
    assert(tpl_scan(cs@, 0) =~= pieces_v(out@));
    out
}

/// The number of expression pieces among the first `k`.
pub open spec fn n_exprs(ps: Seq<TplV>, k: int) -> int
    decreases k,
{
    if k <= 0 {
        0
    } else {
        n_exprs(ps, k - 1) + if ps[k - 1] is Expr {
            1int
        } else {
            0
        }
    }
}

/// The text of a filled template from its first `k` pieces and the
/// number of expression values used, or the error of a failing piece:
/// text as it is, field `n` of the row (nothing for 0 or past the row's
/// end), each expression's value in turn.
pub open spec fn fill_run(
    ps: Seq<TplV>,
    row: Seq<Seq<char>>,
    vals: Seq<Seq<char>>,
    k: int,
) -> Result<(Seq<char>, int), Seq<char>>
    decreases k,
{
    if k <= 0 {
        Ok((seq![], 0))
    } else {
        match fill_run(ps, row, vals, k - 1) {
            Err(e) => Err(e),
            Ok((t, j)) => match ps[k - 1] {
                TplV::Text(x) => Ok((t + x, j)),
                TplV::Col(n) => Ok(
                    (
                        t + if n > 0 && n - 1 < row.len() {
                            row[n - 1]
                        } else {
                            seq![]
                        },
                        j,
                    ),
                ),
                TplV::Expr(_) => Ok((t + vals[j], j + 1)),
                TplV::Fail(m) => Err(m),
            },
        }
    }
}

proof fn lemma_fill_count(ps: Seq<TplV>, row: Seq<Seq<char>>, vals: Seq<Seq<char>>, k: int)
    requires
        k >= 0,
    ensures
        fill_run(ps, row, vals, k) matches Ok((_t, j)) ==> j == n_exprs(ps, k),
    decreases k,
{
    if k > 0 {
        lemma_fill_count(ps, row, vals, k - 1);
    }
}

proof fn lemma_exprs_mono(ps: Seq<TplV>, a: int, b: int)
    requires
        0 <= a <= b,
    ensures
        n_exprs(ps, a) <= n_exprs(ps, b),
    decreases b - a,
{
    if a < b {
        lemma_exprs_mono(ps, a, b - 1);
    }
}

proof fn lemma_fill_err(ps: Seq<TplV>, row: Seq<Seq<char>>, vals: Seq<Seq<char>>, k: int, n: int)
    requires
        0 <= k <= n,
        fill_run(ps, row, vals, k) is Err,
    ensures
        fill_run(ps, row, vals, n) == fill_run(ps, row, vals, k),
    decreases n - k,
{
    if k < n {
        lemma_fill_err(ps, row, vals, k, n - 1);
    }
}

/// Fills a template for a row (see [`fill_run`]); `vals` holds the values
/// of its expression pieces, in order.
pub fn fill_template(pieces: &Vec<TplPiece>, row: &Vec<String>, vals: &Vec<String>) -> (r: Result<
    String,
    String,
>)
    requires
        vals@.len() >= n_exprs(pieces_v(pieces@), pieces@.len() as int),
    ensures
        match fill_run(pieces_v(pieces@), sview(row@), sview(vals@), pieces@.len() as int) {
            Ok((t, _j)) => r matches Ok(s) && s@ == t,
            Err(e) => r matches Err(m) && m@ == e,
        },
{
    let ghost pv = pieces_v(pieces@);
    let ghost rv = sview(row@);
    let ghost vv = sview(vals@);
    let nv = vals.len();
    let mut out = String::new();
    let mut j: usize = 0;
    let mut k: usize = 0;
    while k < pieces.len()
        invariant
            k <= pieces@.len(),
            nv == vals@.len(),
            pv == pieces_v(pieces@),
            rv == sview(row@),
            vv == sview(vals@),
            vals@.len() >= n_exprs(pv, pieces@.len() as int),
            fill_run(pv, rv, vv, k as int) == Ok::<(Seq<char>, int), Seq<char>>((out@, j as int)),
            j as int == n_exprs(pv, k as int),
        decreases pieces@.len() - k,
    {
        assert(pv[k as int] == piece_v(pieces@[k as int]));
        proof {
            lemma_exprs_mono(pv, k + 1, pieces@.len() as int);
        }
        match &pieces[k] {
            TplPiece::Text(t) => {
                push_str(&mut out, t.as_str());
            },
            TplPiece::Col(n) => {
                if *n > 0 && *n - 1 < row.len() {
                    assert(rv[*n - 1] == row@[*n - 1]@);
                    push_str(&mut out, row[*n - 1].as_str());
                }
            },
            TplPiece::Expr(_) => {
                assert(n_exprs(pv, k + 1) == j + 1);
                assert(vv[j as int] == vals@[j as int]@);
                push_str(&mut out, vals[j].as_str());
                j += 1;
            },
            TplPiece::Fail(m) => {
                proof {
                    lemma_fill_err(pv, rv, vv, k + 1, pieces@.len() as int);
                }
                return Err(lit(m.as_str()));
            },
        }
        k += 1;
    }
    Ok(out)
}

/// The command line of the exec command from position `i` of its
/// template: `%%` is `%`, `%n` is field `n` escaped for the shell (nothing
/// past the row's end); a `%` before anything else, or before 0, is an
/// error.
pub open spec fn cmd_scan(cs: Seq<char>, i: int, row: Seq<Seq<char>>) -> Result<Seq<char>, Seq<char>>
    decreases cs.len() - i,
{
    if i < 0 || i >= cs.len() {
        Ok(seq![])
    } else if cs[i] == '%' {
        if i + 1 < cs.len() && cs[i + 1] == '%' {
            match cmd_scan(cs, i + 2, row) {
                Err(e) => Err(e),
                Ok(rest) => Ok(seq!['%'] + rest),
            }
        } else if i + 1 < cs.len() && is_digit(cs[i + 1]) {
            proof {
                lemma_digit_run(cs, i + 1);
            }
            let j = digit_run(cs, i + 1);
            let num = cs.subrange(i + 1, j);
            match spec_parse_usize(num) {
                None => Err("Invalid parameter: %"@ + num),
                Some(n) => if n == 0 {
                    Err("Invalid parameter: %"@ + num)
                } else {
                    match cmd_scan(cs, j, row) {
                        Err(e) => Err(e),
                        Ok(rest) => Ok(
                            (if n - 1 < row.len() {
                                prefixed(row[n - 1], seq!['\\', '\'', '"'], '\\')
                            } else {
                                seq![]
                            }) + rest,
                        ),
                    }
                },
            }
        } else {
            Err("Invalid parameter"@)
        }
    } else {
        match cmd_scan(cs, i + 1, row) {
            Err(e) => Err(e),
            Ok(rest) => Ok(seq![cs[i]] + rest),
        }
    }
}

/// The end of the run of digits from `i`.
pub open spec fn digit_run(cs: Seq<char>, i: int) -> int
    decreases cs.len() - i,
{
    if 0 <= i < cs.len() && is_digit(cs[i]) {
        digit_run(cs, i + 1)
    } else {
        i
    }
}

/// A run of digits that starts with one ends after it.
pub proof fn lemma_digit_run(cs: Seq<char>, i: int)
    requires
        0 <= i <= cs.len(),
    ensures
        i <= digit_run(cs, i) <= cs.len(),
        i < cs.len() && is_digit(cs[i]) ==> digit_run(cs, i) > i,
    decreases cs.len() - i,
{
    if i < cs.len() && is_digit(cs[i]) {
        lemma_digit_run(cs, i + 1);
    }
}

/// The command line of the exec command for a row (see [`cmd_scan`]).
pub fn make_cmd(cmd_template: &str, row: &Vec<String>) -> (r: Result<String, String>)
    ensures
        match cmd_scan(cmd_template@, 0, sview(row@)) {
            Ok(t) => r matches Ok(s) && s@ == t,
            Err(e) => r matches Err(m) && m@ == e,
        },
{
    let cs = chars_of(cmd_template);
    let ghost rv = sview(row@);
    let n = cs.len();
    let mut cmd = String::new();
    let mut i: usize = 0;
    while i < n
        invariant
            i <= n == cs@.len(),
            cs@ == cmd_template@,
            rv == sview(row@),
            match cmd_scan(cs@, 0, rv) {
                Err(e) => cmd_scan(cs@, i as int, rv) == Err::<Seq<char>, Seq<char>>(e),
                Ok(all) => cmd_scan(cs@, i as int, rv) matches Ok(rest) && all == cmd@ + rest,
            },
        decreases n - i,
    {
        let c = cs[i];
        if c == '%' {
            if i + 1 < n && cs[i + 1] == '%' {
                string_push(&mut cmd, '%');
                i += 2;
            } else if i + 1 < n && '0' <= cs[i + 1] && cs[i + 1] <= '9' {
                proof {
                    lemma_digit_run(cs@, i + 1);
                }
                let mut j = i + 1;
                while j < n && '0' <= cs[j] && cs[j] <= '9'
                    invariant
                        i < j <= n == cs@.len(),
                        digit_run(cs@, i + 1) == digit_run(cs@, j as int),
                    decreases n - j,
                {
                    j += 1;
                }
                let mut num = String::new();
                push_chars(&mut num, &cs, i + 1, j);
                match parse_usize(num.as_str()) {
                    Some(k) if k > 0 => {
                        if k - 1 < row.len() {
                            assert(rv[k - 1] == row@[k - 1]@);
                            let e = escape_unix(row[k - 1].as_str());
                            push_str(&mut cmd, e.as_str());
                        }
                    },
                    _ => {
                        let mut m = lit("Invalid parameter: %");
                        push_str(&mut m, num.as_str());
                        return Err(m);
                    },
                }
                i = j;
            } else {
                return Err(lit("Invalid parameter"));
            }
        } else {
            string_push(&mut cmd, c);
            i += 1;
        }
    }
    Ok(cmd)
}

} // verus!
