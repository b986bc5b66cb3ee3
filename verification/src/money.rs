//! The text of the money command: its options, and the layout of an
//! amount already written with two decimals: grouped digits, the decimal
//! point, width, sign and currency symbol. Reading and rounding the amount
//! is the caller's.
use vstd::prelude::*;
use crate::num::{spec_parse_i32, parse_i32};
use crate::table::byte_len;
use crate::text::{chars_of, lit, push_chars, push_str, string_push};

verus! {

/// The options of the money command: the decimal point (one byte, `.` by
/// default), the thousands separator (`,` by default, none when given
/// empty) and the width (0 to 50, 0 by default), or the error.
pub open spec fn spec_money_options(
    dp: Option<Seq<char>>,
    ts: Option<Seq<char>>,
    width: Option<Seq<char>>,
) -> Result<(char, Option<char>, usize), Seq<char>> {
    let d = match dp {
        Some(s) => if byte_len(s) != 1 {
            None
        } else {
            Some(s[0])
        },
        None => Some('.'),
    };
    let t = match ts {
        Some(s) => if s.len() == 0 {
            None
        } else {
            Some(s[0])
        },
        None => Some(','),
    };
    match d {
        None => Err("Invalid decimal point value"@),
        Some(dc) => match width {
            None => Ok((dc, t, 0)),
            Some(ws) => match spec_parse_i32(ws) {
                None => Err("Width specified by -w must be integer"@),
                Some(w) => if w < 0 || w > 50 {
                    Err("Invalid width specified by -w: "@ + ws)
                } else {
                    Ok((dc, t, w as usize))
                },
            },
        },
    }
}

/// Checks the options of the money command (see [`spec_money_options`]).
pub fn money_options(dp: Option<&str>, ts: Option<&str>, width: Option<&str>) -> (r: Result<
    (char, Option<char>, usize),
    String,
>)
    ensures
        match spec_money_options(
            match dp {
                Some(s) => Some(s@),
                None => None,
            },
            match ts {
                Some(s) => Some(s@),
                None => None,
            },
            match width {
                Some(s) => Some(s@),
                None => None,
            },
        ) {
            Ok(v) => r == Ok::<(char, Option<char>, usize), String>(v),
            Err(e) => r matches Err(m) && m@ == e,
        },
{
    let d = match dp {
        Some(s) => {
            if s.as_bytes().len() != 1 {
                return Err(lit("Invalid decimal point value"));
            }
            let cs = chars_of(s);
            assert(cs@.len() > 0) by {
                if s@.len() == 0 {
                    assert(vstd::utf8::encode_utf8(s@) =~= Seq::<u8>::empty());
                }
            }
            cs[0]
        },
        None => '.',
    };
    let t = match ts {
        Some(s) => {
            let cs = chars_of(s);
            if cs.len() == 0 {
                None
            } else {
                Some(cs[0])
            }
        },
        None => Some(','),
    };
    match width {
        None => Ok((d, t, 0)),
        Some(ws) => match parse_i32(ws) {
            None => Err(lit("Width specified by -w must be integer")),
            Some(w) => {
                if w < 0 || w > 50 {
                    let mut m = lit("Invalid width specified by -w: ");
                    push_str(&mut m, ws);
                    Err(m)
                } else {
                    Ok((d, t, w as usize))
                }
            },
        },
    }
}

/// The digits `d` with the separator before every third digit from the
/// right, when there is one.
pub open spec fn grouped(d: Seq<char>, sep: Option<char>) -> Seq<char>
    decreases d.len(),
{
    if d.len() <= 3 {
        d
    } else {
        grouped(d.subrange(0, d.len() - 3), sep) + match sep {
            Some(c) => seq![c],
            None => seq![],
        } + d.subrange(d.len() - 3, d.len() as int)
    }
}

/// The position of the first `.` in `s`, or its length.
pub open spec fn dot_index(s: Seq<char>) -> int
    decreases s.len(),
{
    if s.len() == 0 {
        0
    } else if s[0] == '.' {
        0
    } else {
        1 + dot_index(s.drop_first())
    }
}

/// An amount written with two decimals, `fixed`, laid out: its whole part
/// grouped, the decimal point, its decimals, right-aligned to `width`
/// characters, after the sign text (`minus` or `plus`) and the symbol.
pub open spec fn money_text(
    fixed: Seq<char>,
    negative: bool,
    dp: char,
    sep: Option<char>,
    symbol: Seq<char>,
    plus: Seq<char>,
    minus: Seq<char>,
    width: usize,
) -> Seq<char> {
    let i = dot_index(fixed);
    let body = grouped(fixed.subrange(0, i), sep) + seq![dp] + fixed.subrange(i + 1, fixed.len() as int);
    let aligned = if body.len() < width {
        Seq::new((width - body.len()) as nat, |_k: int| ' ') + body
    } else {
        body
    };
    (if negative {
        minus
    } else {
        plus
    }) + symbol + aligned
}

proof fn lemma_dot_index(s: Seq<char>)
    ensures
        0 <= dot_index(s) <= s.len(),
        dot_index(s) < s.len() ==> s[dot_index(s)] == '.',
        forall|k: int| 0 <= k < dot_index(s) ==> s[k] != '.',
    decreases s.len(),
{
    if s.len() > 0 && s[0] != '.' {
        lemma_dot_index(s.drop_first());
        assert forall|k: int| 0 <= k < dot_index(s) implies s[k] != '.' by {
            if k > 0 {
                assert(s[k] == s.drop_first()[k - 1]);
            }
        }
    }
}

fn grouped_digits(d: &Vec<char>, from: usize, to: usize, sep: Option<char>) -> (r: String)
    requires
        from <= to <= d@.len(),
    ensures
        r@ == grouped(d@.subrange(from as int, to as int), sep),
    decreases to - from,
{
    let ghost x = d@.subrange(from as int, to as int);
    if to - from <= 3 {
        let mut r = String::new();
        push_chars(&mut r, d, from, to);
        assert(r@ =~= x);
        return r;
    }
    let mut r = grouped_digits(d, from, to - 3, sep);
    if let Some(c) = sep {
        string_push(&mut r, c);
    }
    push_chars(&mut r, d, to - 3, to);
    assert(x.subrange(0, x.len() - 3) =~= d@.subrange(from as int, to - 3));
    assert(x.subrange(x.len() - 3, x.len() as int) =~= d@.subrange(to - 3, to as int));
    proof {
        match sep {
            Some(c) => assert(r@ =~= grouped(x, sep)),
            None => assert(r@ =~= grouped(x, sep)),
        }
    }
    r
}

/// Lays out an amount written with two decimals (see [`money_text`]);
/// the text holds a decimal point.
#[allow(clippy::too_many_arguments)]
pub fn format_money_text(
    fixed: &str,
    negative: bool,
    dp: char,
    sep: Option<char>,
    symbol: &str,
    plus: &str,
    minus: &str,
    width: usize,
) -> (r: String)
    requires
        fixed@.contains('.'),
    ensures
        r@ == money_text(fixed@, negative, dp, sep, symbol@, plus@, minus@, width),
{
    let cs = chars_of(fixed);
    let mut i: usize = 0;
    while i < cs.len() && cs[i] != '.'
        invariant
            i <= cs@.len(),
            cs@ == fixed@,
            forall|k: int| 0 <= k < i ==> cs@[k] != '.',
        decreases cs@.len() - i,
    {
        i += 1;
    }
    proof {
        lemma_dot_index(fixed@);
        let j = choose|j: int| 0 <= j < fixed@.len() && fixed@[j] == '.';
        assert(i < cs@.len()) by {
            if i >= cs@.len() {
                assert(fixed@[j] != '.');
            }
        }
        if dot_index(fixed@) < i {
            assert(cs@[dot_index(fixed@)] != '.');
        }
        if i < dot_index(fixed@) {
            assert(fixed@[i as int] != '.');
        }
        assert(i == dot_index(fixed@));
    }
    let mut body = grouped_digits(&cs, 0, i, sep);
    string_push(&mut body, dp);
    push_chars(&mut body, &cs, i + 1, cs.len());
    let n = body.as_str().unicode_len();
    let mut out = lit(if negative {
        minus
    } else {
        plus
    });
    push_str(&mut out, symbol);
    if n < width {
        let mut k: usize = 0;
        while k < width - n
            invariant
                k <= width - n,
                out@ == (if negative {
                    minus@
                } else {
                    plus@
                }) + symbol@ + Seq::new(k as nat, |_k: int| ' '),
            decreases width - n - k,
        {
            string_push(&mut out, ' ');
            assert(Seq::new((k + 1) as nat, |_k: int| ' ') =~= Seq::new(k as nat, |_k: int| ' ').push(' '));
            k += 1;
        }
    }
    push_str(&mut out, body.as_str());
    proof {
        let s0 = if negative {
            minus@
        } else {
            plus@
        };
        if n < width {
            assert(out@ =~= s0 + symbol@ + (Seq::new((width - n) as nat, |_k: int| ' ') + body@));
        } else {
            assert(out@ =~= s0 + symbol@ + body@);
        }
    }
    out
}

} // verus!
