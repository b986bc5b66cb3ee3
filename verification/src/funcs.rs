//! The functions of the expression language that work on text alone:
//! fields and positional parameters, list lookups, substrings, case,
//! regular-expression tests and the parts of an ISO date. The functions
//! that compute with numbers are evaluated by the caller.
use vstd::prelude::*;
use crate::dates::{chrono_date_exists, chrono_valid};
use crate::num::{dec_string, int_string, spec_parse_i32, spec_parse_nat, parse_i32, parse_usize, usize_to_string, i64_to_string};
use crate::pattern::{regex_build_error, regex_finds, regex_is_match, Pattern};
use crate::reshape::lower_char;
use crate::rowops::{find_key, key_position};
use crate::table::{byte_len, lemma_prefix_bytes};
use crate::text::{
    chars_of, lit, lower_text, push_chars, push_str, split_seq, split_str, string_push, sview, to_lower,
    to_upper, trim, trim_seq, upper_text,
};

verus! {

/// `"1"` or `"0"`.
pub open spec fn flag_text(b: bool) -> Seq<char> {
    if b {
        "1"@
    } else {
        "0"@
    }
}

fn flag_string(b: bool) -> (s: String)
    ensures
        s@ == flag_text(b),
{
    proof {
        reveal_strlit("1");
        reveal_strlit("0");
    }
    if b {
        lit("1")
    } else {
        lit("0")
    }
}

/// The field at position `n` (from 1) of a record, or nothing when `n - 1`
/// lies outside it; the record's length is compared as an `i32`.
pub open spec fn lookup(record: Seq<Seq<char>>, n: i32) -> Seq<char> {
    let i = n - 1;
    if i < 0 || i >= (record.len() as i32) {
        seq![]
    } else {
        record[i]
    }
}

fn lookup_field(record: &Vec<String>, n: i32) -> (r: String)
    requires
        n != i32::MIN,
    ensures
        r@ == lookup(sview(record@), n),
{
    let i = n - 1;
    let len = record.len() as i32;
    if i < 0 || i >= len {
        String::new()
    } else {
        assert(sview(record@)[i as int] == record@[i as int]@);
        record[i as usize].clone()
    }
}

/// What `$v` gives when `v` is a number: the field at that position, or
/// the error for a position below 1; `None` when `v` names a variable.
pub open spec fn spec_positional(v: Seq<char>, record: Seq<Seq<char>>) -> Option<Result<Seq<char>, Seq<char>>> {
    match spec_parse_i32(v) {
        None => None,
        Some(n) => if n - 1 < 0 {
            Some(Err("Invalid positional parameter: $"@ + v))
        } else {
            Some(Ok(lookup(record, n)))
        },
    }
}

/// The value of the positional parameter `$v` (see [`spec_positional`]).
pub fn positional(v: &str, record: &Vec<String>) -> (r: Option<Result<String, String>>)
    requires
        spec_parse_i32(v@) != Some(i32::MIN),
    ensures
        match spec_positional(v@, sview(record@)) {
            None => r is None,
            Some(Ok(s)) => r matches Some(Ok(t)) && t@ == s,
            Some(Err(e)) => r matches Some(Err(m)) && m@ == e,
        },
{
    match parse_i32(v) {
        None => None,
        Some(n) => {
            if n - 1 < 0 {
                let mut m = lit("Invalid positional parameter: $");
                push_str(&mut m, v);
                Some(Err(m))
            } else {
                Some(Ok(lookup_field(record, n)))
            }
        },
    }
}

/// The value of the last variable named `name` among `vars`, if any.
pub open spec fn var_value(vars: Seq<(Seq<char>, Seq<char>)>, name: Seq<char>) -> Option<Seq<char>>
    decreases vars.len(),
{
    if vars.len() == 0 {
        None
    } else if vars.last().0 == name {
        Some(vars.last().1)
    } else {
        var_value(vars.drop_last(), name)
    }
}

/// Named variables as values.
pub open spec fn vars_view(vars: Seq<(String, String)>) -> Seq<(Seq<char>, Seq<char>)> {
    vars.map_values(|p: (String, String)| (p.0@, p.1@))
}

/// What `$v` gives: a positional parameter when `v` is a number, else the
/// value of the variable named `v` (the last one set), else the error.
pub open spec fn spec_variable(
    v: Seq<char>,
    record: Seq<Seq<char>>,
    vars: Seq<(Seq<char>, Seq<char>)>,
) -> Result<Seq<char>, Seq<char>> {
    match spec_positional(v, record) {
        Some(r) => r,
        None => match var_value(vars, v) {
            Some(x) => Ok(x),
            None => Err("Unknown variable: $"@ + v),
        },
    }
}

/// The value of `$v` for `record`, with the named variables `vars` (see
/// [`spec_variable`]).
pub fn variable(v: &str, record: &Vec<String>, vars: &Vec<(String, String)>) -> (r: Result<String, String>)
    requires
        spec_parse_i32(v@) != Some(i32::MIN),
    ensures
        match spec_variable(v@, sview(record@), vars_view(vars@)) {
            Ok(s) => r matches Ok(t) && t@ == s,
            Err(e) => r matches Err(m) && m@ == e,
        },
{
    match positional(v, record) {
        Some(r) => r,
        None => {
            let name = lit(v);
            let ghost vv = vars_view(vars@);
            let mut k: usize = vars.len();
            assert(vv.take(k as int) =~= vv);
            while k > 0
                invariant
                    k <= vars@.len(),
                    vv == vars_view(vars@),
                    name@ == v@,
                    spec_positional(v@, sview(record@)) is None,
                    var_value(vv, v@) == var_value(vv.take(k as int), v@),
                decreases k,
            {
                assert(vv.take(k as int).drop_last() =~= vv.take(k - 1));
                assert(vv.take(k as int).last() == (vars@[k - 1].0@, vars@[k - 1].1@));
                if vars[k - 1].0 == name {
                    let val = vars[k - 1].1.clone();
                    assert(var_value(vv.take(k as int), v@) == Some(vars@[k - 1].1@));
                    assert(val@ == vars@[k - 1].1@);
                    return Ok(val);
                }
                k -= 1;
            }
            let mut m = lit("Unknown variable: $");
            push_str(&mut m, v);
            Err(m)
        },
    }
}

/// `field(a)`: the field at position `a`, or the error when `a` is not an
/// integer.
pub open spec fn spec_field_fn(a: Seq<char>, record: Seq<Seq<char>>) -> Result<Seq<char>, Seq<char>> {
    match spec_parse_i32(a) {
        None => Err("Parameter of field() must be integer"@),
        Some(n) => Ok(lookup(record, n)),
    }
}

/// `index(v, list)`: the position (from 1) of `v` among the comma-separated
/// items of `list`, or 0.
pub open spec fn spec_index_fn(v: Seq<char>, list: Seq<char>) -> Seq<char> {
    dec_string((find_key(split_seq(list, ','), v) + 1) as nat)
}

/// `pick(n, list)`: item `n` (from 1) of the comma-separated `list`, or
/// nothing; the error when `n` is not an integer.
pub open spec fn spec_pick_fn(a: Seq<char>, list: Seq<char>) -> Result<Seq<char>, Seq<char>> {
    match spec_parse_i32(a) {
        None => Err("First parameter of pick() must be integer"@),
        Some(n) => {
            let items = split_seq(list, ',');
            if n < 1 || n > (items.len() as i32) {
                Ok(seq![])
            } else {
                Ok(items[n - 1])
            }
        },
    }
}

/// Whether `n` occurs in `h` at position `i`.
pub open spec fn occurs_at(h: Seq<char>, n: Seq<char>, i: int) -> bool {
    0 <= i && i + n.len() <= h.len() && h.subrange(i, i + n.len()) == n
}

/// The first position at which `n` occurs in `h`, from `i` on, or -1.
pub open spec fn first_occurrence(h: Seq<char>, n: Seq<char>, i: int) -> int
    decreases h.len() + 1 - i,
{
    if i < 0 || i + n.len() > h.len() {
        -1
    } else if occurs_at(h, n, i) {
        i
    } else {
        first_occurrence(h, n, i + 1)
    }
}

/// `pos(h, n)`: one more than the byte offset of the first occurrence of
/// `n` in `h`, or 0.
pub open spec fn spec_pos_fn(h: Seq<char>, n: Seq<char>) -> Seq<char> {
    let i = first_occurrence(h, n, 0);
    if i < 0 {
        "0"@
    } else {
        dec_string((byte_len(h.take(i)) + 1) as nat)
    }
}

/// `s.parse::<i32>()`, or 0.
pub open spec fn int_or_zero(s: Seq<char>) -> i32 {
    match spec_parse_i32(s) {
        Some(n) => n,
        None => 0,
    }
}

/// `substr(s, p, l)`: the `l` characters of `s` from position `p` (from
/// 1), as far as `s` goes; the errors for a position below 1 or a
/// negative length.
pub open spec fn spec_substr_fn(s: Seq<char>, p: Seq<char>, l: Seq<char>) -> Result<Seq<char>, Seq<char>> {
    let pos = int_or_zero(p) - 1;
    let len = int_or_zero(l);
    if pos < 0 {
        Err("Invalid position in substr()"@)
    } else if len < 0 {
        Err("Invalid length in substr()"@)
    } else if pos >= s.len() {
        Ok(seq![])
    } else {
        let end = if pos + len < s.len() {
            pos + len
        } else {
            s.len() as int
        };
        Ok(s.subrange(pos as int, end))
    }
}

/// `s` with ASCII capitals made small (`str::to_ascii_lowercase`).
pub open spec fn ascii_lower_text(s: Seq<char>) -> Seq<char> {
    s.map_values(|c: char| lower_char(c))
}

/// What `s.parse::<u32>()` gives, as an option.
pub open spec fn spec_parse_u32(s: Seq<char>) -> Option<u32> {
    match spec_parse_nat(s) {
        Some(v) => if v <= u32::MAX {
            Some(v as u32)
        } else {
            None
        },
        None => None,
    }
}

/// The date that `s` (`y-m-d`) holds for `chrono`, as year, month and day.
pub open spec fn spec_parse_date(s: Seq<char>) -> Option<(i32, u32, u32)> {
    let parts = split_seq(s, '-');
    if parts.len() != 3 {
        None
    } else {
        match (spec_parse_i32(parts[0]), spec_parse_u32(parts[1]), spec_parse_u32(parts[2])) {
            (Some(y), Some(m), Some(d)) => if chrono_valid(y as int, m as int, d as int) {
                Some((y, m, d))
            } else {
                None
            },
            _ => None,
        }
    }
}

/// The error of a function called with the wrong number of arguments.
pub open spec fn arity_error(name: Seq<char>, n: nat) -> Seq<char> {
    name + "() expects "@ + dec_string(n) + if n == 1 {
        " argument"@
    } else {
        " arguments"@
    }
}

fn parse_u32(s: &str) -> (r: Option<u32>)
    ensures
        r == spec_parse_u32(s@),
{
    match parse_usize(s) {
        Some(v) => {
            if v <= 4294967295usize {
                Some(v as u32)
            } else {
                None
            }
        },
        None => None,
    }
}

/// Reads a date `y-m-d` as `chrono` does (see [`spec_parse_date`]).
pub fn parse_date(s: &str) -> (r: Option<(i32, u32, u32)>)
    ensures
        r == spec_parse_date(s@),
{
    let parts = split_str(s, '-');
    assert(sview(parts@).len() == parts@.len());
    if parts.len() != 3 {
        return None;
    }
    assert(sview(parts@)[0] == parts@[0]@);
    assert(sview(parts@)[1] == parts@[1]@);
    assert(sview(parts@)[2] == parts@[2]@);
    let y = match parse_i32(parts[0].as_str()) {
        Some(v) => v,
        None => return None,
    };
    let m = match parse_u32(parts[1].as_str()) {
        Some(v) => v,
        None => return None,
    };
    let d = match parse_u32(parts[2].as_str()) {
        Some(v) => v,
        None => return None,
    };
    if chrono_date_exists(y, m, d) {
        Some((y, m, d))
    } else {
        None
    }
}

proof fn lemma_first_occurrence(h: Seq<char>, n: Seq<char>, i: int)
    ensures
        first_occurrence(h, n, i) >= 0 ==> first_occurrence(h, n, i) >= i && occurs_at(
            h,
            n,
            first_occurrence(h, n, i),
        ),
    decreases h.len() + 1 - i,
{
    if !(i < 0 || i + n.len() > h.len()) && !occurs_at(h, n, i) {
        lemma_first_occurrence(h, n, i + 1);
    }
}

/// The position of the first occurrence of `n` in `h`, or `None`.
fn find_chars(h: &Vec<char>, n: &Vec<char>) -> (r: Option<usize>)
    ensures
        match r {
            Some(i) => first_occurrence(h@, n@, 0) == i,
            None => first_occurrence(h@, n@, 0) == -1,
        },
{
    if n.len() > h.len() {
        return None;
    }
    let hl = h.len();
    let last = hl - n.len();
    let mut i: usize = 0;
    loop
        invariant
            hl == h@.len(),
            n@.len() <= h@.len(),
            last == h@.len() - n@.len(),
            i <= last,
            first_occurrence(h@, n@, 0) == first_occurrence(h@, n@, i as int),
        decreases last - i,
    {
        let mut k: usize = 0;
        while k < n.len() && h[i + k] == n[k]
            invariant
                k <= n@.len(),
                i <= last,
                hl == h@.len(),
                last == h@.len() - n@.len(),
                forall|j: int| 0 <= j < k ==> h@[i + j] == n@[j],
            decreases n@.len() - k,
        {
            k += 1;
        }
        if k == n.len() {
            assert(h@.subrange(i as int, i + n@.len()) =~= n@);
            return Some(i);
        }
        assert(h@.subrange(i as int, i + n@.len())[k as int] != n@[k as int]);
        assert(!occurs_at(h@, n@, i as int));
        if i == last {
            assert(first_occurrence(h@, n@, i + 1) == -1);
            return None;
        }
        i += 1;
    }
}

/// Whether `s` is the text `t`.
fn is_name(s: &String, t: &str) -> (b: bool)
    ensures
        b == (s@ == t@),
{
    *s == lit(t)
}

/// `s` with ASCII capitals made small.
fn ascii_lower(s: &str) -> (r: String)
    ensures
        r@ == ascii_lower_text(s@),
{
    let cs = chars_of(s);
    let mut r = String::new();
    let mut i: usize = 0;
    while i < cs.len()
        invariant
            i <= cs@.len(),
            cs@ == s@,
            r@ == ascii_lower_text(cs@.take(i as int)),
        decreases cs@.len() - i,
    {
        let c = cs[i];
        let l = if 'A' <= c && c <= 'Z' {
            ((c as u8) + 32) as char
        } else {
            c
        };
        string_push(&mut r, l);
        assert(ascii_lower_text(cs@.take(i + 1)) =~= ascii_lower_text(cs@.take(i as int)).push(
            lower_char(c),
        ));
        i += 1;
    }
    assert(cs@.take(cs@.len() as int) =~= cs@);
    r
}

/// What a text function of the expression language gives for the
/// evaluated arguments `args` and the record; `None` for a name that is
/// not one of them (the caller evaluates those). Names are read with
/// ASCII case ignored.
pub open spec fn spec_text_function(
    name: Seq<char>,
    args: Seq<Seq<char>>,
    record: Seq<Seq<char>>,
) -> Option<Result<Seq<char>, Seq<char>>> {
    let n = ascii_lower_text(name);
    let a = args;
    if n == "day"@ || n == "month"@ || n == "year"@ || n == "isdate"@ || n == "field"@ || n
        == "find"@ || n == "isempty"@ || n == "isint"@ || n == "trim"@ || n == "upper"@ || n
        == "lower"@ || n == "len"@ {
        if a.len() != 1 {
            Some(Err(arity_error(n, 1)))
        } else if n == "field"@ {
            Some(spec_field_fn(a[0], record))
        } else if n == "find"@ {
            Some(
                match regex_build_error(a[0], false) {
                    Some(e) => Err("Invalid regex in find(): "@ + e),
                    None => Ok(
                        dec_string(
                            (first_match(a[0], record, record.len() as int) + 1) as nat,
                        ),
                    ),
                },
            )
        } else if n == "isempty"@ {
            Some(Ok(flag_text(trim_seq(a[0]).len() == 0)))
        } else if n == "isint"@ {
            Some(Ok(flag_text(spec_parse_i32(a[0]) is Some)))
        } else if n == "trim"@ {
            Some(Ok(trim_seq(a[0])))
        } else if n == "upper"@ {
            Some(Ok(upper_text(a[0])))
        } else if n == "lower"@ {
            Some(Ok(lower_text(a[0])))
        } else if n == "len"@ {
            Some(Ok(dec_string(a[0].len())))
        } else {
            let d = spec_parse_date(a[0]);
            Some(
                Ok(
                    if n == "isdate"@ {
                        flag_text(d is Some)
                    } else {
                        match d {
                            None => seq![],
                            Some((y, m, dd)) => if n == "day"@ {
                                dec_string(dd as nat)
                            } else if n == "month"@ {
                                dec_string(m as nat)
                            } else {
                                int_string(y as int)
                            },
                        }
                    },
                ),
            )
        }
    } else if n == "index"@ || n == "pick"@ || n == "pos"@ || n == "streq"@ || n == "match"@ {
        if a.len() != 2 {
            Some(Err(arity_error(n, 2)))
        } else if n == "index"@ {
            Some(Ok(spec_index_fn(a[0], a[1])))
        } else if n == "pick"@ {
            Some(spec_pick_fn(a[0], a[1]))
        } else if n == "pos"@ {
            Some(Ok(spec_pos_fn(a[0], a[1])))
        } else if n == "streq"@ {
            Some(Ok(flag_text(ascii_lower_text(a[0]) == ascii_lower_text(a[1]))))
        } else {
            Some(
                match regex_build_error(a[1], false) {
                    Some(e) => Err("Invalid regex in match(): "@ + e),
                    None => Ok(flag_text(regex_finds(a[1], false, a[0]))),
                },
            )
        }
    } else if n == "substr"@ {
        if a.len() != 3 {
            Some(Err(arity_error(n, 3)))
        } else {
            Some(spec_substr_fn(a[0], a[1], a[2]))
        }
    } else {
        None
    }
}

/// The first of the first `k` fields that the regex `pat` matches, or -1.
pub open spec fn first_match(pat: Seq<char>, record: Seq<Seq<char>>, k: int) -> int
    decreases k,
{
    if k <= 0 {
        -1
    } else {
        let p = first_match(pat, record, k - 1);
        if p >= 0 {
            p
        } else if regex_finds(pat, false, record[k - 1]) {
            k - 1
        } else {
            -1
        }
    }
}


/// Whether a text function would overflow on its arguments: `field()` and
/// `substr()` subtract one from an integer argument, which fails for the
/// least `i32`.
pub open spec fn spec_text_function_panics(name: Seq<char>, args: Seq<Seq<char>>) -> bool {
    let n = ascii_lower_text(name);
    ||| n == "field"@ && args.len() == 1 && spec_parse_i32(args[0]) == Some(i32::MIN)
    ||| n == "substr"@ && args.len() == 3 && spec_parse_i32(args[1]) == Some(i32::MIN)
}

/// Whether [`text_function`] would overflow on these arguments.
pub fn text_function_panics(name: &str, args: &Vec<String>) -> (b: bool)
    ensures
        b == spec_text_function_panics(name@, sview(args@)),
{
    let n = ascii_lower(name);
    if is_name(&n, "field") && args.len() == 1 {
        assert(sview(args@)[0] == args@[0]@);
        parse_i32(args[0].as_str()) == Some(i32::MIN)
    } else if is_name(&n, "substr") && args.len() == 3 {
        assert(sview(args@)[1] == args@[1]@);
        parse_i32(args[1].as_str()) == Some(i32::MIN)
    } else {
        false
    }
}

fn arity_message(n: &String, k: usize) -> (m: String)
    ensures
        m@ == arity_error(n@, k as nat),
{
    let mut m = lit(n.as_str());
    push_str(&mut m, "() expects ");
    let c = usize_to_string(k);
    push_str(&mut m, c.as_str());
    if k == 1 {
        push_str(&mut m, " argument");
    } else {
        push_str(&mut m, " arguments");
    }
    m
}

fn int_or_zero_exec(s: &str) -> (n: i32)
    ensures
        n == int_or_zero(s@),
{
    match parse_i32(s) {
        Some(n) => n,
        None => 0,
    }
}

fn substr_fn(s: &str, p: &str, l: &str) -> (r: Result<String, String>)
    requires
        spec_parse_i32(p@) != Some(i32::MIN),
    ensures
        match spec_substr_fn(s@, p@, l@) {
            Ok(v) => r matches Ok(t) && t@ == v,
            Err(e) => r matches Err(m) && m@ == e,
        },
{
    let pos = int_or_zero_exec(p) - 1;
    let len = int_or_zero_exec(l);
    if pos < 0 {
        return Err(lit("Invalid position in substr()"));
    }
    if len < 0 {
        return Err(lit("Invalid length in substr()"));
    }
    let cs = chars_of(s);
    let start = pos as usize;
    if start >= cs.len() {
        return Ok(String::new());
    }
    let want = start + len as usize;
    let end = if want < cs.len() {
        want
    } else {
        cs.len()
    };
    let mut t = String::new();
    push_chars(&mut t, &cs, start, end);
    Ok(t)
}

fn pick_fn(a: &str, list: &str) -> (r: Result<String, String>)
    ensures
        match spec_pick_fn(a@, list@) {
            Ok(v) => r matches Ok(t) && t@ == v,
            Err(e) => r matches Err(m) && m@ == e,
        },
{
    match parse_i32(a) {
        None => Err(lit("First parameter of pick() must be integer")),
        Some(n) => {
            let items = split_str(list, ',');
            assert(sview(items@).len() == items@.len());
            if n < 1 || n > items.len() as i32 {
                Ok(String::new())
            } else {
                assert(sview(items@)[n - 1] == items@[n - 1]@);
                Ok(items[(n - 1) as usize].clone())
            }
        },
    }
}

fn index_fn(v: &str, list: &str) -> (r: String)
    ensures
        r@ == spec_index_fn(v@, list@),
{
    let items = split_str(list, ',');
    let cnt = items.len();
    let key = lit(v);
    match key_position(&items, &key) {
        Some(j) => usize_to_string(j + 1),
        None => usize_to_string(0),
    }
}

fn pos_fn(h: &str, nd: &str) -> (r: String)
    ensures
        r@ == spec_pos_fn(h@, nd@),
{
    let hc = chars_of(h);
    let nc = chars_of(nd);
    let hb = h.as_bytes().len();
    match find_chars(&hc, &nc) {
        None => lit("0"),
        Some(i) => {
            proof {
                lemma_first_occurrence(hc@, nc@, 0);
            }
            let mut t = String::new();
            push_chars(&mut t, &hc, 0, i);
            assert(hc@.subrange(0, i as int) =~= hc@.take(i as int));
            let b = t.as_str().as_bytes().len();
            proof {
                if i < hc@.len() {
                    lemma_prefix_bytes(h@, i as int);
                } else {
                    assert(nc@.len() == 0);
                    assert(hc@.subrange(0, 0) =~= nc@);
                    assert(occurs_at(hc@, nc@, 0));
                    assert(t@ =~= Seq::<char>::empty());
                }
            }
            usize_to_string(b + 1)
        },
    }
}

fn regex_fn(pat: &str, text: &str) -> (r: Result<String, String>)
    ensures
        match regex_build_error(pat@, false) {
            Some(e) => r matches Err(m) && m@ == "Invalid regex in match(): "@ + e,
            None => r matches Ok(t) && t@ == flag_text(regex_finds(pat@, false, text@)),
        },
{
    match Pattern::new(pat, false) {
        Err(e) => {
            let mut m = lit("Invalid regex in match(): ");
            push_str(&mut m, e.as_str());
            Err(m)
        },
        Ok(p) => Ok(flag_string(regex_is_match(&p, text))),
    }
}

fn find_fn(pat: &str, record: &Vec<String>) -> (r: Result<String, String>)
    ensures
        match regex_build_error(pat@, false) {
            Some(e) => r matches Err(m) && m@ == "Invalid regex in find(): "@ + e,
            None => r matches Ok(t) && t@ == dec_string(
                (first_match(pat@, sview(record@), record@.len() as int) + 1) as nat,
            ),
        },
{
    match Pattern::new(pat, false) {
        Err(e) => {
            let mut m = lit("Invalid regex in find(): ");
            push_str(&mut m, e.as_str());
            Err(m)
        },
        Ok(p) => {
            let ghost rv = sview(record@);
            let mut i: usize = 0;
            while i < record.len()
                invariant
                    i <= record@.len(),
                    rv == sview(record@),
                    p@ == (pat@, false),
                    regex_build_error(pat@, false) is None,
                    first_match(pat@, rv, i as int) == -1,
                decreases record@.len() - i,
            {
                assert(rv[i as int] == record@[i as int]@);
                if regex_is_match(&p, record[i].as_str()) {
                    proof {
                        lemma_first_match_found(pat@, rv, i as int + 1, record@.len() as int);
                    }
                    return Ok(usize_to_string(i + 1));
                }
                i += 1;
            }
            Ok(usize_to_string(0))
        },
    }
}

proof fn lemma_first_match_found(pat: Seq<char>, record: Seq<Seq<char>>, k: int, n: int)
    requires
        0 <= k <= n,
        first_match(pat, record, k) >= 0,
    ensures
        first_match(pat, record, n) == first_match(pat, record, k),
    decreases n - k,
{
    if k < n {
        lemma_first_match_found(pat, record, k, n - 1);
    }
}

fn date_part_fn(n: &String, a: &str) -> (r: String)
    requires
        n@ == "isdate"@ || n@ == "day"@ || n@ == "month"@ || n@ == "year"@,
    ensures
        r@ == ({
            let d = spec_parse_date(a@);
            if n@ == "isdate"@ {
                flag_text(d is Some)
            } else {
                match d {
                    None => seq![],
                    Some((y, m, dd)) => if n@ == "day"@ {
                        dec_string(dd as nat)
                    } else if n@ == "month"@ {
                        dec_string(m as nat)
                    } else {
                        int_string(y as int)
                    },
                }
            }
        }),
{
    let d = parse_date(a);
    if is_name(n, "isdate") {
        return flag_string(d.is_some());
    }
    match d {
        None => String::new(),
        Some((y, m, dd)) => {
            if is_name(n, "day") {
                usize_to_string(dd as usize)
            } else if is_name(n, "month") {
                usize_to_string(m as usize)
            } else {
                i64_to_string(y as i64)
            }
        },
    }
}

/// Evaluates a text function of the expression language on its evaluated
/// arguments (see [`spec_text_function`]); `None` when `name` is not one.
pub fn text_function(name: &str, args: &Vec<String>, record: &Vec<String>) -> (r: Option<
    Result<String, String>,
>)
    requires
        !spec_text_function_panics(name@, sview(args@)),
    ensures
        match spec_text_function(name@, sview(args@), sview(record@)) {
            None => r is None,
            Some(Ok(s)) => r matches Some(Ok(t)) && t@ == s,
            Some(Err(e)) => r matches Some(Err(m)) && m@ == e,
        },
{
    let n = ascii_lower(name);
    let ghost a = sview(args@);
    assert(a.len() == args@.len());
    let one = is_name(&n, "day") || is_name(&n, "month") || is_name(&n, "year") || is_name(
        &n,
        "isdate",
    ) || is_name(&n, "field") || is_name(&n, "find") || is_name(&n, "isempty") || is_name(
        &n,
        "isint",
    ) || is_name(&n, "trim") || is_name(&n, "upper") || is_name(&n, "lower") || is_name(
        &n,
        "len",
    );
    if one {
        if args.len() != 1 {
            return Some(Err(arity_message(&n, 1)));
        }
        let x = args[0].as_str();
        assert(a[0] == args@[0]@);
        if is_name(&n, "field") {
            return Some(
                match parse_i32(x) {
                    None => Err(lit("Parameter of field() must be integer")),
                    Some(k) => Ok(lookup_field(record, k)),
                },
            );
        }
        if is_name(&n, "find") {
            return Some(find_fn(x, record));
        }
        if is_name(&n, "isempty") {
            let t = trim(x);
            return Some(Ok(flag_string(t.as_str().unicode_len() == 0)));
        }
        if is_name(&n, "isint") {
            return Some(Ok(flag_string(parse_i32(x).is_some())));
        }
        if is_name(&n, "trim") {
            return Some(Ok(trim(x)));
        }
        if is_name(&n, "upper") {
            return Some(Ok(to_upper(x)));
        }
        if is_name(&n, "lower") {
            return Some(Ok(to_lower(x)));
        }
        if is_name(&n, "len") {
            return Some(Ok(usize_to_string(x.unicode_len())));
        }
        return Some(Ok(date_part_fn(&n, x)));
    }
    let two = is_name(&n, "index") || is_name(&n, "pick") || is_name(&n, "pos") || is_name(
        &n,
        "streq",
    ) || is_name(&n, "match");
    if two {
        if args.len() != 2 {
            return Some(Err(arity_message(&n, 2)));
        }
        let x = args[0].as_str();
        let y = args[1].as_str();
        assert(a[0] == args@[0]@);
        assert(a[1] == args@[1]@);
        if is_name(&n, "index") {
            return Some(Ok(index_fn(x, y)));
        }
        if is_name(&n, "pick") {
            return Some(pick_fn(x, y));
        }
        if is_name(&n, "pos") {
            return Some(Ok(pos_fn(x, y)));
        }
        if is_name(&n, "streq") {
            let lx = ascii_lower(x);
            let ly = ascii_lower(y);
            return Some(Ok(flag_string(lx == ly)));
        }
        return Some(regex_fn(y, x));
    }
    if is_name(&n, "substr") {
        if args.len() != 3 {
            return Some(Err(arity_message(&n, 3)));
        }
        assert(a[0] == args@[0]@);
        assert(a[1] == args@[1]@);
        assert(a[2] == args@[2]@);
        return Some(substr_fn(args[0].as_str(), args[1].as_str(), args[2].as_str()));
    }
    None
}

} // verus!
