//! Regex substitutions on fields (`s/from/to/opts` commands) and the row
//! selection of the find and remove commands.
use vstd::prelude::*;
use crate::escape::{translate_regex, translate_replacement, translated_regex, translated_replacement};
use crate::pattern::{
    Pattern,
    regex_build_error,
    regex_replace_first,
    regex_replace_every,
    regex_replace,
    regex_replace_all,
};
use crate::rows::{col_selected, cols_view, is_selected};
use crate::text::{chars_of, has_char, lit, push_chars, push_str, sview};

verus! {

/// A substitution command `s/from/to/opts`.
pub struct EditSubCmd {
    pub cmd: char,
    pub from: String,
    pub to: String,
    pub opts: String,
}

/// Where the field that starts at `i` ends: the position of the first
/// separator that no backslash escapes, or `None` when the text ends first.
/// `esc` tells that the character at `i` is escaped.
pub open spec fn field_end(cs: Seq<char>, i: int, sep: char, esc: bool) -> Option<int>
    decreases cs.len() - i,
{
    if i < 0 || i >= cs.len() {
        None
    } else if esc {
        field_end(cs, i + 1, sep, false)
    } else if cs[i] == '\\' {
        field_end(cs, i + 1, sep, true)
    } else if cs[i] != sep {
        field_end(cs, i + 1, sep, false)
    } else {
        Some(i)
    }
}

/// A field's end lies at or after its start and inside the text.
proof fn lemma_field_end_bounds(cs: Seq<char>, i: int, sep: char, esc: bool)
    ensures
        field_end(cs, i, sep, esc) matches Some(e) ==> i <= e < cs.len(),
    decreases cs.len() - i,
{
    if 0 <= i < cs.len() {
        lemma_field_end_bounds(cs, i + 1, sep, false);
        lemma_field_end_bounds(cs, i + 1, sep, true);
    }
}

/// The parts `(cmd, from, to, opts)` of a substitution command, or its
/// error: the command is `s`, a separator other than a backslash, and two
/// fields each ended by the separator (backslashes escape it and are kept),
/// followed by the options.
pub open spec fn spec_parse_sub(s: Seq<char>) -> Result<
    (char, Seq<char>, Seq<char>, Seq<char>),
    Seq<char>,
> {
    let bad = "Invalid value for edit command: "@ + s;
    if s.len() == 0 {
        Err("Empty value for edit command"@)
    } else if s[0] != 's' || s.len() < 2 || s[1] == '\\' {
        Err(bad)
    } else {
        match field_end(s, 2, s[1], false) {
            None => Err(bad),
            Some(e1) => match field_end(s, e1 + 1, s[1], false) {
                None => Err(bad),
                Some(e2) => Ok((s[0], s.subrange(2, e1), s.subrange(e1 + 1, e2), s.skip(e2 + 1))),
            },
        }
    }
}

/// Reads the field that starts at `*i` up to its unescaped separator, and
/// moves `*i` past the separator.
fn read_edit_field(s: &str, cs: &Vec<char>, i: &mut usize, sep: char) -> (r: Result<String, String>)
    requires
        cs@ == s@,
        *old(i) <= cs@.len(),
    ensures
        match field_end(cs@, *old(i) as int, sep, false) {
            None => r matches Err(m) && m@ == "Invalid value for edit command: "@ + s@,
            Some(e) => r matches Ok(f) && f@ == cs@.subrange(*old(i) as int, e) && *final(i) == e + 1
                && e < cs@.len(),
        },
{
    proof {
        lemma_field_end_bounds(cs@, *i as int, sep, false);
    }
    let start = *i;
    let mut j = start;
    let mut esc = false;
    while j < cs.len()
        invariant
            start == *old(i),
            start <= j <= cs@.len(),
            field_end(cs@, start as int, sep, false) == field_end(cs@, j as int, sep, esc),
        decreases cs@.len() - j,
    {
        let c = cs[j];
        if esc {
            esc = false;
        } else if c == '\\' {
            esc = true;
        } else if c == sep {
            let mut f = String::new();
            push_chars(&mut f, cs, start, j);
            *i = j + 1;
            return Ok(f);
        }
        j += 1;
    }
    let mut m = lit("Invalid value for edit command: ");
    push_str(&mut m, s);
    Err(m)
}

/// Parses a substitution command (see [`spec_parse_sub`]).
pub fn parse_sub(s: &str) -> (r: Result<EditSubCmd, String>)
    ensures
        match spec_parse_sub(s@) {
            Ok((c, f, t, o)) => r matches Ok(sc) && sc.cmd == c && sc.from@ == f && sc.to@ == t
                && sc.opts@ == o,
            Err(e) => r matches Err(m) && m@ == e,
        },
{
    let cs = chars_of(s);
    if cs.len() == 0 {
        return Err(lit("Empty value for edit command"));
    }
    let cmd = cs[0];
    if cmd != 's' || cs.len() < 2 || cs[1] == '\\' {
        let mut m = lit("Invalid value for edit command: ");
        push_str(&mut m, s);
        return Err(m);
    }
    let sep = cs[1];
    let mut i: usize = 2;
    let from = match read_edit_field(s, &cs, &mut i, sep) {
        Ok(f) => f,
        Err(e) => {
            return Err(e);
        },
    };
    let to = match read_edit_field(s, &cs, &mut i, sep) {
        Ok(f) => f,
        Err(e) => {
            return Err(e);
        },
    };
    let mut opts = String::new();
    push_chars(&mut opts, &cs, i, cs.len());
    assert(cs@.subrange(i as int, cs@.len() as int) =~= cs@.skip(i as int));
    Ok(EditSubCmd { cmd, from, to, opts })
}

/// The field `val` after one substitution command: for `s`, the regex
/// `from` (translated, case-insensitive with option `i`) has its first
/// match, or with option `g` every match, replaced by `to` (translated);
/// a pattern that does not compile gives an error; other commands leave
/// the field as it is.
pub open spec fn sub_applied(
    val: Seq<char>,
    cmd: char,
    from: Seq<char>,
    to: Seq<char>,
    opts: Seq<char>,
) -> Result<Seq<char>, Seq<char>> {
    if cmd != 's' {
        Ok(val)
    } else {
        let pat = translated_regex(from);
        let repl = translated_replacement(to);
        let ic = opts.contains('i');
        match regex_build_error(pat, ic) {
            Some(e) => Err("Invalid regex: "@ + from + ": "@ + e),
            None => Ok(
                if opts.contains('g') {
                    regex_replace_every(pat, ic, val, repl)
                } else {
                    regex_replace_first(pat, ic, val, repl)
                },
            ),
        }
    }
}

/// The field `val` after the commands `subs` in turn, or the first error.
pub open spec fn edits_applied(val: Seq<char>, subs: Seq<EditSubCmd>) -> Result<
    Seq<char>,
    Seq<char>,
>
    decreases subs.len(),
{
    if subs.len() == 0 {
        Ok(val)
    } else {
        match edits_applied(val, subs.drop_last()) {
            Err(e) => Err(e),
            Ok(v) => {
                let sc = subs.last();
                sub_applied(v, sc.cmd, sc.from@, sc.to@, sc.opts@)
            },
        }
    }
}

/// Applies one substitution command to a field.
fn apply_sub(val: String, sc: &EditSubCmd) -> (r: Result<String, String>)
    ensures
        match sub_applied(val@, sc.cmd, sc.from@, sc.to@, sc.opts@) {
            Ok(v) => r matches Ok(w) && w@ == v,
            Err(e) => r matches Err(m) && m@ == e,
        },
{
    if sc.cmd != 's' {
        return Ok(val);
    }
    let pat = translate_regex(sc.from.as_str());
    let repl = translate_replacement(sc.to.as_str());
    let ocs = chars_of(sc.opts.as_str());
    let ic = has_char(&ocs, 'i');
    let global = has_char(&ocs, 'g');
    match Pattern::new(pat.as_str(), ic) {
        Err(e) => {
            let mut m = lit("Invalid regex: ");
            push_str(&mut m, sc.from.as_str());
            push_str(&mut m, ": ");
            push_str(&mut m, e.as_str());
            Err(m)
        },
        Ok(re) => {
            if global {
                Ok(regex_replace_all(&re, val.as_str(), repl.as_str()))
            } else {
                Ok(regex_replace(&re, val.as_str(), repl.as_str()))
            }
        },
    }
}

/// Applies the substitution commands in turn to a field.
pub fn edit_field(val: &str, subs: &Vec<EditSubCmd>) -> (r: Result<String, String>)
    ensures
        match edits_applied(val@, subs@) {
            Ok(v) => r matches Ok(w) && w@ == v,
            Err(e) => r matches Err(m) && m@ == e,
        },
{
    let mut cur = lit(val);
    let mut k: usize = 0;
    while k < subs.len()
        invariant
            k <= subs@.len(),
            edits_applied(val@, subs@.take(k as int)) == Ok::<Seq<char>, Seq<char>>(cur@),
        decreases subs@.len() - k,
    {
        proof {
            assert(subs@.take(k + 1).drop_last() =~= subs@.take(k as int));
        }
        match apply_sub(cur, &subs[k]) {
            Ok(v) => {
                cur = v;
            },
            Err(e) => {
                proof {
                    lemma_edits_err_prefix(val@, subs@, k + 1);
                }
                return Err(e);
            },
        }
        k += 1;
    }
    assert(subs@.take(subs@.len() as int) =~= subs@);
    Ok(cur)
}

proof fn lemma_edits_err_prefix(val: Seq<char>, subs: Seq<EditSubCmd>, k: int)
    requires
        0 <= k <= subs.len(),
        edits_applied(val, subs.take(k)) is Err,
    ensures
        edits_applied(val, subs) == edits_applied(val, subs.take(k)),
    decreases subs.len() - k,
{
    if k == subs.len() {
        assert(subs.take(k) =~= subs);
    } else {
        assert(subs.take(k + 1).drop_last() =~= subs.take(k));
        lemma_edits_err_prefix(val, subs, k + 1);
    }
}

/// The first `k` fields of `row` after the commands, applied to the
/// selected columns only, or the first error.
pub open spec fn edited_row(
    row: Seq<Seq<char>>,
    cols: Option<Seq<usize>>,
    subs: Seq<EditSubCmd>,
    k: int,
) -> Result<Seq<Seq<char>>, Seq<char>>
    decreases k,
{
    if k <= 0 {
        Ok(seq![])
    } else {
        match edited_row(row, cols, subs, k - 1) {
            Err(e) => Err(e),
            Ok(prefix) => if col_selected(cols, k - 1) {
                match edits_applied(row[k - 1], subs) {
                    Err(e) => Err(e),
                    Ok(v) => Ok(prefix.push(v)),
                }
            } else {
                Ok(prefix.push(row[k - 1]))
            },
        }
    }
}

proof fn lemma_edited_err_prefix(
    row: Seq<Seq<char>>,
    cols: Option<Seq<usize>>,
    subs: Seq<EditSubCmd>,
    k: int,
    n: int,
)
    requires
        0 <= k <= n,
        edited_row(row, cols, subs, k) is Err,
    ensures
        edited_row(row, cols, subs, n) == edited_row(row, cols, subs, k),
    decreases n - k,
{
    if k < n {
        lemma_edited_err_prefix(row, cols, subs, k, n - 1);
    }
}

/// Applies the substitution commands to the fields of the columns `cols`
/// (every column when `None`, 0-based), in column order; the first error
/// stops it.
pub fn edit_row(row: &Vec<String>, cols: &Option<Vec<usize>>, subs: &Vec<EditSubCmd>) -> (r: Result<
    Vec<String>,
    String,
>)
    ensures
        match edited_row(sview(row@), cols_view(cols), subs@, row@.len() as int) {
            Ok(v) => r matches Ok(w) && sview(w@) == v,
            Err(e) => r matches Err(m) && m@ == e,
        },
{
    let ghost rv = sview(row@);
    let mut out: Vec<String> = Vec::new();
    let mut i: usize = 0;
    assert(sview(out@) =~= seq![]);
    while i < row.len()
        invariant
            i <= row@.len(),
            rv == sview(row@),
            edited_row(rv, cols_view(cols), subs@, i as int) == Ok::<Seq<Seq<char>>, Seq<char>>(
                sview(out@),
            ),
        decreases row@.len() - i,
    {
        assert(rv[i as int] == row@[i as int]@);
        let ghost before = sview(out@);
        if is_selected(cols, i) {
            match edit_field(row[i].as_str(), subs) {
                Ok(v) => {
                    let ghost vv = v@;
                    out.push(v);
                    assert(sview(out@) =~= before.push(vv));
                },
                Err(e) => {
                    proof {
                        lemma_edited_err_prefix(rv, cols_view(cols), subs@, i + 1, row@.len() as int);
                    }
                    return Err(e);
                },
            }
        } else {
            out.push(lit(row[i].as_str()));
            assert(sview(out@) =~= before.push(rv[i as int]));
        }
        i += 1;
    }
    Ok(out)
}

} // verus!
