//! Splitting text into fields: delimiter-separated values, comma lists with
//! quotes, and the splitting modes of the `split_char` command.
use vstd::prelude::*;
use crate::text::{chars_of, string_of, string_push, sview, cview, split_seq, split_chars, trim_seq, trim};

verus! {

/// `s` with each pair of double quotes read as one double quote.
pub open spec fn collapse_quotes(s: Seq<char>) -> Seq<char>
    decreases s.len(),
{
    if s.len() == 0 {
        seq![]
    } else if s.len() >= 2 && s[0] == '"' && s[1] == '"' {
        seq!['"'] + collapse_quotes(s.skip(2))
    } else {
        seq![s[0]] + collapse_quotes(s.drop_first())
    }
}

/// A value of a delimiter-separated line: unchanged unless `is_csv`; then
/// without one pair of enclosing single or double quotes, and with doubled
/// double quotes read as one.
pub open spec fn spec_unquote_dsv(s: Seq<char>, is_csv: bool) -> Seq<char> {
    if !is_csv {
        s
    } else {
        let t = if s.len() >= 2 && ((s[0] == '"' && s.last() == '"') || (s[0] == '\''
            && s.last() == '\'')) {
            s.subrange(1, s.len() - 1)
        } else {
            s
        };
        collapse_quotes(t)
    }
}

fn unquote_chars(s: &[char], is_csv: bool) -> (r: String)
    ensures
        r@ == spec_unquote_dsv(s@, is_csv),
{
    if !is_csv {
        return string_of(s);
    }
    let n = s.len();
    let (from, to) = if n >= 2 && ((s[0] == '"' && s[n - 1] == '"') || (s[0] == '\'' && s[n - 1]
        == '\'')) {
        (1, n - 1)
    } else {
        (0, n)
    };
    let ghost t = s@.subrange(from as int, to as int);
    assert(t =~= (if n >= 2 && ((s@[0] == '"' && s@.last() == '"') || (s@[0] == '\'' && s@.last()
        == '\'')) {
        s@.subrange(1, n - 1)
    } else {
        s@
    }));
    let mut out = String::new();
    let mut i: usize = from;
    assert(s@.subrange(from as int, to as int).skip(0) =~= t);
    while i < to
        invariant
            from <= i <= to <= s.len(),
            t == s@.subrange(from as int, to as int),
            out@ + collapse_quotes(s@.subrange(i as int, to as int)) == collapse_quotes(t),
        decreases to - i,
    {
        let ghost rest = s@.subrange(i as int, to as int);
        if s[i] == '"' && i + 1 < to && s[i + 1] == '"' {
            string_push(&mut out, '"');
            assert(rest.skip(2) =~= s@.subrange(i + 2, to as int));
            i += 2;
        } else {
            string_push(&mut out, s[i]);
            assert(rest.drop_first() =~= s@.subrange(i + 1, to as int));
            i += 1;
        }
    }
    assert(s@.subrange(i as int, to as int) =~= Seq::<char>::empty());
    out
}

/// A value of a delimiter-separated line (see [`spec_unquote_dsv`]).
pub fn unquote_dsv(s: &str, is_csv: bool) -> (r: String)
    ensures
        r@ == spec_unquote_dsv(s@, is_csv),
{
    let cs = chars_of(s);
    unquote_chars(&cs, is_csv)
}

/// The values of the rest `s` of a delimiter-separated line, the current
/// value being `cur`: a backslash takes the next character as it is, a
/// delimiter ends a value (runs of delimiters count as one when
/// `collapse`), and a backslash at the end of the line is an error.
pub open spec fn dsv_values(s: Seq<char>, cur: Seq<char>, delim: char, collapse: bool, is_csv: bool) -> Option<Seq<Seq<char>>>
    decreases s.len(),
{
    if s.len() == 0 {
        Some(seq![spec_unquote_dsv(cur, is_csv)])
    } else if s[0] == delim {
        if collapse && s.len() > 1 && s[1] == delim {
            dsv_values(s.drop_first(), cur, delim, collapse, is_csv)
        } else {
            match dsv_values(s.drop_first(), seq![], delim, collapse, is_csv) {
                Some(fs) => Some(seq![spec_unquote_dsv(cur, is_csv)] + fs),
                None => None,
            }
        }
    } else if s[0] == '\\' {
        if s.len() == 1 {
            None
        } else {
            dsv_values(s.skip(2), cur.push(s[1]), delim, collapse, is_csv)
        }
    } else {
        dsv_values(s.drop_first(), cur.push(s[0]), delim, collapse, is_csv)
    }
}

/// The values of a delimiter-separated line (see [`dsv_values`]).
pub fn parse_dsv_line(line: &str, delim: char, collapse_sep: bool, is_csv: bool) -> (r: Result<
    Vec<String>,
    String,
>)
    ensures
        match dsv_values(line@, seq![], delim, collapse_sep, is_csv) {
            Some(fs) => r matches Ok(row) && sview(row@) == fs,
            None => r matches Err(m) && m@ == "Escape at end of line"@,
        },
{
    let cs = chars_of(line);
    let mut row: Vec<String> = Vec::new();
    let mut val: Vec<char> = Vec::new();
    let mut i: usize = 0;
    assert(cs@.skip(0) =~= cs@);
    while i < cs.len()
        invariant
            i <= cs.len(),
            cs@ == line@,
            match dsv_values(cs@.skip(i as int), val@, delim, collapse_sep, is_csv) {
                Some(fs) => dsv_values(line@, seq![], delim, collapse_sep, is_csv) == Some(
                    sview(row@) + fs,
                ),
                None => dsv_values(line@, seq![], delim, collapse_sep, is_csv) is None,
            },
        decreases cs.len() - i,
    {
        let c = cs[i];
        let ghost rest = cs@.skip(i as int);
        if c == delim {
            if collapse_sep && i + 1 < cs.len() && cs[i + 1] == delim {
                assert(rest.drop_first() =~= cs@.skip(i + 1));
                i += 1;
            } else {
                let v = unquote_chars(&val, is_csv);
                proof {
                    assert(rest.drop_first() =~= cs@.skip(i + 1));
                    match dsv_values(cs@.skip(i + 1), seq![], delim, collapse_sep, is_csv) {
                        Some(fs) => {
                            assert(sview(row@.push(v)) =~= sview(row@).push(v@));
                            assert(sview(row@) + (seq![v@] + fs) =~= sview(row@).push(v@) + fs);
                        },
                        None => {},
                    }
                }
                row.push(v);
                val = Vec::new();
                assert(val@ =~= Seq::<char>::empty());
                i += 1;
            }
        } else if c == '\\' {
            if i + 1 >= cs.len() {
                return Err(crate::text::lit("Escape at end of line"));
            }
            val.push(cs[i + 1]);
            assert(rest.skip(2) =~= cs@.skip(i + 2));
            i += 2;
        } else {
            val.push(c);
            assert(rest.drop_first() =~= cs@.skip(i + 1));
            i += 1;
        }
    }
    assert(cs@.skip(i as int) =~= Seq::<char>::empty());
    let v = unquote_chars(&val, is_csv);
    proof {
        assert(sview(row@.push(v)) =~= sview(row@) + seq![v@]);
    }
    row.push(v);
    Ok(row)
}

/// The values of a comma-separated list of the `map` command, the rest
/// being `s`, inside double quotes when `inq`, the current value `cur`: a
/// double quote opens or closes a quoted part, two double quotes inside one
/// stand for one double quote, and a comma outside quotes ends a value.
pub open spec fn comma_values(s: Seq<char>, inq: bool, cur: Seq<char>) -> Seq<Seq<char>>
    decreases s.len(),
{
    if s.len() == 0 {
        seq![cur]
    } else if s[0] == '"' {
        if inq && s.len() > 1 && s[1] == '"' {
            comma_values(s.skip(2), inq, cur.push('"'))
        } else {
            comma_values(s.drop_first(), !inq, cur)
        }
    } else if s[0] == ',' && !inq {
        seq![cur] + comma_values(s.drop_first(), false, seq![])
    } else {
        comma_values(s.drop_first(), inq, cur.push(s[0]))
    }
}

/// The values of a comma-separated list (see [`comma_values`]); an empty
/// list has one empty value.
pub fn parse_comma_list(s: &str) -> (r: Vec<String>)
    ensures
        sview(r@) == comma_values(s@, false, seq![]),
{
    let cs = chars_of(s);
    let mut result: Vec<String> = Vec::new();
    let mut cur: Vec<char> = Vec::new();
    let mut inq = false;
    let mut i: usize = 0;
    assert(cs@.skip(0) =~= cs@);
    while i < cs.len()
        invariant
            i <= cs.len(),
            cs@ == s@,
            comma_values(s@, false, seq![]) == sview(result@) + comma_values(
                cs@.skip(i as int),
                inq,
                cur@,
            ),
        decreases cs.len() - i,
    {
        let c = cs[i];
        let ghost rest = cs@.skip(i as int);
        if c == '"' {
            if inq && i + 1 < cs.len() && cs[i + 1] == '"' {
                cur.push('"');
                assert(rest.skip(2) =~= cs@.skip(i + 2));
                i += 2;
            } else {
                inq = !inq;
                assert(rest.drop_first() =~= cs@.skip(i + 1));
                i += 1;
            }
        } else if c == ',' && !inq {
            let v = string_of(&cur);
            proof {
                assert(rest.drop_first() =~= cs@.skip(i + 1));
                assert(sview(result@.push(v)) =~= sview(result@).push(v@));
                assert(sview(result@) + (seq![cur@] + comma_values(cs@.skip(i + 1), false, seq![]))
                    =~= sview(result@).push(v@) + comma_values(cs@.skip(i + 1), false, seq![]));
            }
            result.push(v);
            cur = Vec::new();
            assert(cur@ =~= Seq::<char>::empty());
            i += 1;
        } else {
            cur.push(c);
            assert(rest.drop_first() =~= cs@.skip(i + 1));
            i += 1;
        }
    }
    assert(cs@.skip(i as int) =~= Seq::<char>::empty());
    let v = string_of(&cur);
    assert(sview(result@.push(v)) =~= sview(result@) + seq![v@]);
    result.push(v);
    result
}

/// The pieces of `target` between occurrences of `sep`, each trimmed; none
/// for an empty target.
pub open spec fn spec_split_char_alib(target: Seq<char>, sep: char) -> Seq<Seq<char>> {
    if target.len() == 0 {
        seq![]
    } else {
        split_seq(target, sep).map_values(|p: Seq<char>| trim_seq(p))
    }
}

/// The trimmed pieces of `target` between occurrences of `sep`.
pub fn split_char_alib(target: &str, sep: char) -> (r: Vec<String>)
    ensures
        sview(r@) == spec_split_char_alib(target@, sep),
{
    let mut tok: Vec<String> = Vec::new();
    if target.is_empty() {
        return tok;
    }
    let cs = chars_of(target);
    let pieces = split_chars(&cs, sep);
    let ghost ps = cview(pieces@);
    let mut i: usize = 0;
    while i < pieces.len()
        invariant
            i <= pieces.len(),
            ps == cview(pieces@),
            ps == split_seq(target@, sep),
            target@.len() > 0,
            sview(tok@) == ps.take(i as int).map_values(|p: Seq<char>| trim_seq(p)),
        decreases pieces.len() - i,
    {
        let p = string_of(pieces[i].as_slice());
        let t = trim(p.as_str());
        let ghost prev = tok@;
        tok.push(t);
        proof {
            assert(p@ == ps[i as int]);
            let target_seq = ps.take(i + 1).map_values(|p: Seq<char>| trim_seq(p));
            assert(sview(prev).len() == i);
            assert(tok@ == prev.push(t));
            assert forall|k: int| 0 <= k < i + 1 implies #[trigger] sview(tok@)[k] == target_seq[k] by {
                if k < i {
                    assert(sview(prev)[k] == ps.take(i as int).map_values(|p: Seq<char>| trim_seq(p))[k]);
                }
            }
            assert(sview(tok@) =~= target_seq);
        }
        i += 1;
    }
    assert(ps.take(pieces.len() as int) =~= ps);
    tok
}

/// The pieces of `s` between occurrences of the nonempty `sep`, the current
/// piece being `cur`; occurrences are found from left to right without overlap.
pub open spec fn split_sub(s: Seq<char>, sep: Seq<char>, cur: Seq<char>) -> Seq<Seq<char>>
    decreases s.len(),
{
    if s.len() == 0 {
        seq![cur]
    } else if sep.len() > 0 && sep.len() <= s.len() && s.take(sep.len() as int) == sep {
        seq![cur] + split_sub(s.skip(sep.len() as int), sep, seq![])
    } else {
        split_sub(s.drop_first(), sep, cur.push(s[0]))
    }
}

/// The pieces of `target` between occurrences of `sep`; none for an empty target.
pub open spec fn spec_split_str_alib(target: Seq<char>, sep: Seq<char>) -> Seq<Seq<char>> {
    if target.len() == 0 {
        seq![]
    } else {
        split_sub(target, sep, seq![])
    }
}

fn starts_at(cs: &[char], i: usize, sep: &[char]) -> (b: bool)
    requires
        i <= cs.len(),
    ensures
        b == (sep.len() <= cs.len() - i && cs@.skip(i as int).take(sep.len() as int) == sep@),
{
    if sep.len() > cs.len() - i {
        return false;
    }
    let mut k: usize = 0;
    while k < sep.len()
        invariant
            k <= sep.len() <= cs.len() - i,
            forall|j: int| 0 <= j < k ==> cs@[i + j] == sep@[j],
        decreases sep.len() - k,
    {
        if cs[i + k] != sep[k] {
            assert(cs@.skip(i as int).take(sep.len() as int)[k as int] != sep@[k as int]);
            return false;
        }
        k += 1;
    }
    assert(cs@.skip(i as int).take(sep.len() as int) =~= sep@);
    true
}

/// The pieces of `target` between occurrences of the nonempty `sep`.
pub fn split_str_alib(target: &str, sep: &str) -> (r: Vec<String>)
    requires
        sep@.len() > 0,
    ensures
        sview(r@) == spec_split_str_alib(target@, sep@),
{
    let mut tok: Vec<String> = Vec::new();
    let cs = chars_of(target);
    let sp = chars_of(sep);
    if cs.len() == 0 {
        return tok;
    }
    let mut t: Vec<char> = Vec::new();
    let mut i: usize = 0;
    assert(cs@.skip(0) =~= cs@);
    while i < cs.len()
        invariant
            i <= cs.len(),
            cs@ == target@,
            sp@ == sep@,
            sp@.len() > 0,
            target@.len() > 0,
            spec_split_str_alib(target@, sep@) == sview(tok@) + split_sub(
                cs@.skip(i as int),
                sp@,
                t@,
            ),
        decreases cs.len() - i,
    {
        let ghost rest = cs@.skip(i as int);
        if starts_at(&cs, i, &sp) {
            let v = string_of(&t);
            proof {
                assert(rest.skip(sp@.len() as int) =~= cs@.skip(i + sp@.len()));
                assert(sview(tok@.push(v)) =~= sview(tok@).push(v@));
                assert(sview(tok@) + (seq![t@] + split_sub(cs@.skip(i + sp@.len()), sp@, seq![]))
                    =~= sview(tok@).push(v@) + split_sub(cs@.skip(i + sp@.len()), sp@, seq![]));
            }
            tok.push(v);
            t = Vec::new();
            assert(t@ =~= Seq::<char>::empty());
            i += sp.len();
        } else {
            t.push(cs[i]);
            assert(rest.drop_first() =~= cs@.skip(i + 1));
            i += 1;
        }
    }
    assert(cs@.skip(i as int) =~= Seq::<char>::empty());
    let v = string_of(&t);
    assert(sview(tok@.push(v)) =~= sview(tok@) + seq![v@]);
    tok.push(v);
    tok
}

/// An ASCII letter.
pub open spec fn is_alpha(c: char) -> bool {
    ('a' <= c <= 'z') || ('A' <= c <= 'Z')
}

/// Whether `c` is an ASCII letter.
pub fn is_alpha_exec(c: char) -> (b: bool)
    ensures
        b == is_alpha(c),
{
    ('a' <= c && c <= 'z') || ('A' <= c && c <= 'Z')
}

/// Position `i` of `s` is a transition from letter to digit (when
/// `alpha_to_num`) or from digit to letter.
pub open spec fn is_transition(s: Seq<char>, i: int, alpha_to_num: bool) -> bool {
    &&& 1 <= i < s.len()
    &&& if alpha_to_num {
        crate::num::is_digit(s[i]) && is_alpha(s[i - 1])
    } else {
        is_alpha(s[i]) && crate::num::is_digit(s[i - 1])
    }
}

/// The first transition of `s` at or after position `i`, or -1.
pub open spec fn first_transition(s: Seq<char>, alpha_to_num: bool, i: int) -> int
    decreases s.len() - i,
{
    if i < 1 || i >= s.len() {
        -1
    } else if is_transition(s, i, alpha_to_num) {
        i
    } else {
        first_transition(s, alpha_to_num, i + 1)
    }
}

/// `s` split in two at its first transition between letters and digits
/// (see [`is_transition`]), or whole when there is none.
pub open spec fn trans_parts(s: Seq<char>, alpha_to_num: bool) -> Seq<Seq<char>> {
    let t = first_transition(s, alpha_to_num, 1);
    if t < 0 {
        seq![s]
    } else {
        seq![s.take(t), s.skip(t)]
    }
}

/// `target` split in two at its first transition between letters and
/// digits, or whole when there is none.
pub fn trans_split(target: &str, is_alpha_to_num: bool) -> (r: Vec<String>)
    ensures
        sview(r@) == trans_parts(target@, is_alpha_to_num),
{
    let cs = chars_of(target);
    let mut i: usize = 1;
    if cs.len() == 0 {
        let mut r: Vec<String> = Vec::new();
        r.push(string_of(&cs));
        assert(sview(r@) =~= seq![target@]);
        return r;
    }
    while i < cs.len()
        invariant
            1 <= i <= cs.len(),
            cs@ == target@,
            first_transition(target@, is_alpha_to_num, 1) == first_transition(target@, is_alpha_to_num, i as int),
        decreases cs.len() - i,
    {
        let c = cs[i];
        let l = cs[i - 1];
        let m = if is_alpha_to_num {
            '0' <= c && c <= '9' && is_alpha_exec(l)
        } else {
            is_alpha_exec(c) && '0' <= l && l <= '9'
        };
        if m {
            let mut a = String::new();
            crate::text::push_chars(&mut a, &cs, 0, i);
            let mut b = String::new();
            crate::text::push_chars(&mut b, &cs, i, cs.len());
            let mut r: Vec<String> = Vec::new();
            r.push(a);
            r.push(b);
            assert(cs@.subrange(0, i as int) =~= target@.take(i as int));
            assert(cs@.subrange(i as int, cs@.len() as int) =~= target@.skip(i as int));
            assert(is_transition(target@, i as int, is_alpha_to_num));
            assert(sview(r@) =~= seq![target@.take(i as int), target@.skip(i as int)]);
            return r;
        }
        i += 1;
    }
    let mut r: Vec<String> = Vec::new();
    r.push(string_of(&cs));
    assert(sview(r@) =~= seq![target@]);
    r
}


/// A field of a delimiter-separated line: a backslash before each
/// delimiter and each backslash.
pub open spec fn dsv_field(v: Seq<char>, delim: char) -> Seq<char>
    decreases v.len(),
{
    if v.len() == 0 {
        seq![]
    } else {
        dsv_field(v.drop_last(), delim) + if v.last() == delim || v.last() == '\\' {
            seq!['\\', v.last()]
        } else {
            seq![v.last()]
        }
    }
}

/// The fields of a row that a delimiter-separated line holds: the listed
/// fields (empty past the row's end), or all of them.
pub open spec fn dsv_fields(row: Seq<Seq<char>>, cols: Option<Seq<usize>>) -> Seq<Seq<char>> {
    match cols {
        None => row,
        Some(c) => c.map_values(|i: usize| if (i as int) < row.len() { row[i as int] } else { seq![] }),
    }
}

/// The first `k` fields of a delimiter-separated line, with the delimiter
/// between them.
pub open spec fn dsv_join(fs: Seq<Seq<char>>, delim: char, k: int) -> Seq<char>
    decreases k,
{
    if k <= 0 {
        seq![]
    } else if k == 1 {
        dsv_field(fs[0], delim)
    } else {
        dsv_join(fs, delim, k - 1) + seq![delim] + dsv_field(fs[k - 1], delim)
    }
}

/// Appends `v` escaped for a delimiter-separated line.
fn push_dsv_field(line: &mut String, v: &str, delim: char)
    ensures
        final(line)@ == old(line)@ + dsv_field(v@, delim),
{
    let cs = chars_of(v);
    let mut i: usize = 0;
    assert(cs@.take(0) =~= seq![]);
    assert(old(line)@ + dsv_field(seq![], delim) =~= old(line)@);
    while i < cs.len()
        invariant
            i <= cs@.len(),
            cs@ == v@,
            line@ == old(line)@ + dsv_field(cs@.take(i as int), delim),
        decreases cs@.len() - i,
    {
        let c = cs[i];
        if c == delim || c == '\\' {
            string_push(line, '\\');
        }
        string_push(line, c);
        proof {
            let t = cs@.take(i + 1);
            assert(t.drop_last() =~= cs@.take(i as int));
            assert(line@ =~= old(line)@ + dsv_field(t, delim));
        }
        i += 1;
    }
    assert(cs@.take(cs@.len() as int) =~= cs@);
}

/// The delimiter-separated line of a row (see [`dsv_fields`] and
/// [`dsv_join`]).
pub fn write_dsv_line(row: &Vec<String>, cols: &Option<Vec<usize>>, delim: char) -> (line: String)
    ensures
        line@ == ({
            let fs = dsv_fields(sview(row@), crate::rows::cols_view(cols));
            dsv_join(fs, delim, fs.len() as int)
        }),
{
    let ghost rv = sview(row@);
    let mut fields: Vec<String> = Vec::new();
    match cols {
        None => {
            let mut i: usize = 0;
            while i < row.len()
                invariant
                    i <= row@.len(),
                    rv == sview(row@),
                    sview(fields@) == rv.take(i as int),
                decreases row@.len() - i,
            {
                let v = crate::text::lit(row[i].as_str());
                let ghost vv = v@;
                let ghost b = sview(fields@);
                fields.push(v);
                assert(sview(fields@) =~= b.push(vv));
                assert(rv.take(i + 1) =~= rv.take(i as int).push(rv[i as int]));
                i += 1;
            }
            assert(rv.take(row@.len() as int) =~= rv);
        },
        Some(c) => {
            let ghost want = dsv_fields(rv, Some(c@));
            let mut i: usize = 0;
            while i < c.len()
                invariant
                    i <= c@.len(),
                    rv == sview(row@),
                    want == dsv_fields(rv, Some(c@)),
                    sview(fields@) == want.take(i as int),
                decreases c@.len() - i,
            {
                let k = c[i];
                let v = if k < row.len() {
                    crate::text::lit(row[k].as_str())
                } else {
                    String::new()
                };
                let ghost vv = v@;
                let ghost b = sview(fields@);
                fields.push(v);
                assert(sview(fields@) =~= b.push(vv));
                assert(want.take(i + 1) =~= want.take(i as int).push(want[i as int]));
                i += 1;
            }
            assert(want.take(c@.len() as int) =~= want);
        },
    }
    let ghost fs = sview(fields@);
    let mut line = String::new();
    let mut i: usize = 0;
    while i < fields.len()
        invariant
            i <= fields@.len(),
            fs == sview(fields@),
            line@ == dsv_join(fs, delim, i as int),
        decreases fields@.len() - i,
    {
        if i > 0 {
            string_push(&mut line, delim);
        }
        assert(fs[i as int] == fields@[i as int]@);
        push_dsv_field(&mut line, fields[i].as_str(), delim);
        i += 1;
    }
    line
}

/// `o` with the values `vs` put before its own.
pub open spec fn prepend_values(vs: Seq<Seq<char>>, o: Option<Seq<Seq<char>>>) -> Option<Seq<Seq<char>>> {
    match o {
        Some(fs) => Some(vs + fs),
        None => None,
    }
}

proof fn lemma_dsv_field_append(a: Seq<char>, b: Seq<char>, delim: char)
    ensures
        dsv_field(a + b, delim) == dsv_field(a, delim) + dsv_field(b, delim),
    decreases b.len(),
{
    if b.len() == 0 {
        assert(a + b =~= a);
        assert(dsv_field(a, delim) + dsv_field(b, delim) =~= dsv_field(a, delim));
    } else {
        assert((a + b).drop_last() =~= a + b.drop_last());
        lemma_dsv_field_append(a, b.drop_last(), delim);
        assert((a + b).last() == b.last());
        let e = if b.last() == delim || b.last() == '\\' {
            seq!['\\', b.last()]
        } else {
            seq![b.last()]
        };
        assert(dsv_field(a, delim) + dsv_field(b.drop_last(), delim) + e =~= dsv_field(a, delim)
            + (dsv_field(b.drop_last(), delim) + e));
    }
}

proof fn lemma_dsv_field_values(v: Seq<char>, rest: Seq<char>, cur: Seq<char>, delim: char)
    requires
        delim != '\\',
    ensures
        dsv_values(dsv_field(v, delim) + rest, cur, delim, false, false) == dsv_values(
            rest,
            cur + v,
            delim,
            false,
            false,
        ),
    decreases v.len(),
{
    if v.len() == 0 {
        assert(dsv_field(v, delim) + rest =~= rest);
        assert(cur + v =~= cur);
    } else {
        let t = v.drop_first();
        assert(v =~= seq![v[0]] + t);
        lemma_dsv_field_append(seq![v[0]], t, delim);
        let one = seq![v[0]];
        assert(one.drop_last() =~= Seq::<char>::empty());
        assert(one.last() == v[0]);
        assert(dsv_field(one, delim) == dsv_field(one.drop_last(), delim) + (if v[0] == delim
            || v[0] == '\\' {
            seq!['\\', v[0]]
        } else {
            seq![v[0]]
        }));
        assert(dsv_field(Seq::<char>::empty(), delim) == Seq::<char>::empty());
        let s = dsv_field(v, delim) + rest;
        assert(dsv_field(v, delim) == dsv_field(one, delim) + dsv_field(t, delim));
        lemma_dsv_field_values(t, rest, cur.push(v[0]), delim);
        assert(cur.push(v[0]) + t =~= cur + v);
        if v[0] == delim || v[0] == '\\' {
            assert(s =~= seq!['\\', v[0]] + (dsv_field(t, delim) + rest));
            assert(s.skip(2) =~= dsv_field(t, delim) + rest);
        } else {
            assert(s =~= seq![v[0]] + (dsv_field(t, delim) + rest));
            assert(s.drop_first() =~= dsv_field(t, delim) + rest);
        }
    }
}

proof fn lemma_dsv_join_values(fs: Seq<Seq<char>>, k: int, t: Seq<char>, delim: char)
    requires
        delim != '\\',
        1 <= k <= fs.len(),
    ensures
        dsv_values(dsv_join(fs, delim, k) + seq![delim] + t, seq![], delim, false, false)
            == prepend_values(fs.take(k), dsv_values(t, seq![], delim, false, false)),
    decreases k,
{
    let last = fs[k - 1];
    if k == 1 {
        let s = dsv_field(last, delim) + (seq![delim] + t);
        assert(dsv_join(fs, delim, k) + seq![delim] + t =~= s);
        lemma_dsv_field_values(last, seq![delim] + t, seq![], delim);
        assert(seq![] + last =~= last);
        assert((seq![delim] + t).drop_first() =~= t);
        assert(fs.take(1) =~= seq![last]);
    } else {
        let t2 = dsv_field(last, delim) + seq![delim] + t;
        assert(dsv_join(fs, delim, k) + seq![delim] + t =~= dsv_join(fs, delim, k - 1) + seq![
            delim,
        ] + t2);
        lemma_dsv_join_values(fs, k - 1, t2, delim);
        lemma_dsv_field_values(last, seq![delim] + t, seq![], delim);
        assert(t2 =~= dsv_field(last, delim) + (seq![delim] + t));
        assert(seq![] + last =~= last);
        assert((seq![delim] + t).drop_first() =~= t);
        assert(fs.take(k - 1) + seq![last] =~= fs.take(k));
        match dsv_values(t, seq![], delim, false, false) {
            Some(r) => {
                assert(fs.take(k - 1) + (seq![last] + r) =~= fs.take(k) + r);
            },
            None => {},
        }
    }
}

/// Reading back a written delimiter-separated line: the line that
/// [`write_dsv_line`] makes of a row with at least one field, read by
/// [`parse_dsv_line`] with the same delimiter (not a backslash), without
/// collapsing delimiters and without CSV quoting, gives the fields back.
pub proof fn lemma_dsv_roundtrip(fs: Seq<Seq<char>>, delim: char)
    requires
        delim != '\\',
        fs.len() >= 1,
    ensures
        dsv_values(dsv_join(fs, delim, fs.len() as int), seq![], delim, false, false) == Some(fs),
{
    let n = fs.len() as int;
    let last = fs[n - 1];
    lemma_dsv_field_values(last, seq![], seq![], delim);
    assert(dsv_field(last, delim) + seq![] =~= dsv_field(last, delim));
    assert(seq![] + last =~= last);
    assert(spec_unquote_dsv(last, false) == last);
    if n == 1 {
        assert(fs =~= seq![last]);
    } else {
        lemma_dsv_join_values(fs, n - 1, dsv_field(last, delim), delim);
        assert(fs.take(n - 1) + seq![last] =~= fs);
    }
}

} // verus!
