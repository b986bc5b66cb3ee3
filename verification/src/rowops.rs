//! Row transformations of the simpler commands: excluding, case changes,
//! trimming, truncating, padding, escaping, numbering, de-duplicating and
//! keeping the last rows.
use vstd::prelude::*;
use crate::flatten::non_key_from;
use crate::join::{join_key, make_join_key};
use crate::num::{dec_string, int_string, spec_parse_i32, parse_i32, i64_to_string, usize_to_string};
use crate::rows::{col_selected, cols_view, contains_index, is_selected, rows_view, lemma_rows_view_push};
use crate::text::{
    chars_of, is_whitespace, is_ws, lit, lower_text, push_chars, push_str, split_seq, split_str,
    string_push, sview, to_lower, to_upper, trim, trim_end, trim_end_seq, trim_seq, trim_start,
    trim_start_seq, upper_text,
};

verus! {

/// The reverse of a sequence of fields.
pub open spec fn rev(s: Seq<Seq<char>>) -> Seq<Seq<char>> {
    Seq::new(s.len(), |i: int| s[s.len() - 1 - i])
}

/// The row without the excluded fields; with `reverse`, the field indices
/// count from the end of the row.
pub open spec fn spec_exclude(row: Seq<Seq<char>>, excl: Seq<usize>, reverse: bool) -> Seq<Seq<char>> {
    if reverse {
        rev(non_key_from(rev(row), excl, 0))
    } else {
        non_key_from(row, excl, 0)
    }
}

pub(crate) fn reversed(v: &Vec<String>) -> (r: Vec<String>)
    ensures
        sview(r@) == rev(sview(v@)),
{
    let mut r: Vec<String> = Vec::new();
    let mut k: usize = v.len();
    while k > 0
        invariant
            k <= v@.len(),
            r@.len() == v@.len() - k,
            forall|j: int| 0 <= j < r@.len() ==> (#[trigger] r@[j])@ == v@[v@.len() - 1 - j]@,
        decreases k,
    {
        k -= 1;
        r.push(v[k].clone());
    }
    assert(sview(r@) =~= rev(sview(v@)));
    r
}

fn drop_fields(row: &Vec<String>, excl: &Vec<usize>) -> (r: Vec<String>)
    ensures
        sview(r@) == non_key_from(sview(row@), excl@, 0),
{
    let ghost rv = sview(row@);
    let mut out: Vec<String> = Vec::new();
    let mut i: usize = 0;
    assert(rv.len() == row@.len());
    assert(sview(out@) + non_key_from(rv, excl@, 0) =~= non_key_from(rv, excl@, 0));
    while i < row.len()
        invariant
            i <= row@.len(),
            rv == sview(row@),
            rv.len() == row@.len(),
            sview(out@) + non_key_from(rv, excl@, i as int) == non_key_from(rv, excl@, 0),
        decreases row@.len() - i,
    {
        let ghost b = sview(out@);
        if !contains_index(excl, i) {
            out.push(row[i].clone());
            proof {
                assert(rv[i as int] == row@[i as int]@);
                assert(sview(out@) =~= b.push(rv[i as int]));
                assert(b + non_key_from(rv, excl@, i as int) =~= sview(out@) + non_key_from(rv, excl@, i + 1));
            }
        }
        i += 1;
    }
    assert(non_key_from(rv, excl@, row@.len() as int) =~= Seq::<Seq<char>>::empty());
    assert(sview(out@) + Seq::<Seq<char>>::empty() =~= sview(out@));
    out
}

/// Removes the fields `excl` from a row; with `reverse`, they are counted
/// from the end of the row.
pub fn exclude_row(excl: &Vec<usize>, reverse: bool, row: &Vec<String>) -> (r: Vec<String>)
    ensures
        sview(r@) == spec_exclude(sview(row@), excl@, reverse),
{
    if reverse {
        let rr = reversed(row);
        let kept = drop_fields(&rr, excl);
        reversed(&kept)
    } else {
        drop_fields(row, excl)
    }
}

/// How a case command changes the selected fields.
#[derive(PartialEq, Eq, Structural, Clone, Copy, Debug)]
pub enum CaseType {
    Upper,
    Lower,
    Mixed,
}

/// `c` in ASCII upper case.
pub open spec fn ascii_upper(c: char) -> char {
    if 'a' <= c <= 'z' {
        ((c as u8) - 32) as char
    } else {
        c
    }
}

/// Each word of `s` with its first character in ASCII upper case; `start`
/// says whether `s` begins a word.
pub open spec fn title_from(s: Seq<char>, start: bool) -> Seq<char>
    decreases s.len(),
{
    if s.len() == 0 {
        seq![]
    } else if is_ws(s[0]) {
        seq![s[0]] + title_from(s.drop_first(), true)
    } else if start {
        seq![ascii_upper(s[0])] + title_from(s.drop_first(), false)
    } else {
        seq![s[0]] + title_from(s.drop_first(), false)
    }
}

/// A field after a case change.
pub open spec fn case_text(v: Seq<char>, ct: CaseType) -> Seq<char> {
    match ct {
        CaseType::Upper => upper_text(v),
        CaseType::Lower => lower_text(v),
        CaseType::Mixed => title_from(lower_text(v), true),
    }
}

fn title_case(s: &str) -> (r: String)
    ensures
        r@ == title_from(s@, true),
{
    let cs = chars_of(s);
    let mut out = String::new();
    let mut start = true;
    let mut i: usize = 0;
    assert(cs@.skip(0) =~= cs@);
    while i < cs.len()
        invariant
            i <= cs@.len(),
            cs@ == s@,
            out@ + title_from(cs@.skip(i as int), start) == title_from(s@, true),
        decreases cs@.len() - i,
    {
        let c = cs[i];
        proof {
            assert(cs@.skip(i as int)[0] == c);
            assert(cs@.skip(i as int).drop_first() =~= cs@.skip(i + 1));
        }
        let ghost o0 = out@;
        if is_whitespace(c) {
            string_push(&mut out, c);
            start = true;
        } else if start {
            let u = if 'a' <= c && c <= 'z' {
                ((c as u8) - 32) as char
            } else {
                c
            };
            string_push(&mut out, u);
            start = false;
        } else {
            string_push(&mut out, c);
        }
        i += 1;
    }
    assert(cs@.skip(cs@.len() as int) =~= Seq::<char>::empty());
    out
}

/// Changes the case of the selected fields of a row.
pub fn case_row(cols: &Option<Vec<usize>>, ct: CaseType, row: &Vec<String>) -> (r: Vec<String>)
    ensures
        r@.len() == row@.len(),
        forall|i: int|
            0 <= i < row@.len() ==> (#[trigger] r@[i])@ == (if col_selected(cols_view(cols), i) {
                case_text(row@[i]@, ct)
            } else {
                row@[i]@
            }),
{
    let mut out: Vec<String> = Vec::new();
    let mut i: usize = 0;
    while i < row.len()
        invariant
            i <= row@.len(),
            out@.len() == i,
            forall|j: int|
                0 <= j < i ==> (#[trigger] out@[j])@ == (if col_selected(cols_view(cols), j) {
                    case_text(row@[j]@, ct)
                } else {
                    row@[j]@
                }),
        decreases row@.len() - i,
    {
        let v = row[i].as_str();
        if is_selected(cols, i) {
            let t = match ct {
                CaseType::Upper => to_upper(v),
                CaseType::Lower => to_lower(v),
                CaseType::Mixed => {
                    let l = to_lower(v);
                    title_case(l.as_str())
                },
            };
            out.push(t);
        } else {
            out.push(row[i].clone());
        }
        i += 1;
    }
    out
}

/// The widths of the trim command: integers separated by commas, or the
/// first that is not one.
pub open spec fn trim_widths(items: Seq<Seq<char>>) -> Result<Seq<i32>, Seq<char>>
    decreases items.len(),
{
    if items.len() == 0 {
        Ok(seq![])
    } else {
        match trim_widths(items.drop_last()) {
            Err(e) => Err(e),
            Ok(v) => match spec_parse_i32(items.last()) {
                Some(n) => Ok(v.push(n)),
                None => Err("Invalid width "@ + items.last()),
            },
        }
    }
}

proof fn lemma_widths_err(ps: Seq<Seq<char>>, k: int)
    requires
        0 <= k <= ps.len(),
        trim_widths(ps.take(k)) is Err,
    ensures
        trim_widths(ps) == trim_widths(ps.take(k)),
    decreases ps.len() - k,
{
    if k == ps.len() {
        assert(ps.take(k) =~= ps);
    } else {
        assert(ps.take(k + 1).drop_last() =~= ps.take(k));
        lemma_widths_err(ps, k + 1);
    }
}

/// Reads the widths of the trim command.
pub fn parse_widths(ws: &str) -> (r: Result<Vec<i32>, String>)
    ensures
        match trim_widths(split_seq(ws@, ',')) {
            Ok(v) => r matches Ok(w) && w@ == v,
            Err(e) => r matches Err(m) && m@ == e,
        },
{
    let items = split_str(ws, ',');
    let ghost ps = sview(items@);
    let mut v: Vec<i32> = Vec::new();
    let mut i: usize = 0;
    while i < items.len()
        invariant
            i <= items@.len(),
            ps == sview(items@),
            ps == split_seq(ws@, ','),
            ps.len() == items@.len(),
            trim_widths(ps.take(i as int)) == Ok::<Seq<i32>, Seq<char>>(v@),
        decreases items@.len() - i,
    {
        proof {
            assert(ps.take(i + 1).drop_last() =~= ps.take(i as int));
            assert(ps.take(i + 1).last() == items@[i as int]@);
        }
        match parse_i32(items[i].as_str()) {
            Some(n) => v.push(n),
            None => {
                let mut m = lit("Invalid width ");
                push_str(&mut m, items[i].as_str());
                proof {
                    lemma_widths_err(ps, i + 1);
                }
                return Err(m);
            },
        }
        i += 1;
    }
    assert(ps.take(items.len() as int) =~= ps);
    Ok(v)
}

/// The first position of `i` in `cols`, or -1.
pub open spec fn position_of(cols: Seq<usize>, i: int) -> int
    decreases cols.len(),
{
    if cols.len() == 0 {
        -1
    } else {
        let p = position_of(cols.drop_last(), i);
        if p >= 0 {
            p
        } else if cols.last() == i {
            cols.len() - 1
        } else {
            -1
        }
    }
}

/// A selected field trimmed at the left, the right or both (both when
/// neither is asked for).
pub open spec fn trimmed(v: Seq<char>, left: bool, right: bool) -> Seq<char> {
    if left && right {
        trim_seq(v)
    } else if left {
        trim_start_seq(v)
    } else if right {
        trim_end_seq(v)
    } else {
        trim_seq(v)
    }
}

/// The width that applies to field `i`: by its place in the column list,
/// or by its own index without one.
pub open spec fn width_index(cols: Option<Seq<usize>>, i: int) -> int {
    match cols {
        None => i,
        Some(c) => position_of(c, i),
    }
}

/// Field `i` after the trim command.
pub open spec fn trim_field(cols: Option<Seq<usize>>, left: bool, right: bool, widths: Seq<i32>, v: Seq<char>, i: int) -> Seq<char> {
    let t = if col_selected(cols, i) {
        trimmed(v, left, right)
    } else {
        v
    };
    let w = width_index(cols, i);
    if 0 <= w < widths.len() && widths[w] >= 0 {
        t.take(if widths[w] < t.len() {
            widths[w] as int
        } else {
            t.len() as int
        })
    } else {
        t
    }
}

fn position_in(cols: &Vec<usize>, i: usize) -> (p: Option<usize>)
    ensures
        match p {
            Some(k) => position_of(cols@, i as int) == k,
            None => position_of(cols@, i as int) == -1,
        },
{
    let mut k: usize = 0;
    while k < cols.len()
        invariant
            k <= cols@.len(),
            position_of(cols@.take(k as int), i as int) == -1,
        decreases cols@.len() - k,
    {
        proof {
            assert(cols@.take(k + 1).drop_last() =~= cols@.take(k as int));
        }
        if cols[k] == i {
            proof {
                lemma_position_prefix(cols@, i as int, k as int + 1);
            }
            return Some(k);
        }
        k += 1;
    }
    assert(cols@.take(cols@.len() as int) =~= cols@);
    None
}

proof fn lemma_position_prefix(cols: Seq<usize>, i: int, k: int)
    requires
        0 <= k <= cols.len(),
        position_of(cols.take(k), i) >= 0,
    ensures
        position_of(cols, i) == position_of(cols.take(k), i),
    decreases cols.len() - k,
{
    if k == cols.len() {
        assert(cols.take(k) =~= cols);
    } else {
        assert(cols.take(k + 1).drop_last() =~= cols.take(k));
        lemma_position_prefix(cols, i, k + 1);
    }
}

/// Trims the fields of a row and cuts them to the widths.
pub fn trim_row(
    cols: &Option<Vec<usize>>,
    left: bool,
    right: bool,
    widths: &Vec<i32>,
    row: &Vec<String>,
) -> (r: Vec<String>)
    ensures
        r@.len() == row@.len(),
        forall|i: int|
            0 <= i < row@.len() ==> (#[trigger] r@[i])@ == trim_field(
                cols_view(cols),
                left,
                right,
                widths@,
                row@[i]@,
                i,
            ),
{
    let mut out: Vec<String> = Vec::new();
    let mut i: usize = 0;
    while i < row.len()
        invariant
            i <= row@.len(),
            out@.len() == i,
            forall|j: int|
                0 <= j < i ==> (#[trigger] out@[j])@ == trim_field(
                    cols_view(cols),
                    left,
                    right,
                    widths@,
                    row@[j]@,
                    j,
                ),
        decreases row@.len() - i,
    {
        let v = row[i].as_str();
        let t = if is_selected(cols, i) {
            if left && right {
                trim(v)
            } else if left {
                trim_start(v)
            } else if right {
                trim_end(v)
            } else {
                trim(v)
            }
        } else {
            row[i].clone()
        };
        let w: Option<usize> = match cols {
            None => Some(i),
            Some(c) => position_in(c, i),
        };
        let mut res = t;
        match w {
            Some(wi) => {
                if wi < widths.len() && widths[wi] >= 0 {
                    let limit = widths[wi] as usize;
                    let cs = chars_of(res.as_str());
                    let end = if limit < cs.len() {
                        limit
                    } else {
                        cs.len()
                    };
                    let mut cut = String::new();
                    push_chars(&mut cut, &cs, 0, end);
                    assert(cs@.subrange(0, end as int) =~= cs@.take(end as int));
                    res = cut;
                }
            },
            None => {},
        }
        out.push(res);
        i += 1;
    }
    out
}

/// The row cut to `count` fields when it has more.
pub fn truncate_row(count: usize, row: &Vec<String>) -> (r: Vec<String>)
    ensures
        sview(r@) == (if count < row@.len() {
            sview(row@).take(count as int)
        } else {
            sview(row@)
        }),
{
    let n = if count < row.len() {
        count
    } else {
        row.len()
    };
    let mut out: Vec<String> = Vec::new();
    let mut k: usize = 0;
    while k < n
        invariant
            k <= n <= row@.len(),
            sview(out@) == sview(row@).take(k as int),
        decreases n - k,
    {
        let ghost b = out@;
        out.push(row[k].clone());
        assert(sview(out@) =~= sview(row@).take(k + 1)) by {
            assert(sview(b).len() == b.len());
        }
        k += 1;
    }
    assert(sview(row@).take(row@.len() as int) =~= sview(row@));
    out
}

/// The options of the pad command: whether a field count was given, the
/// count, and the padding values; or the error when there is neither.
pub fn pad_setup(count: Option<usize>, pad_vals: Option<&str>) -> (r: Result<(bool, usize, Vec<String>), String>)
    ensures
        match r {
            Ok((spec, n, list)) => spec == (count is Some) && n == (match count {
                Some(c) => c,
                None => 0,
            }) && sview(list@) == (match pad_vals {
                Some(p) => split_seq(p@, ','),
                None => seq![],
            }) && (spec || list@.len() > 0),
            Err(e) => count is None && pad_vals is None && e@ == "Need -n flag to specify field count"@,
        },
{
    let list: Vec<String> = match pad_vals {
        Some(p) => split_str(p, ','),
        None => Vec::new(),
    };
    proof {
        if pad_vals is Some {
            crate::text::lemma_split_nonempty(pad_vals->0@, ',');
            assert(sview(list@).len() == list@.len());
        } else {
            assert(sview(list@) =~= Seq::<Seq<char>>::empty());
        }
    }
    let ncolspec = count.is_some();
    let ncols = match count {
        Some(c) => c,
        None => 0,
    };
    if !ncolspec && list.len() == 0 {
        return Err(lit("Need -n flag to specify field count"));
    }
    Ok((ncolspec, ncols, list))
}

/// The value that padding puts at field `i` of a row of `sz` fields.
pub open spec fn pad_value(list: Seq<Seq<char>>, sz: int, i: int) -> Seq<char> {
    if list.len() == 0 {
        seq![]
    } else if i - sz >= list.len() {
        list.last()
    } else {
        list[i - sz]
    }
}

/// The number of fields after padding.
pub open spec fn pad_target(ncolspec: bool, ncols: int, sz: int, list_len: int) -> int {
    if ncolspec {
        ncols
    } else {
        sz + list_len
    }
}

/// Pads a row with the padding values (the last repeated) or empty
/// fields, up to `ncols` fields or by one field per value.
pub fn pad_row(ncolspec: bool, ncols: usize, list: &Vec<String>, row: &Vec<String>) -> (r: Vec<String>)
    requires
        row@.len() + list@.len() <= usize::MAX,
    ensures
        ({
            let sz = row@.len() as int;
            let t = pad_target(ncolspec, ncols as int, sz, list@.len() as int);
            &&& r@.len() == (if t > sz { t } else { sz })
            &&& forall|i: int| 0 <= i < sz ==> (#[trigger] r@[i])@ == row@[i]@
            &&& forall|i: int| sz <= i < r@.len() ==> (#[trigger] r@[i])@ == pad_value(sview(list@), sz, i)
        }),
{
    let sz = row.len();
    let target = if ncolspec {
        ncols
    } else {
        sz + list.len()
    };
    let mut out: Vec<String> = Vec::new();
    let mut k: usize = 0;
    while k < sz
        invariant
            k <= sz == row@.len(),
            out@.len() == k,
            forall|i: int| 0 <= i < k ==> (#[trigger] out@[i])@ == row@[i]@,
        decreases sz - k,
    {
        out.push(row[k].clone());
        k += 1;
    }
    let mut i: usize = sz;
    while i < target
        invariant
            sz == row@.len(),
            sz <= i,
            i <= target || target < sz,
            target < sz ==> i == sz,
            out@.len() == i,
            forall|j: int| 0 <= j < sz ==> (#[trigger] out@[j])@ == row@[j]@,
            forall|j: int| sz <= j < i ==> (#[trigger] out@[j])@ == pad_value(sview(list@), sz as int, j),
            target == pad_target(ncolspec, ncols as int, sz as int, list@.len() as int),
        decreases target - i,
    {
        assert(sview(list@).len() == list@.len());
        if list.len() == 0 {
            out.push(String::new());
        } else {
            let ci = i - sz;
            if ci >= list.len() {
                assert(sview(list@).last() == list@[list@.len() - 1]@);
                out.push(list[list.len() - 1].clone());
            } else {
                assert(sview(list@)[ci as int] == list@[ci as int]@);
                out.push(list[ci].clone());
            }
        }
        i += 1;
    }
    assert(i == (if target > sz { target } else { sz }));
    assert(out@.len() == (if target > sz { target } else { sz }));
    out
}

/// What the escape command's options give: the characters to escape and
/// the escape text, or the error.
pub open spec fn spec_escape_setup(chars: Option<Seq<char>>, esc: Seq<char>, sql: bool) -> Result<(Seq<char>, Seq<char>), Seq<char>> {
    if sql {
        if chars is Some || esc != seq!['\\'] {
            Err("Cannot specify -sql with -s or -e"@)
        } else {
            Ok((seq!['\''], seq!['\'']))
        }
    } else {
        match chars {
            None => Err("escape needs characters to escape (-s)"@),
            Some(c) => if esc.len() == 1 {
                Ok((c.push(esc[0]), esc))
            } else {
                Ok((c, esc))
            },
        }
    }
}

/// Checks the options of the escape command.
pub fn escape_setup(chars: Option<&str>, esc: &str, sql: bool) -> (r: Result<(String, String), String>)
    ensures
        match spec_escape_setup(
            match chars {
                Some(c) => Some(c@),
                None => None,
            },
            esc@,
            sql,
        ) {
            Ok((c, e)) => r matches Ok((c2, e2)) && c2@ == c && e2@ == e,
            Err(e) => r matches Err(m) && m@ == e,
        },
{
    let ec = chars_of(esc);
    if sql {
        let is_bs = ec.len() == 1 && ec[0] == '\\';
        proof {
            if is_bs {
                assert(esc@ =~= seq!['\\']);
            }
            if esc@ == seq!['\\'] {
                assert(ec@[0] == '\\');
            }
        }
        if chars.is_some() || !is_bs {
            return Err(lit("Cannot specify -sql with -s or -e"));
        }
        let mut q = String::new();
        string_push(&mut q, '\'');
        let mut q2 = String::new();
        string_push(&mut q2, '\'');
        assert(q@ =~= seq!['\'']);
        assert(q2@ =~= seq!['\'']);
        return Ok((q, q2));
    }
    match chars {
        None => Err(lit("escape needs characters to escape (-s)")),
        Some(c) => {
            let mut special = lit(c);
            if ec.len() == 1 {
                string_push(&mut special, ec[0]);
            }
            Ok((special, lit(esc)))
        },
    }
}

/// `s` with `esc` before each character of `special`.
pub open spec fn escaped_with(s: Seq<char>, special: Seq<char>, esc: Seq<char>) -> Seq<char>
    decreases s.len(),
{
    if s.len() == 0 {
        seq![]
    } else if special.contains(s.last()) {
        escaped_with(s.drop_last(), special, esc) + esc + seq![s.last()]
    } else {
        escaped_with(s.drop_last(), special, esc).push(s.last())
    }
}

/// Escapes the special characters of the selected fields; in SQL mode
/// quotes are doubled.
pub fn escape_row(
    cols: &Option<Vec<usize>>,
    special: &str,
    esc: &str,
    sql: bool,
    row: &Vec<String>,
) -> (r: Vec<String>)
    ensures
        r@.len() == row@.len(),
        forall|i: int|
            0 <= i < row@.len() ==> (#[trigger] r@[i])@ == (if !col_selected(cols_view(cols), i) {
                row@[i]@
            } else if sql {
                crate::escape::prefixed(row@[i]@, seq!['\''], '\'')
            } else {
                escaped_with(row@[i]@, special@, esc@)
            }),
{
    let sc = chars_of(special);
    let mut out: Vec<String> = Vec::new();
    let mut i: usize = 0;
    while i < row.len()
        invariant
            i <= row@.len(),
            sc@ == special@,
            out@.len() == i,
            forall|j: int|
                0 <= j < i ==> (#[trigger] out@[j])@ == (if !col_selected(cols_view(cols), j) {
                    row@[j]@
                } else if sql {
                    crate::escape::prefixed(row@[j]@, seq!['\''], '\'')
                } else {
                    escaped_with(row@[j]@, special@, esc@)
                }),
        decreases row@.len() - i,
    {
        if !is_selected(cols, i) {
            out.push(row[i].clone());
        } else if sql {
            out.push(crate::escape::sql_quote(row[i].as_str()));
        } else {
            let cs = chars_of(row[i].as_str());
            let mut e = String::new();
            let mut k: usize = 0;
            while k < cs.len()
                invariant
                    k <= cs@.len(),
                    cs@ == row@[i as int]@,
                    sc@ == special@,
                    e@ == escaped_with(cs@.take(k as int), special@, esc@),
                decreases cs@.len() - k,
            {
                let c = cs[k];
                proof {
                    assert(cs@.take(k + 1).drop_last() =~= cs@.take(k as int));
                    assert(cs@.take(k + 1).last() == c);
                }
                if crate::text::has_char(&sc, c) {
                    push_str(&mut e, esc);
                }
                string_push(&mut e, c);
                k += 1;
            }
            assert(cs@.take(cs@.len() as int) =~= cs@);
            out.push(e);
        }
        i += 1;
    }
    out
}

/// A number written the way the number command reads it: in the `EU`
/// style the decimal point is `,` and `.` separates thousands, else the
/// reverse. Thousands separators before the decimal point are dropped and
/// the decimal point becomes `.`.
pub open spec fn normalized_number(s: Seq<char>, eu: bool) -> Seq<char>
    decreases s.len(),
{
    if s.len() == 0 {
        seq![]
    } else {
        let ts = if eu { '.' } else { ',' };
        let dp = if eu { ',' } else { '.' };
        let prev = normalized_number(s.drop_last(), eu);
        let c = s.last();
        if c == dp {
            prev.push('.')
        } else if c == ts && !s.drop_last().contains(dp) {
            prev
        } else {
            prev.push(c)
        }
    }
}

/// Rewrites a number of the given style with a `.` decimal point and no
/// thousands separators.
pub fn normalize_number(v: &str, eu: bool) -> (r: String)
    ensures
        r@ == normalized_number(v@, eu),
{
    let ts = if eu { '.' } else { ',' };
    let dp = if eu { ',' } else { '.' };
    let cs = chars_of(v);
    let mut s = String::new();
    let mut havedp = false;
    let mut k: usize = 0;
    while k < cs.len()
        invariant
            k <= cs@.len(),
            cs@ == v@,
            ts == (if eu { '.' } else { ',' }),
            dp == (if eu { ',' } else { '.' }),
            havedp == (exists|j: int| 0 <= j < k && #[trigger] cs@[j] == dp),
            s@ == normalized_number(cs@.take(k as int), eu),
        decreases cs@.len() - k,
    {
        let c = cs[k];
        proof {
            assert(cs@.take(k + 1).drop_last() =~= cs@.take(k as int));
            assert(cs@.take(k + 1).last() == c);
            if havedp {
                let j = choose|j: int| 0 <= j < k && #[trigger] cs@[j] == dp;
                assert(cs@.take(k as int)[j] == dp);
            } else {
                assert forall|j: int| 0 <= j < cs@.take(k as int).len() implies cs@.take(k as int)[j] != dp by {
                    assert(cs@.take(k as int)[j] == cs@[j]);
                }
            }
        }
        if c == dp {
            havedp = true;
            string_push(&mut s, '.');
        } else if c == ts && !havedp {
        } else {
            string_push(&mut s, c);
        }
        k += 1;
    }
    assert(cs@.take(cs@.len() as int) =~= cs@);
    s
}

/// `n` written with at least `width` digits, zeros in front.
pub open spec fn zero_padded(n: nat, width: nat) -> Seq<char> {
    let d = dec_string(n);
    if d.len() < width {
        Seq::new((width - d.len()) as nat, |i: int| '0') + d
    } else {
        d
    }
}

/// The text of a sequence number: zero-padded to `pad` digits when it is
/// not negative and `pad` is set; put in place of the first `@` of the mask.
pub open spec fn sequence_text(seq: int, pad: nat, mask: Option<Seq<char>>) -> Seq<char> {
    let sn = if seq >= 0 && pad > 0 {
        zero_padded(seq as nat, pad)
    } else {
        int_string(seq)
    };
    match mask {
        None => sn,
        Some(m) => {
            let at = crate::dates::index_from(m, '@', 0);
            if at < 0 {
                sn
            } else {
                m.subrange(0, at) + sn + m.subrange(at + 1, m.len() as int)
            }
        },
    }
}

/// Writes a sequence number, padded and masked.
pub fn sequence_string(seq: i32, pad: usize, mask: Option<&str>) -> (r: String)
    ensures
        r@ == sequence_text(seq as int, pad as nat, match mask {
            Some(m) => Some(m@),
            None => None,
        }),
{
    let digits = i64_to_string(seq as i64);
    let sn = if seq >= 0 && pad > 0 {
        let dl = digits.as_str().len();
        let dc = chars_of(digits.as_str());
        let mut z = String::new();
        let mut k: usize = dc.len();
        while k < pad
            invariant
                dc.len() <= k <= pad || (pad <= dc.len() && k == dc.len()),
                z@ == Seq::new((k - dc@.len()) as nat, |i: int| '0'),
            decreases pad - k,
        {
            string_push(&mut z, '0');
            assert(z@ =~= Seq::new((k + 1 - dc@.len()) as nat, |i: int| '0'));
            k += 1;
        }
        push_str(&mut z, digits.as_str());
        proof {
            assert(digits@ == dec_string(seq as nat));
            if dc@.len() >= pad {
                assert(z@ =~= digits@);
            }
        }
        z
    } else {
        digits
    };
    match mask {
        None => sn,
        Some(m) => {
            let mc = chars_of(m);
            let mut at: usize = 0;
            while at < mc.len() && mc[at] != '@'
                invariant
                    at <= mc@.len(),
                    mc@ == m@,
                    crate::dates::index_from(m@, '@', 0) == crate::dates::index_from(m@, '@', at as int),
                decreases mc@.len() - at,
            {
                at += 1;
            }
            if at == mc.len() {
                sn
            } else {
                let mut out = String::new();
                push_chars(&mut out, &mc, 0, at);
                push_str(&mut out, sn.as_str());
                push_chars(&mut out, &mc, at + 1, mc.len());
                out
            }
        },
    }
}

/// The row with a sequence number inserted at field `col`, or added at
/// its end when the row is shorter.
pub fn insert_at(row: &Vec<String>, col: usize, sn: String) -> (r: Vec<String>)
    ensures
        sview(r@) == (if col >= row@.len() {
            sview(row@).push(sn@)
        } else {
            sview(row@).insert(col as int, sn@)
        }),
{
    let mut out: Vec<String> = Vec::new();
    let mut k: usize = 0;
    while k < row.len()
        invariant
            k <= row@.len(),
            sview(out@) == sview(row@).take(k as int),
        decreases row@.len() - k,
    {
        let ghost b = out@;
        out.push(row[k].clone());
        assert(sview(out@) =~= sview(row@).take(k + 1)) by {
            assert(sview(b).len() == b.len());
        }
        k += 1;
    }
    assert(sview(row@).take(row@.len() as int) =~= sview(row@));
    let ghost before = out@;
    if col >= out.len() {
        out.push(sn);
        assert(sview(out@) =~= sview(before).push(sn@));
    } else {
        out.insert(col, sn);
        assert(sview(out@) =~= sview(before).insert(col as int, sn@));
    }
    out
}

/// The key by which the unique command compares rows: the chosen fields,
/// or all, each followed by a NUL.
pub open spec fn unique_key(row: Seq<Seq<char>>, cols: Option<Seq<usize>>) -> Seq<char> {
    match cols {
        Some(c) => join_key(row, c, false),
        None => join_key(row, Seq::new(row.len(), |i: int| i as usize), false),
    }
}

/// Builds the unique command's key of a row.
pub fn make_unique_key(row: &Vec<String>, cols: &Option<Vec<usize>>) -> (k: String)
    ensures
        k@ == unique_key(sview(row@), cols_view(cols)),
{
    match cols {
        Some(c) => make_join_key(row, c, false),
        None => {
            let mut all: Vec<usize> = Vec::new();
            let mut i: usize = 0;
            while i < row.len()
                invariant
                    i <= row@.len(),
                    all@ == Seq::new(i as nat, |j: int| j as usize),
                decreases row@.len() - i,
            {
                all.push(i);
                assert(all@ =~= Seq::new((i + 1) as nat, |j: int| j as usize));
                i += 1;
            }
            assert(sview(row@).len() == row@.len());
            make_join_key(row, &all, false)
        },
    }
}

/// The index of the first key equal to `k`, or -1.
pub open spec fn find_key(keys: Seq<Seq<char>>, k: Seq<char>) -> int
    decreases keys.len(),
{
    if keys.len() == 0 {
        -1
    } else {
        let p = find_key(keys.drop_last(), k);
        if p >= 0 {
            p
        } else if keys.last() == k {
            keys.len() - 1
        } else {
            -1
        }
    }
}

/// The position of the first key equal to `key`, if any.
pub fn key_position(keys: &Vec<String>, key: &String) -> (p: Option<usize>)
    ensures
        match p {
            Some(j) => j < keys@.len() && find_key(sview(keys@), key@) == j,
            None => find_key(sview(keys@), key@) == -1,
        },
{
    let ghost ks = sview(keys@);
    let mut j: usize = 0;
    while j < keys.len()
        invariant
            j <= keys@.len(),
            ks == sview(keys@),
            ks.len() == keys@.len(),
            find_key(ks.take(j as int), key@) == -1,
        decreases keys@.len() - j,
    {
        proof {
            assert(ks.take(j + 1).drop_last() =~= ks.take(j as int));
            assert(ks.take(j + 1).last() == keys@[j as int]@);
        }
        if keys[j] == *key {
            proof {
                lemma_find_prefix(ks, key@, j as int + 1);
            }
            return Some(j);
        }
        j += 1;
    }
    assert(ks.take(keys.len() as int) =~= ks);
    None
}

/// The keys seen by the unique command, with the first row of each and
/// whether it has been seen again.
pub struct UniqueState {
    pub keys: Vec<String>,
    pub firsts: Vec<Vec<String>>,
    pub repeated: Vec<bool>,
}

impl UniqueState {
    /// The lists have one entry per key.
    pub open spec fn wf(&self) -> bool {
        self.keys@.len() == self.firsts@.len() && self.keys@.len() == self.repeated@.len()
    }

    /// No key seen yet.
    pub fn new() -> (s: Self)
        ensures
            s.wf(),
            s.keys@.len() == 0,
    {
        UniqueState { keys: Vec::new(), firsts: Vec::new(), repeated: Vec::new() }
    }

    /// Takes the next row, whose key is `key`; returns the rows to write.
    /// Without `show_dupes`, a row is written the first time its key is
    /// seen. With it, a row is written when its key was seen before,
    /// preceded by the first row of that key the first time this happens.
    pub fn step(&mut self, key: String, row: &Vec<String>, show_dupes: bool) -> (out: Vec<Vec<String>>)
        requires
            old(self).wf(),
        ensures
            final(self).wf(),
            ({
                let p = find_key(sview(old(self).keys@), key@);
                if p < 0 {
                    &&& sview(final(self).keys@) == sview(old(self).keys@).push(key@)
                    &&& rows_view(final(self).firsts@) == rows_view(old(self).firsts@).push(sview(row@))
                    &&& final(self).repeated@ == old(self).repeated@.push(false)
                    &&& rows_view(out@) == (if show_dupes {
                        seq![]
                    } else {
                        seq![sview(row@)]
                    })
                } else {
                    &&& sview(final(self).keys@) == sview(old(self).keys@)
                    &&& rows_view(final(self).firsts@) == rows_view(old(self).firsts@)
                    &&& final(self).repeated@ == (if show_dupes {
                        old(self).repeated@.update(p, true)
                    } else {
                        old(self).repeated@
                    })
                    &&& rows_view(out@) == (if !show_dupes {
                        seq![]
                    } else if !old(self).repeated@[p] {
                        seq![sview(old(self).firsts@[p]@), sview(row@)]
                    } else {
                        seq![sview(row@)]
                    })
                }
            }),
    {
        let mut out: Vec<Vec<String>> = Vec::new();
        assert(rows_view(out@) =~= Seq::<Seq<Seq<char>>>::empty());
        match key_position(&self.keys, &key) {
            Some(j) => {
                if show_dupes {
                    if !self.repeated[j] {
                        let f = self.firsts[j].clone();
                        assert(f@ == self.firsts@[j as int]@);
                        out.push(f);
                        proof {
                            lemma_rows_view_push(Seq::<Vec<String>>::empty(), f);
                        }
                    }
                    let ghost o1 = out@;
                    let r = row.clone();
                    out.push(r);
                    proof {
                        lemma_rows_view_push(o1, r);
                    }
                    self.repeated.set(j, true);
                }
            },
            None => {
                let ghost ks = self.keys@;
                let ghost fs = self.firsts@;
                self.keys.push(key);
                self.firsts.push(row.clone());
                self.repeated.push(false);
                proof {
                    assert(sview(self.keys@) =~= sview(ks).push(key@));
                    lemma_rows_view_push(fs, self.firsts@.last());
                    assert(self.firsts@ =~= fs.push(self.firsts@.last()));
                }
                if !show_dupes {
                    let r = row.clone();
                    out.push(r);
                    proof {
                        lemma_rows_view_push(Seq::<Vec<String>>::empty(), r);
                    }
                }
            },
        }
        out
    }
}

proof fn lemma_find_prefix(ks: Seq<Seq<char>>, k: Seq<char>, n: int)
    requires
        0 <= n <= ks.len(),
        find_key(ks.take(n), k) >= 0,
    ensures
        find_key(ks, k) == find_key(ks.take(n), k),
    decreases ks.len() - n,
{
    if n == ks.len() {
        assert(ks.take(n) =~= ks);
    } else {
        assert(ks.take(n + 1).drop_last() =~= ks.take(n));
        lemma_find_prefix(ks, k, n + 1);
    }
}

/// The keys that the unique command has seen after the rows with keys
/// `keys`, in the order first seen: without `-d`, the keys of the rows it
/// writes (see [`UniqueState::step`]).
pub open spec fn unique_written(keys: Seq<Seq<char>>) -> Seq<Seq<char>>
    decreases keys.len(),
{
    if keys.len() == 0 {
        seq![]
    } else {
        let w = unique_written(keys.drop_last());
        if find_key(w, keys.last()) < 0 {
            w.push(keys.last())
        } else {
            w
        }
    }
}

pub(crate) proof fn lemma_find_key_found(ks: Seq<Seq<char>>, k: Seq<char>)
    ensures
        find_key(ks, k) >= 0 <==> ks.contains(k),
        find_key(ks, k) >= 0 ==> find_key(ks, k) < ks.len() && ks[find_key(ks, k)] == k,
    decreases ks.len(),
{
    if ks.len() > 0 {
        lemma_find_key_found(ks.drop_last(), k);
        if ks.drop_last().contains(k) {
            let j = choose|j: int| 0 <= j < ks.drop_last().len() && ks.drop_last()[j] == k;
            assert(ks[j] == k);
        }
        if ks.contains(k) && !ks.drop_last().contains(k) {
            let j = choose|j: int| 0 <= j < ks.len() && ks[j] == k;
            if j < ks.len() - 1 {
                assert(ks.drop_last()[j] == k);
            }
            assert(ks.last() == k);
        }
        if find_key(ks, k) >= 0 {
            assert(ks[find_key(ks, k)] == k);
        }
    }
}

/// Each key is written once: the keys of the rows that the unique command
/// writes (without `-d`) are pairwise distinct, and every key of the input
/// is among them.
pub proof fn lemma_unique_written(keys: Seq<Seq<char>>)
    ensures
        forall|i: int, j: int|
            0 <= i < j < unique_written(keys).len() ==> unique_written(keys)[i]
                != unique_written(keys)[j],
        forall|i: int| 0 <= i < keys.len() ==> unique_written(keys).contains(#[trigger] keys[i]),
    decreases keys.len(),
{
    if keys.len() > 0 {
        let prev = keys.drop_last();
        lemma_unique_written(prev);
        let w = unique_written(prev);
        let k = keys.last();
        lemma_find_key_found(w, k);
        let w2 = unique_written(keys);
        assert forall|i: int| 0 <= i < keys.len() implies w2.contains(#[trigger] keys[i]) by {
            if i < keys.len() - 1 {
                assert(prev[i] == keys[i]);
                assert(w.contains(prev[i]));
                let j = choose|j: int| 0 <= j < w.len() && w[j] == prev[i];
                assert(w2[j] == keys[i]);
            } else if find_key(w, k) < 0 {
                assert(w2[w.len() as int] == k);
            }
        }
    }
}

/// The rows that the unique command writes without `-d`, of the rows
/// `rows` with keys `keys`: [`UniqueState::step`] writes a row when its
/// key is not among the keys seen before it.
pub open spec fn unique_out(keys: Seq<Seq<char>>, rows: Seq<Seq<Seq<char>>>) -> Seq<Seq<Seq<char>>>
    decreases rows.len(),
{
    if rows.len() == 0 || keys.len() != rows.len() {
        seq![]
    } else {
        let prev = unique_out(keys.drop_last(), rows.drop_last());
        if find_key(unique_written(keys.drop_last()), keys.last()) < 0 {
            prev.push(rows.last())
        } else {
            prev
        }
    }
}

/// The rows whose key occurs in no row before them, in order.
pub open spec fn first_rows(keys: Seq<Seq<char>>, rows: Seq<Seq<Seq<char>>>) -> Seq<Seq<Seq<char>>>
    decreases rows.len(),
{
    if rows.len() == 0 || keys.len() != rows.len() {
        seq![]
    } else {
        let prev = first_rows(keys.drop_last(), rows.drop_last());
        if keys.drop_last().contains(keys.last()) {
            prev
        } else {
            prev.push(rows.last())
        }
    }
}

proof fn lemma_unique_written_keys(keys: Seq<Seq<char>>)
    ensures
        forall|k: Seq<char>| unique_written(keys).contains(k) <==> keys.contains(k),
    decreases keys.len(),
{
    if keys.len() > 0 {
        let prev = keys.drop_last();
        lemma_unique_written_keys(prev);
        lemma_unique_written(keys);
        let w = unique_written(prev);
        let w2 = unique_written(keys);
        assert forall|k: Seq<char>| w2.contains(k) implies keys.contains(k) by {
            let j = choose|j: int| 0 <= j < w2.len() && w2[j] == k;
            if j < w.len() {
                assert(w[j] == k);
                assert(prev.contains(k));
                let i = choose|i: int| 0 <= i < prev.len() && prev[i] == k;
                assert(keys[i] == k);
            } else {
                assert(keys[keys.len() - 1] == k);
            }
        }
        assert forall|k: Seq<char>| keys.contains(k) implies w2.contains(k) by {
            let i = choose|i: int| 0 <= i < keys.len() && keys[i] == k;
            assert(w2.contains(keys[i]));
        }
    }
}

/// The unique command, without `-d`, writes exactly the rows whose key
/// occurs in no row before them, in the order of the input.
pub proof fn lemma_unique_first_rows(keys: Seq<Seq<char>>, rows: Seq<Seq<Seq<char>>>)
    requires
        keys.len() == rows.len(),
    ensures
        unique_out(keys, rows) == first_rows(keys, rows),
    decreases rows.len(),
{
    if rows.len() > 0 {
        lemma_unique_first_rows(keys.drop_last(), rows.drop_last());
        lemma_unique_written_keys(keys.drop_last());
        lemma_find_key_found(unique_written(keys.drop_last()), keys.last());
    }
}

/// Whether head, having written `count` rows, writes the next one: it does
/// while fewer than `n` are written, and then has written one more.
pub fn head_step(count: usize, n: usize) -> (r: Option<usize>)
    ensures
        count < n ==> r == Some((count + 1) as usize),
        count >= n ==> r is None,
{
    if count >= n {
        None
    } else {
        Some(count + 1)
    }
}

/// The rows that head writes of the rows `kept` when `count` are already
/// written: each in turn, while [`head_step`] lets it.
pub open spec fn head_rows<A>(kept: Seq<A>, n: nat, count: nat) -> Seq<A>
    decreases kept.len(),
{
    if kept.len() == 0 || count >= n {
        seq![]
    } else {
        seq![kept[0]] + head_rows(kept.drop_first(), n, count + 1)
    }
}

/// Head writes the first `n` rows kept, or all when there are fewer.
pub proof fn lemma_head_rows<A>(kept: Seq<A>, n: nat)
    ensures
        head_rows(kept, n, 0) == kept.take(if n < kept.len() {
            n as int
        } else {
            kept.len() as int
        }),
{
    lemma_head_rows_from(kept, n, 0);
}

proof fn lemma_head_rows_from<A>(kept: Seq<A>, n: nat, count: nat)
    ensures
        head_rows(kept, n, count) == kept.take(if count >= n {
            0
        } else if n - count < kept.len() {
            n - count
        } else {
            kept.len() as int
        }),
    decreases kept.len(),
{
    if kept.len() == 0 || count >= n {
        assert(kept.take(0) =~= Seq::<A>::empty());
    } else {
        lemma_head_rows_from(kept.drop_first(), n, count + 1);
        let m = if n - count < kept.len() {
            n - count
        } else {
            kept.len() as int
        };
        assert(kept.take(m) =~= seq![kept[0]] + kept.drop_first().take(m - 1));
    }
}

/// The rows that tail keeps of `rows`: each pushed in turn by
/// [`tail_push`].
pub open spec fn tail_rows(rows: Seq<Vec<String>>, n: nat) -> Seq<Vec<String>>
    decreases rows.len(),
{
    if rows.len() == 0 {
        seq![]
    } else {
        let all = tail_rows(rows.drop_last(), n).push(rows.last());
        if all.len() > n {
            all.drop_first()
        } else {
            all
        }
    }
}

/// Tail keeps the last `n` rows, or all when there are fewer, in order.
pub proof fn lemma_tail_rows(rows: Seq<Vec<String>>, n: nat)
    ensures
        tail_rows(rows, n) == rows.subrange(
            if n < rows.len() {
                rows.len() - n
            } else {
                0
            },
            rows.len() as int,
        ),
    decreases rows.len(),
{
    if rows.len() > 0 {
        lemma_tail_rows(rows.drop_last(), n);
        let k = rows.len() as int;
        let p = rows.drop_last();
        let lo = if n < k - 1 {
            k - 1 - n
        } else {
            0
        };
        let all = p.subrange(lo, k - 1).push(rows.last());
        if all.len() > n {
            assert(all.drop_first() =~= rows.subrange(k - n, k));
        } else {
            assert(all =~= rows.subrange(if n < k {
                k - n
            } else {
                0
            }, k));
        }
    }
}

/// The row that file_info writes: the file's name and the line number as
/// two fields, or as one field `name (line)`, then the row's fields.
pub fn file_info_row(name: &str, line: usize, two_cols: bool, row: &Vec<String>) -> (r: Vec<String>)
    ensures
        sview(r@) == (if two_cols {
            seq![name@, dec_string(line as nat)]
        } else {
            seq![name@ + " ("@ + dec_string(line as nat) + ")"@]
        }) + sview(row@),
{
    let mut out: Vec<String> = Vec::new();
    let num = usize_to_string(line);
    if two_cols {
        out.push(lit(name));
        out.push(num);
    } else {
        let mut f = lit(name);
        push_str(&mut f, " (");
        push_str(&mut f, num.as_str());
        push_str(&mut f, ")");
        out.push(f);
    }
    let ghost head = sview(out@);
    let mut i: usize = 0;
    while i < row.len()
        invariant
            i <= row@.len(),
            sview(out@) == head + sview(row@).take(i as int),
            head == (if two_cols {
                seq![name@, dec_string(line as nat)]
            } else {
                seq![name@ + " ("@ + dec_string(line as nat) + ")"@]
            }),
        decreases row@.len() - i,
    {
        let ghost b = sview(out@);
        out.push(row[i].clone());
        proof {
            assert(sview(out@) =~= b.push(row@[i as int]@));
            assert(sview(row@).take(i + 1) =~= sview(row@).take(i as int).push(row@[i as int]@));
        }
        i += 1;
    }
    assert(sview(row@).take(row@.len() as int) =~= sview(row@));
    out
}

/// Keeps the last `n` rows: adds `row`, then drops the oldest if there
/// are more than `n`.
pub fn tail_push(buffer: &mut Vec<Vec<String>>, row: Vec<String>, n: usize)
    ensures
        ({
            let all = old(buffer)@.push(row);
            final(buffer)@ == (if all.len() > n {
                all.drop_first()
            } else {
                all
            })
        }),
{
    buffer.push(row);
    if buffer.len() > n {
        buffer.remove(0);
    }
}

} // verus!
