//! Commands that rebuild rows: mapping values, merging fields, ordering
//! fields, putting in a value, writing master and detail rows, and marking
//! blocks.
use vstd::prelude::*;
use crate::args::{parse_indices, spec_parse_indices};
use crate::escape::{expand_sep, spec_expand_sep};
use crate::flatten::{field_or_empty, non_key_from, pick_fields};
use crate::num::{dec_string, spec_parse_i32, parse_i32, usize_to_string};
use crate::rows::{cols_view, contains_index, rows_view, lemma_rows_view_push};
use crate::split::{comma_values, parse_comma_list};
use crate::text::{chars_of, lit, push_chars, push_str, split_seq, split_str, string_push, sview};

verus! {

/// What a `to` value of the map command gives: `$n` is field `n` of the
/// row (empty past its end), `$$...` is the text after the first `$`,
/// anything else is itself.
pub open spec fn spec_expand_map_to(val: Seq<char>, row: Seq<Seq<char>>) -> Result<Seq<char>, Seq<char>> {
    if val.len() > 1 && val[0] == '$' {
        let field = val.drop_first();
        if field[0] == '$' {
            Ok(field)
        } else {
            match spec_parse_i32(field) {
                None => Err("Invalid field specifier "@ + val),
                Some(n) => if n <= 0 {
                    Err("Field numbers must be greater than zero at "@ + val)
                } else {
                    Ok(field_or_empty(row, n - 1))
                },
            }
        }
    } else {
        Ok(val)
    }
}

/// Expands a `to` value of the map command for a row.
pub fn expand_map_to(val: &str, row: &Vec<String>) -> (r: Result<String, String>)
    ensures
        match spec_expand_map_to(val@, sview(row@)) {
            Ok(v) => r matches Ok(s) && s@ == v,
            Err(e) => r matches Err(m) && m@ == e,
        },
{
    let cs = chars_of(val);
    if cs.len() > 1 && cs[0] == '$' {
        let mut field = String::new();
        push_chars(&mut field, &cs, 1, cs.len());
        assert(field@ =~= val@.drop_first());
        if cs[1] == '$' {
            return Ok(field);
        }
        match parse_i32(field.as_str()) {
            None => {
                let mut m = lit("Invalid field specifier ");
                push_str(&mut m, val);
                Err(m)
            },
            Some(n) => {
                if n <= 0 {
                    let mut m = lit("Field numbers must be greater than zero at ");
                    push_str(&mut m, val);
                    return Err(m);
                }
                let idx = (n - 1) as usize;
                assert(sview(row@).len() == row@.len());
                if idx < row.len() {
                    assert(sview(row@)[idx as int] == row@[idx as int]@);
                    Ok(row[idx].clone())
                } else {
                    Ok(String::new())
                }
            },
        }
    } else {
        Ok(lit(val))
    }
}

/// `c` in ASCII lower case.
pub open spec fn lower_char(c: char) -> char {
    if 'A' <= c <= 'Z' {
        ((c as u8) + 32) as char
    } else {
        c
    }
}

/// Two texts are equal, ASCII case ignored when `ic`.
pub open spec fn same_text(a: Seq<char>, b: Seq<char>, ic: bool) -> bool {
    if ic {
        a.len() == b.len() && forall|i: int| 0 <= i < a.len() ==> lower_char(a[i]) == lower_char(b[i])
    } else {
        a == b
    }
}

/// The first `from` value that `v` equals, or -1.
pub open spec fn find_from(from: Seq<Seq<char>>, v: Seq<char>, ic: bool) -> int
    decreases from.len(),
{
    if from.len() == 0 {
        -1
    } else {
        let p = find_from(from.drop_last(), v, ic);
        if p >= 0 {
            p
        } else if same_text(v, from.last(), ic) {
            from.len() - 1
        } else {
            -1
        }
    }
}

/// The checked lists of the map command, or the error.
pub fn map_setup(from_val: &str, to_val: &str) -> (r: Result<(Vec<String>, Vec<String>), String>)
    ensures
        ({
            let f = comma_values(from_val@, false, seq![]);
            let t = comma_values(to_val@, false, seq![]);
            if t.len() > f.len() {
                r matches Err(e) && e@ == "List of 'to values' longer than list of 'from values"@
            } else {
                r matches Ok((a, b)) && sview(a@) == f && sview(b@) == t
            }
        }),
{
    let from_list = parse_comma_list(from_val);
    let to_list = parse_comma_list(to_val);
    assert(sview(from_list@).len() == from_list@.len());
    assert(sview(to_list@).len() == to_list@.len());
    if to_list.len() > from_list.len() {
        return Err(lit("List of 'to values' longer than list of 'from values"));
    }
    Ok((from_list, to_list))
}

/// The map command on the `k`-th chosen field: where its value is in the
/// `from` list, it becomes the matching `to` value (the last when the
/// `to` list is shorter, empty when there is none).
pub open spec fn map_one(
    row: Seq<Seq<char>>,
    cur: Seq<Seq<char>>,
    actual: int,
    from: Seq<Seq<char>>,
    to: Seq<Seq<char>>,
    ic: bool,
) -> Result<Seq<Seq<char>>, Seq<char>> {
    if actual < 0 || actual >= row.len() {
        Ok(cur)
    } else {
        let i = find_from(from, row[actual], ic);
        if i < 0 {
            Ok(cur)
        } else if to.len() == 0 {
            Ok(cur.update(actual, seq![]))
        } else {
            match spec_expand_map_to(
                if i < to.len() {
                    to[i]
                } else {
                    to.last()
                },
                row,
            ) {
                Ok(v) => Ok(cur.update(actual, v)),
                Err(e) => Err(e),
            }
        }
    }
}

/// The map command over the chosen fields `0..k` of the choice list (or
/// over the fields `0..k` without one).
pub open spec fn map_upto(
    row: Seq<Seq<char>>,
    cols: Option<Seq<usize>>,
    k: int,
    from: Seq<Seq<char>>,
    to: Seq<Seq<char>>,
    ic: bool,
) -> Result<Seq<Seq<char>>, Seq<char>>
    decreases k,
{
    if k <= 0 {
        Ok(row)
    } else {
        match map_upto(row, cols, k - 1, from, to, ic) {
            Err(e) => Err(e),
            Ok(cur) => map_one(
                row,
                cur,
                match cols {
                    Some(c) => c[k - 1] as int,
                    None => k - 1,
                },
                from,
                to,
                ic,
            ),
        }
    }
}

fn same_text_exec(a: &str, b: &str, ic: bool) -> (r: bool)
    ensures
        r == same_text(a@, b@, ic),
{
    let x = chars_of(a);
    let y = chars_of(b);
    if !ic {
        if x.len() != y.len() {
            return false;
        }
        let mut i: usize = 0;
        while i < x.len()
            invariant
                i <= x@.len() == y@.len(),
                x@ == a@,
                y@ == b@,
                !ic,
                forall|j: int| 0 <= j < i ==> x@[j] == y@[j],
            decreases x@.len() - i,
        {
            if x[i] != y[i] {
                assert(x@[i as int] != y@[i as int]);
                assert(a@ != b@);
                return false;
            }
            i += 1;
        }
        assert(x@ =~= y@);
        return true;
    }
    if x.len() != y.len() {
        return false;
    }
    let mut i: usize = 0;
    while i < x.len()
        invariant
            i <= x@.len() == y@.len(),
            x@ == a@,
            y@ == b@,
            forall|j: int| 0 <= j < i ==> lower_char(x@[j]) == lower_char(y@[j]),
            ic,
        decreases x@.len() - i,
    {
        let p = x[i];
        let q = y[i];
        let lp = if 'A' <= p && p <= 'Z' {
            ((p as u8) + 32) as char
        } else {
            p
        };
        let lq = if 'A' <= q && q <= 'Z' {
            ((q as u8) + 32) as char
        } else {
            q
        };
        if lp != lq {
            return false;
        }
        i += 1;
    }
    true
}

/// Maps the values of the chosen fields of a row (see [`map_upto`]).
pub fn map_row(
    cols: &Option<Vec<usize>>,
    from: &Vec<String>,
    to: &Vec<String>,
    ic: bool,
    row: &Vec<String>,
) -> (r: Result<Vec<String>, String>)
    ensures
        match map_upto(
            sview(row@),
            cols_view(cols),
            match cols {
                Some(c) => c@.len() as int,
                None => row@.len() as int,
            },
            sview(from@),
            sview(to@),
            ic,
        ) {
            Ok(v) => r matches Ok(w) && sview(w@) == v,
            Err(e) => r matches Err(m) && m@ == e,
        },
{
    let limit = match cols {
        Some(c) => c.len(),
        None => row.len(),
    };
    let ghost rv = sview(row@);
    let mut mapped: Vec<String> = Vec::new();
    let mut q: usize = 0;
    while q < row.len()
        invariant
            q <= row@.len(),
            sview(mapped@) == sview(row@).take(q as int),
        decreases row@.len() - q,
    {
        let ghost b = mapped@;
        mapped.push(row[q].clone());
        assert(sview(mapped@) =~= sview(row@).take(q + 1)) by {
            assert(sview(b).len() == b.len());
        }
        q += 1;
    }
    assert(sview(row@).take(row@.len() as int) =~= sview(row@));
    assert(sview(from@).len() == from@.len());
    assert(sview(to@).len() == to@.len());
    let mut idx: usize = 0;
    while idx < limit
        invariant
            idx <= limit,
            limit == match cols {
                Some(c) => c@.len(),
                None => row@.len(),
            },
            rv == sview(row@),
            rv.len() == row@.len(),
            sview(from@).len() == from@.len(),
            sview(to@).len() == to@.len(),
            mapped@.len() == row@.len(),
            map_upto(rv, cols_view(cols), idx as int, sview(from@), sview(to@), ic) == Ok::<
                Seq<Seq<char>>,
                Seq<char>,
            >(sview(mapped@)),
        decreases limit - idx,
    {
        let actual = match cols {
            Some(c) => c[idx],
            None => idx,
        };
        if actual < row.len() {
            let val = row[actual].as_str();
            assert(rv[actual as int] == val@);
            let mut found: Option<usize> = None;
            let mut i: usize = 0;
            while i < from.len()
                invariant
                    i <= from@.len(),
                    sview(from@).len() == from@.len(),
                    match found {
                        Some(j) => j < i && find_from(sview(from@).take(i as int), val@, ic) == j,
                        None => find_from(sview(from@).take(i as int), val@, ic) == -1,
                    },
                decreases from@.len() - i,
            {
                proof {
                    assert(sview(from@).take(i + 1).drop_last() =~= sview(from@).take(i as int));
                    assert(sview(from@).take(i + 1).last() == from@[i as int]@);
                }
                if found.is_none() && same_text_exec(val, from[i].as_str(), ic) {
                    found = Some(i);
                }
                i += 1;
            }
            assert(sview(from@).take(from@.len() as int) =~= sview(from@));
            match found {
                Some(j) => {
                    let ghost before = sview(mapped@);
                    let to_val = if to.len() == 0 {
                        String::new()
                    } else {
                        let t = if j < to.len() {
                            assert(sview(to@)[j as int] == to@[j as int]@);
                            to[j].as_str()
                        } else {
                            assert(sview(to@).last() == to@[to@.len() - 1]@);
                            to[to.len() - 1].as_str()
                        };
                        match expand_map_to(t, row) {
                            Ok(v) => v,
                            Err(e) => {
                                proof {
                                    lemma_map_err(rv, cols_view(cols), idx as int + 1, limit as int, sview(from@), sview(to@), ic);
                                }
                                return Err(e);
                            },
                        }
                    };
                    mapped.set(actual, to_val);
                    assert(sview(mapped@) =~= before.update(actual as int, to_val@));
                },
                None => {},
            }
        }
        idx += 1;
    }
    Ok(mapped)
}

proof fn lemma_map_err(
    row: Seq<Seq<char>>,
    cols: Option<Seq<usize>>,
    k: int,
    n: int,
    from: Seq<Seq<char>>,
    to: Seq<Seq<char>>,
    ic: bool,
)
    requires
        0 <= k <= n,
        map_upto(row, cols, k, from, to, ic) is Err,
    ensures
        map_upto(row, cols, n, from, to, ic) == map_upto(row, cols, k, from, to, ic),
    decreases n - k,
{
    if k < n {
        lemma_map_err(row, cols, k + 1, n, from, to, ic);
    }
}

/// The options of the merge command: the fields (none means all), the
/// separator, and the position of the merged field.
pub open spec fn spec_merge_setup(
    fields: Option<Seq<char>>,
    sep: Option<Seq<char>>,
    pos: Option<Seq<char>>,
) -> Result<(Seq<usize>, Seq<char>, usize), Seq<char>> {
    let cols: Result<Seq<usize>, Seq<char>> = match fields {
        None => Ok(seq![]),
        Some(f) => match spec_parse_indices(f) {
            Err(e) => Err(e),
            Ok(v) => if v.len() <= 1 {
                Err("Need to specify two or more fields with -f flag"@)
            } else {
                Ok(v)
            },
        },
    };
    match cols {
        Err(e) => Err(e),
        Ok(c) => {
            let s = match sep {
                Some(x) => x,
                None => seq![' '],
            };
            match spec_expand_sep(s, s) {
                Err(e) => Err(e),
                Ok(sv) => {
                    let pv = match pos {
                        Some(p) => p,
                        None => if c.len() > 0 {
                            dec_string((c[0] + 1) as nat)
                        } else {
                            seq!['1']
                        },
                    };
                    match spec_parse_i32(pv) {
                        None => Err("Position specified by -p must be integer"@),
                        Some(p) => if p - 1 < 0 {
                            Err("Position specified by -p must be greater than zero"@)
                        } else {
                            Ok((c, sv, (p - 1) as usize))
                        },
                    }
                },
            }
        },
    }
}

/// Checks the options of the merge command.
pub fn merge_setup(fields: Option<&str>, sep: Option<&str>, pos: Option<&str>) -> (r: Result<
    (Vec<usize>, String, usize),
    String,
>)
    requires
        pos matches Some(p) ==> spec_parse_i32(p@) != Some(i32::MIN),
    ensures
        match spec_merge_setup(
            match fields {
                Some(f) => Some(f@),
                None => None,
            },
            match sep {
                Some(s) => Some(s@),
                None => None,
            },
            match pos {
                Some(p) => Some(p@),
                None => None,
            },
        ) {
            Ok((c, s, p)) => r matches Ok((c2, s2, p2)) && c2@ == c && s2@ == s && p2 == p,
            Err(e) => r matches Err(m) && m@ == e,
        },
{
    let cols: Vec<usize> = match fields {
        None => Vec::new(),
        Some(f) => match parse_indices(f) {
            Err(e) => return Err(e),
            Ok(v) => {
                if v.len() <= 1 {
                    return Err(lit("Need to specify two or more fields with -f flag"));
                }
                v
            },
        },
    };
    let sep_text = match sep {
        Some(x) => lit(x),
        None => {
            let mut t = String::new();
            string_push(&mut t, ' ');
            assert(t@ =~= seq![' ']);
            t
        },
    };
    let sv = match expand_sep(sep_text.as_str()) {
        Err(e) => return Err(e),
        Ok(v) => v,
    };
    let pv = match pos {
        Some(p) => lit(p),
        None => {
            if cols.len() > 0 {
                assert(cols@[0] < usize::MAX) by {
                    crate::args::lemma_indices_small(fields->0@);
                }
                usize_to_string(cols[0] + 1)
            } else {
                let mut t = String::new();
                string_push(&mut t, '1');
                assert(t@ =~= seq!['1']);
                t
            }
        },
    };
    proof {
        if pos is None && cols@.len() > 0 {
            crate::args::lemma_indices_small(fields->0@);
            crate::num::lemma_parse_dec_small((cols@[0] + 1) as nat);
        }
    }
    match parse_i32(pv.as_str()) {
        None => Err(lit("Position specified by -p must be integer")),
        Some(p) => {
            if p - 1 < 0 {
                return Err(lit("Position specified by -p must be greater than zero"));
            }
            Ok((cols, sv, (p - 1) as usize))
        },
    }
}

/// The merged value: the chosen fields that the row has, with the
/// separator after each but the last chosen one; or all fields joined.
pub open spec fn merged_text(row: Seq<Seq<char>>, cols: Seq<usize>, sep: Seq<char>) -> Seq<char>
    decreases (if cols.len() > 0 { cols.len() } else { row.len() }),
{
    if cols.len() > 0 {
        merged_from(row, cols, sep, cols.len() as int)
    } else {
        joined(row, sep, row.len() as int)
    }
}

/// The chosen fields `0..k`, each followed by the separator unless it is
/// the last chosen field.
pub open spec fn merged_from(row: Seq<Seq<char>>, cols: Seq<usize>, sep: Seq<char>, k: int) -> Seq<char>
    decreases k,
{
    if k <= 0 {
        seq![]
    } else {
        let prev = merged_from(row, cols, sep, k - 1);
        let ci = cols[k - 1];
        if ci < row.len() {
            prev + row[ci as int] + (if k - 1 != cols.len() - 1 {
                sep
            } else {
                seq![]
            })
        } else {
            prev
        }
    }
}

/// The fields `0..k` joined with the separator.
pub open spec fn joined(row: Seq<Seq<char>>, sep: Seq<char>, k: int) -> Seq<char>
    decreases k,
{
    if k <= 0 {
        seq![]
    } else if k == 1 {
        row[0]
    } else {
        joined(row, sep, k - 1) + sep + row[k - 1]
    }
}

/// The fields of the merged row: the merged value at `m_pos`, and each
/// field of the row that is kept.
pub open spec fn merge_from(
    row: Seq<Seq<char>>,
    cols: Seq<usize>,
    m_pos: int,
    keep: bool,
    merged: Seq<char>,
    k: int,
) -> Seq<Seq<char>>
    decreases k,
{
    if k <= 0 {
        seq![]
    } else {
        let i = k - 1;
        let prev = merge_from(row, cols, m_pos, keep, merged, k - 1);
        let with_m = if m_pos == i {
            prev.push(merged)
        } else {
            prev
        };
        if keep || (cols.len() > 0 && !cols.contains(i as usize)) {
            with_m.push(row[i])
        } else {
            with_m
        }
    }
}

/// The row after the merge command.
pub open spec fn spec_merge_row(row: Seq<Seq<char>>, cols: Seq<usize>, sep: Seq<char>, m_pos: int, keep: bool) -> Seq<Seq<char>> {
    let m = merged_text(row, cols, sep);
    let body = merge_from(row, cols, m_pos, keep, m, row.len() as int);
    if m_pos >= row.len() {
        body.push(m)
    } else {
        body
    }
}

/// Merges the chosen fields of a row (all when none is chosen) into one
/// field at `m_pos`; the merged fields stay when `keep`.
pub fn merge_row(cols: &Vec<usize>, sep: &str, m_pos: usize, keep: bool, row: &Vec<String>) -> (r: Vec<String>)
    ensures
        sview(r@) == spec_merge_row(sview(row@), cols@, sep@, m_pos as int, keep),
{
    let ghost rv = sview(row@);
    assert(rv.len() == row@.len());
    let mut merged = String::new();
    if cols.len() > 0 {
        let mut i: usize = 0;
        while i < cols.len()
            invariant
                i <= cols@.len(),
                rv == sview(row@),
                rv.len() == row@.len(),
                merged@ == merged_from(rv, cols@, sep@, i as int),
            decreases cols@.len() - i,
        {
            let ci = cols[i];
            if ci < row.len() {
                assert(rv[ci as int] == row@[ci as int]@);
                push_str(&mut merged, row[ci].as_str());
                if i != cols.len() - 1 {
                    push_str(&mut merged, sep);
                }
            }
            i += 1;
        }
    } else {
        let mut i: usize = 0;
        while i < row.len()
            invariant
                i <= row@.len(),
                rv == sview(row@),
                rv.len() == row@.len(),
                merged@ == joined(rv, sep@, i as int),
            decreases row@.len() - i,
        {
            if i > 0 {
                push_str(&mut merged, sep);
            }
            assert(rv[i as int] == row@[i as int]@);
            push_str(&mut merged, row[i].as_str());
            proof {
                if i == 0 {
                    assert(merged@ =~= rv[0]);
                }
            }
            i += 1;
        }
    }
    assert(merged@ == merged_text(rv, cols@, sep@));
    let mut newrow: Vec<String> = Vec::new();
    let mut i: usize = 0;
    assert(sview(newrow@) =~= Seq::<Seq<char>>::empty());
    while i < row.len()
        invariant
            i <= row@.len(),
            rv == sview(row@),
            rv.len() == row@.len(),
            merged@ == merged_text(rv, cols@, sep@),
            sview(newrow@) == merge_from(rv, cols@, m_pos as int, keep, merged@, i as int),
        decreases row@.len() - i,
    {
        let ghost b = sview(newrow@);
        if m_pos == i {
            newrow.push(merged.clone());
            assert(sview(newrow@) =~= b.push(merged@));
        }
        let ghost b2 = sview(newrow@);
        if keep || (cols.len() > 0 && !contains_index(cols, i)) {
            newrow.push(row[i].clone());
            assert(rv[i as int] == row@[i as int]@);
            assert(sview(newrow@) =~= b2.push(rv[i as int]));
        }
        i += 1;
    }
    if m_pos >= row.len() {
        let ghost b = sview(newrow@);
        newrow.push(merged);
        assert(sview(newrow@) =~= b.push(merged_text(rv, cols@, sep@)));
    }
    newrow
}

/// How the order command rearranges rows.
pub struct OrderSpec {
    /// The fields to keep (or to drop), in order.
    pub indices: Vec<usize>,
    pub is_exclude: bool,
    pub is_rev: bool,
    /// Column names, resolved on the first line of each file.
    pub names: Option<Vec<String>>,
}

/// What the options of the order command give, or the error: exactly one
/// of the field list, the excluded fields, the reversed fields and the
/// column names.
pub open spec fn spec_order_setup(
    fields: Option<Seq<char>>,
    exclf: Option<Seq<char>>,
    revf: Option<Seq<char>>,
    fnames: Option<Seq<char>>,
) -> Result<(Seq<usize>, bool, bool, Option<Seq<Seq<char>>>), Seq<char>> {
    let n = (if fields is Some { 1int } else { 0 }) + (if exclf is Some { 1int } else { 0 }) + (if revf
        is Some { 1int } else { 0 }) + (if fnames is Some { 1int } else { 0 });
    if n != 1 {
        Err("Need fields or fnames or rev_fields or exclf flags (but only one)"@)
    } else {
        let names = match fnames {
            Some(f) => Some(split_seq(f, ',')),
            None => None,
        };
        match fields {
            Some(f) => match spec_parse_indices(f) {
                Err(e) => Err(e),
                Ok(v) => Ok((v, false, false, names)),
            },
            None => match exclf {
                Some(x) => match spec_parse_indices(x) {
                    Err(e) => Err(e),
                    Ok(v) => Ok((v, true, false, names)),
                },
                None => match revf {
                    Some(r) => match spec_parse_indices(r) {
                        Err(e) => Err(e),
                        Ok(v) => Ok((v, false, true, names)),
                    },
                    None => Ok((seq![], false, false, names)),
                },
            },
        }
    }
}

/// Checks the options of the order command.
pub fn order_setup(fields: Option<&str>, exclf: Option<&str>, revf: Option<&str>, fnames: Option<&str>) -> (r:
    Result<OrderSpec, String>)
    ensures
        match spec_order_setup(
            match fields {
                Some(f) => Some(f@),
                None => None,
            },
            match exclf {
                Some(f) => Some(f@),
                None => None,
            },
            match revf {
                Some(f) => Some(f@),
                None => None,
            },
            match fnames {
                Some(f) => Some(f@),
                None => None,
            },
        ) {
            Ok((v, x, rv, names)) => r matches Ok(o) && o.indices@ == v && o.is_exclude == x && o.is_rev
                == rv && match names {
                Some(ns) => o.names matches Some(w) && sview(w@) == ns,
                None => o.names is None,
            },
            Err(e) => r matches Err(m) && m@ == e,
        },
{
    let mut n: u8 = 0;
    if fields.is_some() {
        n += 1;
    }
    if exclf.is_some() {
        n += 1;
    }
    if revf.is_some() {
        n += 1;
    }
    if fnames.is_some() {
        n += 1;
    }
    if n != 1 {
        return Err(lit("Need fields or fnames or rev_fields or exclf flags (but only one)"));
    }
    let names = match fnames {
        Some(f) => Some(split_str(f, ',')),
        None => None,
    };
    let (indices, is_exclude, is_rev) = match fields {
        Some(f) => match parse_indices(f) {
            Err(e) => return Err(e),
            Ok(v) => (v, false, false),
        },
        None => match exclf {
            Some(x) => match parse_indices(x) {
                Err(e) => return Err(e),
                Ok(v) => (v, true, false),
            },
            None => match revf {
                Some(rf) => match parse_indices(rf) {
                    Err(e) => return Err(e),
                    Ok(v) => (v, false, true),
                },
                None => (Vec::new(), false, false),
            },
        },
    };
    Ok(OrderSpec { indices, is_exclude, is_rev, names })
}

/// The last field of `row` equal to `name`, or -1.
pub open spec fn last_index_of(row: Seq<Seq<char>>, name: Seq<char>) -> int
    decreases row.len(),
{
    if row.len() == 0 {
        -1
    } else if row.last() == name {
        row.len() - 1
    } else {
        last_index_of(row.drop_last(), name)
    }
}

/// The field indices of the column names in a header row (the last of
/// equal columns), or the first unknown name.
pub open spec fn resolve(row: Seq<Seq<char>>, names: Seq<Seq<char>>) -> Result<Seq<usize>, Seq<char>>
    decreases names.len(),
{
    if names.len() == 0 {
        Ok(seq![])
    } else {
        match resolve(row, names.drop_last()) {
            Err(e) => Err(e),
            Ok(v) => {
                let p = last_index_of(row, names.last());
                if p < 0 {
                    Err("Unknown column name: "@ + names.last())
                } else {
                    Ok(v.push(p as usize))
                }
            },
        }
    }
}

proof fn lemma_resolve_err(row: Seq<Seq<char>>, ns: Seq<Seq<char>>, k: int)
    requires
        0 <= k <= ns.len(),
        resolve(row, ns.take(k)) is Err,
    ensures
        resolve(row, ns) == resolve(row, ns.take(k)),
    decreases ns.len() - k,
{
    if k == ns.len() {
        assert(ns.take(k) =~= ns);
    } else {
        assert(ns.take(k + 1).drop_last() =~= ns.take(k));
        lemma_resolve_err(row, ns, k + 1);
    }
}

/// Finds the column names in a header row.
pub fn resolve_names(row: &Vec<String>, names: &Vec<String>) -> (r: Result<Vec<usize>, String>)
    ensures
        match resolve(sview(row@), sview(names@)) {
            Ok(v) => r matches Ok(w) && w@ == v,
            Err(e) => r matches Err(m) && m@ == e,
        },
{
    let ghost rv = sview(row@);
    let ghost ns = sview(names@);
    let mut out: Vec<usize> = Vec::new();
    let mut k: usize = 0;
    assert(rv.len() == row@.len());
    while k < names.len()
        invariant
            k <= names@.len(),
            rv == sview(row@),
            rv.len() == row@.len(),
            ns == sview(names@),
            ns.len() == names@.len(),
            resolve(rv, ns.take(k as int)) == Ok::<Seq<usize>, Seq<char>>(out@),
        decreases names@.len() - k,
    {
        proof {
            assert(ns.take(k + 1).drop_last() =~= ns.take(k as int));
            assert(ns.take(k + 1).last() == names@[k as int]@);
        }
        let mut j: usize = row.len();
        let mut found: Option<usize> = None;
        assert(rv.take(row@.len() as int) =~= rv);
        while j > 0
            invariant
                j <= row@.len(),
                k < names@.len(),
                rv == sview(row@),
                rv.len() == row@.len(),
                found is None ==> last_index_of(rv, names@[k as int]@) == last_index_of(rv.take(j as int), names@[k as int]@),
                found matches Some(p) ==> last_index_of(rv, names@[k as int]@) == p && p < row@.len(),
            decreases j,
        {
            if found.is_none() {
                proof {
                    assert(rv.take(j as int).drop_last() =~= rv.take(j - 1));
                    assert(rv.take(j as int).last() == row@[j - 1]@);
                }
                if row[j - 1] == names[k] {
                    found = Some(j - 1);
                }
            }
            j -= 1;
        }
        proof {
            if found is None {
                assert(rv.take(0) =~= Seq::<Seq<char>>::empty());
            }
        }
        match found {
            None => {
                let mut m = lit("Unknown column name: ");
                push_str(&mut m, names[k].as_str());
                proof {
                    lemma_resolve_err(rv, ns, k + 1);
                }
                return Err(m);
            },
            Some(p) => out.push(p),
        }
        k += 1;
    }
    assert(ns.take(names.len() as int) =~= ns);
    Ok(out)
}

/// The row after the order command with the field order `order`: without
/// the listed fields when excluding; else the listed fields in turn
/// (counted from the end when reversing), with empty fields for those the
/// row lacks unless `nocreat`.
pub open spec fn spec_order_row(
    row: Seq<Seq<char>>,
    order: Seq<usize>,
    is_exclude: bool,
    is_rev: bool,
    nocreat: bool,
) -> Seq<Seq<char>> {
    if is_exclude {
        non_key_from(row, order, 0)
    } else {
        let r = if is_rev {
            crate::rowops::rev(row)
        } else {
            row
        };
        ordered(r, order, nocreat)
    }
}

/// The listed fields of a row in turn; missing ones empty unless
/// `nocreat`, which leaves them out.
pub open spec fn ordered(r: Seq<Seq<char>>, order: Seq<usize>, nocreat: bool) -> Seq<Seq<char>>
    decreases order.len(),
{
    if order.len() == 0 {
        seq![]
    } else {
        let prev = ordered(r, order.drop_last(), nocreat);
        let ri = order.last();
        if ri < r.len() {
            prev.push(r[ri as int])
        } else if !nocreat {
            prev.push(seq![])
        } else {
            prev
        }
    }
}

/// Rearranges the fields of a row (see [`spec_order_row`]).
pub fn order_row(order: &Vec<usize>, is_exclude: bool, is_rev: bool, nocreat: bool, row: &Vec<String>) -> (r: Vec<
    String,
>)
    ensures
        sview(r@) == spec_order_row(sview(row@), order@, is_exclude, is_rev, nocreat),
{
    if is_exclude {
        return crate::rowops::exclude_row(order, false, row);
    }
    let src = if is_rev {
        crate::rowops::reversed(row)
    } else {
        row.clone()
    };
    let ghost rv = sview(src@);
    assert(rv == (if is_rev {
        crate::rowops::rev(sview(row@))
    } else {
        sview(row@)
    }));
    let mut out: Vec<String> = Vec::new();
    let mut k: usize = 0;
    assert(rv.len() == src@.len());
    assert(sview(out@) =~= Seq::<Seq<char>>::empty());
    while k < order.len()
        invariant
            k <= order@.len(),
            rv == sview(src@),
            rv.len() == src@.len(),
            sview(out@) == ordered(rv, order@.take(k as int), nocreat),
        decreases order@.len() - k,
    {
        let ri = order[k];
        proof {
            assert(order@.take(k + 1).drop_last() =~= order@.take(k as int));
            assert(order@.take(k + 1).last() == ri);
        }
        let ghost b = sview(out@);
        if ri < src.len() {
            out.push(src[ri].clone());
            assert(rv[ri as int] == src@[ri as int]@);
            assert(sview(out@) =~= b.push(rv[ri as int]));
        } else if !nocreat {
            out.push(String::new());
            assert(sview(out@) =~= b.push(Seq::<char>::empty()));
        }
        k += 1;
    }
    assert(order@.take(order@.len() as int) =~= order@);
    out
}

/// Checks that the put command has exactly one of a value and an
/// environment variable.
pub fn put_check(has_val: bool, has_env: bool) -> (r: Result<(), String>)
    ensures
        has_val && has_env ==> (r matches Err(e) && e@ == "Cannot specify both -v and -e options"@),
        !has_val && !has_env ==> (r matches Err(e) && e@ == "Need one of -v or -e options"@),
        has_val != has_env ==> r is Ok,
{
    if has_val && has_env {
        return Err(lit("Cannot specify both -v and -e options"));
    }
    if !has_val && !has_env {
        return Err(lit("Need one of -v or -e options"));
    }
    Ok(())
}

/// The field position of the put command (1-based), or the error.
pub open spec fn spec_put_position(ps: Option<Seq<char>>) -> Result<Option<usize>, Seq<char>> {
    match ps {
        None => Ok(None),
        Some(p) => match spec_parse_i32(p) {
            None => Err("Position must be non-zero integer"@),
            Some(n) => if n - 1 < 0 {
                Err("Invalid position value: "@ + p)
            } else {
                Ok(Some((n - 1) as usize))
            },
        },
    }
}

/// Reads the field position of the put command.
pub fn put_position(ps: Option<&str>) -> (r: Result<Option<usize>, String>)
    requires
        ps matches Some(p) ==> spec_parse_i32(p@) != Some(i32::MIN),
    ensures
        match spec_put_position(
            match ps {
                Some(p) => Some(p@),
                None => None,
            },
        ) {
            Ok(v) => r == Ok::<Option<usize>, String>(v),
            Err(e) => r matches Err(m) && m@ == e,
        },
{
    match ps {
        None => Ok(None),
        Some(p) => match parse_i32(p) {
            None => Err(lit("Position must be non-zero integer")),
            Some(n) => {
                if n - 1 < 0 {
                    let mut m = lit("Invalid position value: ");
                    push_str(&mut m, p);
                    return Err(m);
                }
                Ok(Some((n - 1) as usize))
            },
        },
    }
}

/// The row with the value put in at position `p` (at the end when `None`
/// or past the row's end); `@COUNT` stands for the number of fields.
pub open spec fn spec_put_row(val: Seq<char>, p: Option<usize>, row: Seq<Seq<char>>) -> Seq<Seq<char>> {
    let v = if val == "@COUNT"@ {
        dec_string(row.len())
    } else {
        val
    };
    match p {
        Some(i) => if i < row.len() {
            row.insert(i as int, v)
        } else {
            row.push(v)
        },
        None => row.push(v),
    }
}

/// Puts a value into a row.
pub fn put_row(val: &str, p: Option<usize>, row: &Vec<String>) -> (r: Vec<String>)
    ensures
        sview(r@) == spec_put_row(val@, p, sview(row@)),
{
    let count = lit("@COUNT");
    let v = if lit(val) == count {
        usize_to_string(row.len())
    } else {
        lit(val)
    };
    assert(sview(row@).len() == row@.len());
    match p {
        Some(i) => crate::rowops::insert_at(row, i, v),
        None => crate::rowops::insert_at(row, row.len(), v),
    }
}

/// The state of writing master and detail rows: the current master
/// fields, and whether anything has been written.
pub struct MultiWriter {
    pub current: Vec<String>,
    pub haveout: bool,
}

impl MultiWriter {
    /// Nothing written yet.
    pub fn new() -> (w: Self)
        ensures
            w.current@.len() == 0,
            !w.haveout,
    {
        MultiWriter { current: Vec::new(), haveout: false }
    }

    /// The rows written for the next input row: when its master fields
    /// differ from the current ones, the separator row (if any, and not
    /// before the first master) and the new master fields; then its detail
    /// fields (the detail list, or all but the master fields).
    pub fn step(
        &mut self,
        m_fields: &Vec<usize>,
        d_fields: &Option<Vec<usize>>,
        rec_sep: &Option<String>,
        row: &Vec<String>,
    ) -> (out: Vec<Vec<String>>)
        ensures
            ({
                let next = pick_fields(sview(row@), m_fields@);
                let is_new = old(self).current@.len() == 0 || next != sview(old(self).current@);
                let detail = match d_fields {
                    Some(d) => pick_fields(sview(row@), d@),
                    None => non_key_from(sview(row@), m_fields@, 0),
                };
                let sep_rows: Seq<Seq<Seq<char>>> = match rec_sep {
                    Some(s) => if is_new && old(self).haveout {
                        seq![seq![s@]]
                    } else {
                        seq![]
                    },
                    None => seq![],
                };
                &&& final(self).haveout == (old(self).haveout || is_new)
                &&& sview(final(self).current@) == (if is_new {
                    next
                } else {
                    sview(old(self).current@)
                })
                &&& rows_view(out@) == sep_rows + (if is_new {
                    seq![next]
                } else {
                    seq![]
                }) + seq![detail]
            }),
    {
        let mut next: Vec<String> = Vec::new();
        crate::flatten::push_fields(&mut next, row, m_fields);
        assert(sview(next@) =~= pick_fields(sview(row@), m_fields@));
        let same = self.current.len() > 0 && rows_equal(&next, &self.current);
        let mut out: Vec<Vec<String>> = Vec::new();
        assert(rows_view(out@) =~= Seq::<Seq<Seq<char>>>::empty());
        if !same {
            if self.haveout {
                match rec_sep {
                    Some(s) => {
                        let mut sr: Vec<String> = Vec::new();
                        sr.push(s.clone());
                        let ghost o = out@;
                        out.push(sr);
                        proof {
                            lemma_rows_view_push(o, sr);
                            assert(sview(sr@) =~= seq![s@]);
                        }
                    },
                    None => {},
                }
            } else {
                self.haveout = true;
            }
            let c = next.clone();
            self.current = next;
            let ghost o = out@;
            out.push(c);
            proof {
                lemma_rows_view_push(o, c);
            }
        }
        let mut detail: Vec<String> = Vec::new();
        match d_fields {
            Some(d) => crate::flatten::push_fields(&mut detail, row, d),
            None => crate::flatten::push_non_key(&mut detail, row, m_fields),
        }
        let ghost o = out@;
        out.push(detail);
        proof {
            lemma_rows_view_push(o, detail);
        }
        out
    }

    /// The separator row written after the last master, if any.
    pub fn finish(&self, rec_sep: &Option<String>) -> (out: Vec<Vec<String>>)
        ensures
            rows_view(out@) == (match rec_sep {
                Some(s) => if self.haveout {
                    seq![seq![s@]]
                } else {
                    seq![]
                },
                None => seq![],
            }),
    {
        let mut out: Vec<Vec<String>> = Vec::new();
        assert(rows_view(out@) =~= Seq::<Seq<Seq<char>>>::empty());
        if self.haveout {
            match rec_sep {
                Some(s) => {
                    let mut sr: Vec<String> = Vec::new();
                    sr.push(s.clone());
                    out.push(sr);
                    proof {
                        lemma_rows_view_push(Seq::<Vec<String>>::empty(), sr);
                        assert(sview(sr@) =~= seq![s@]);
                    }
                },
                None => {},
            }
        }
        out
    }
}

/// Two rows hold the same fields.
pub fn rows_equal(a: &Vec<String>, b: &Vec<String>) -> (r: bool)
    ensures
        r == (sview(a@) == sview(b@)),
{
    if a.len() != b.len() {
        assert(sview(a@).len() != sview(b@).len());
        return false;
    }
    let mut i: usize = 0;
    while i < a.len()
        invariant
            i <= a@.len() == b@.len(),
            forall|j: int| 0 <= j < i ==> a@[j]@ == b@[j]@,
        decreases a@.len() - i,
    {
        if a[i] != b[i] {
            assert(sview(a@)[i as int] != sview(b@)[i as int]);
            return false;
        }
        i += 1;
    }
    assert(sview(a@) =~= sview(b@));
    true
}

/// What the block command does with rows: keep those in blocks, remove
/// them, or mark each row as in a block or not.
pub enum BlockAction {
    Keep,
    Remove,
    Mark(String, String),
}

/// The block command's next state and whether the row is in a block: out
/// of a block, a row where the begin condition holds opens one; in a
/// block, a row where the end condition holds closes it. The opening and
/// closing rows count as in the block unless `exclusive`.
pub fn block_step(in_block: bool, exclusive: bool, hit: bool) -> (r: (bool, bool))
    ensures
        r == (if !in_block {
            if hit {
                (true, !exclusive)
            } else {
                (false, false)
            }
        } else if hit {
            (false, !exclusive)
        } else {
            (true, true)
        }),
{
    if !in_block {
        if hit {
            (true, !exclusive)
        } else {
            (false, false)
        }
    } else if hit {
        (false, !exclusive)
    } else {
        (true, true)
    }
}

/// The row that the block command writes, if any.
pub fn block_output(action: &BlockAction, in_block: bool, row: &Vec<String>) -> (r: Option<Vec<String>>)
    ensures
        match action {
            BlockAction::Mark(bm, nm) => r matches Some(o) && sview(o@) == seq![
                if in_block {
                    bm@
                } else {
                    nm@
                },
            ] + sview(row@),
            BlockAction::Keep => if in_block {
                r matches Some(o) && sview(o@) == sview(row@)
            } else {
                r is None
            },
            BlockAction::Remove => if !in_block {
                r matches Some(o) && sview(o@) == sview(row@)
            } else {
                r is None
            },
        },
{
    match action {
        BlockAction::Mark(bm, nm) => {
            let first = if in_block {
                bm.clone()
            } else {
                nm.clone()
            };
            let mut o: Vec<String> = Vec::new();
            o.push(first);
            let mut k: usize = 0;
            while k < row.len()
                invariant
                    k <= row@.len(),
                    sview(o@) == seq![first@] + sview(row@).take(k as int),
                decreases row@.len() - k,
            {
                let ghost b = o@;
                o.push(row[k].clone());
                assert(sview(o@) =~= seq![first@] + sview(row@).take(k + 1)) by {
                    assert(sview(b).len() == b.len());
                    assert(sview(row@)[k as int] == row@[k as int]@);
                    assert(sview(row@).take(k + 1) =~= sview(row@).take(k as int).push(row@[k as int]@));
                    assert(sview(o@) =~= sview(b).push(row@[k as int]@));
                }
                k += 1;
            }
            assert(sview(row@).take(row@.len() as int) =~= sview(row@));
            Some(o)
        },
        BlockAction::Keep => {
            if in_block {
                Some(row.clone())
            } else {
                None
            }
        },
        BlockAction::Remove => {
            if !in_block {
                Some(row.clone())
            } else {
                None
            }
        },
    }
}

} // verus!
