//! Splitting one field into several (at fixed positions, at separator
//! characters or at letter/digit transitions), and removing newlines from
//! fields.
use vstd::prelude::*;
use crate::escape::{expand_rmnew_sep, spec_expand_rmnew_sep, unescape_str, unescaped};
use crate::num::{spec_parse_i32, parse_i32};
use crate::rows::{col_selected, cols_view, is_selected};
use crate::split::{
    spec_split_char_alib, spec_split_str_alib, split_char_alib, split_str_alib, trans_parts, trans_split,
};
use crate::text::{chars_of, lit, push_chars, push_str, split_seq, split_str, string_push, sview};

verus! {

/// The rmnew command's separator: none with `-x`; else the given one,
/// expanded, or nothing.
pub open spec fn spec_rmnew_setup(sep: Option<Seq<char>>, exclude_after: bool) -> Result<Seq<char>, Seq<char>> {
    if exclude_after && sep is Some {
        Err("Flags -x and -s are mutually exclusive"@)
    } else {
        match sep {
            Some(s) => match spec_expand_rmnew_sep(s) {
                Some(t) => Ok(t),
                None => Err("Invalid escape at end of string"@),
            },
            None => Ok(seq![]),
        }
    }
}

/// Checks the options of the rmnew command.
pub fn rmnew_setup(sep: Option<&str>, exclude_after: bool) -> (r: Result<String, String>)
    ensures
        match spec_rmnew_setup(
            match sep {
                Some(s) => Some(s@),
                None => None,
            },
            exclude_after,
        ) {
            Ok(t) => r matches Ok(x) && x@ == t,
            Err(e) => r matches Err(m) && m@ == e,
        },
{
    if exclude_after && sep.is_some() {
        return Err(lit("Flags -x and -s are mutually exclusive"));
    }
    match sep {
        Some(s) => expand_rmnew_sep(s),
        None => Ok(String::new()),
    }
}

/// A field without newlines: each newline becomes the separator, or, with
/// `exclude_after`, the field ends at its first newline. A field without
/// newlines stays as it is.
pub open spec fn rmnew_text(v: Seq<char>, sep: Seq<char>, exclude_after: bool) -> Seq<char>
    decreases v.len(),
{
    if v.len() == 0 {
        seq![]
    } else if v[0] == '\n' {
        if exclude_after {
            seq![]
        } else {
            sep + rmnew_text(v.drop_first(), sep, exclude_after)
        }
    } else {
        seq![v[0]] + rmnew_text(v.drop_first(), sep, exclude_after)
    }
}

/// The field after the rmnew command.
pub fn rmnew_field(v: &str, sep: &str, exclude_after: bool) -> (r: String)
    ensures
        r@ == (if v@.contains('\n') {
            rmnew_text(v@, sep@, exclude_after)
        } else {
            v@
        }),
{
    let cs = chars_of(v);
    if !crate::text::has_char(&cs, '\n') {
        return lit(v);
    }
    let mut s = String::new();
    let mut i: usize = 0;
    assert(cs@.skip(0) =~= cs@);
    while i < cs.len()
        invariant
            i <= cs@.len(),
            cs@ == v@,
            s@ + rmnew_text(cs@.skip(i as int), sep@, exclude_after) == rmnew_text(v@, sep@, exclude_after),
        decreases cs@.len() - i,
    {
        let c = cs[i];
        proof {
            assert(cs@.skip(i as int)[0] == c);
            assert(cs@.skip(i as int).drop_first() =~= cs@.skip(i + 1));
        }
        if c == '\n' {
            if exclude_after {
                assert(s@ + Seq::<char>::empty() =~= s@);
                return s;
            }
            let ghost s0 = s@;
            push_str(&mut s, sep);
            assert(s0 + (sep@ + rmnew_text(cs@.skip(i + 1), sep@, exclude_after)) =~= s@ + rmnew_text(
                cs@.skip(i + 1),
                sep@,
                exclude_after,
            ));
        } else {
            let ghost s0 = s@;
            string_push(&mut s, c);
            assert(s0 + (seq![c] + rmnew_text(cs@.skip(i + 1), sep@, exclude_after)) =~= s@ + rmnew_text(
                cs@.skip(i + 1),
                sep@,
                exclude_after,
            ));
        }
        i += 1;
    }
    assert(cs@.skip(cs@.len() as int) =~= Seq::<char>::empty());
    assert(s@ + Seq::<char>::empty() =~= s@);
    s
}

/// Removes newlines from the selected fields of a row.
pub fn rmnew_row(cols: &Option<Vec<usize>>, sep: &str, exclude_after: bool, row: &Vec<String>) -> (r: Vec<String>)
    ensures
        r@.len() == row@.len(),
        forall|i: int|
            0 <= i < row@.len() ==> (#[trigger] r@[i])@ == (if col_selected(cols_view(cols), i)
                && row@[i]@.contains('\n') {
                rmnew_text(row@[i]@, sep@, exclude_after)
            } else {
                row@[i]@
            }),
{
    let mut out: Vec<String> = Vec::new();
    let mut i: usize = 0;
    while i < row.len()
        invariant
            i <= row@.len(),
            out@.len() == i,
            forall|j: int|
                0 <= j < i ==> (#[trigger] out@[j])@ == (if col_selected(cols_view(cols), j)
                    && row@[j]@.contains('\n') {
                    rmnew_text(row@[j]@, sep@, exclude_after)
                } else {
                    row@[j]@
                }),
        decreases row@.len() - i,
    {
        if is_selected(cols, i) {
            out.push(rmnew_field(row[i].as_str(), sep, exclude_after));
        } else {
            out.push(row[i].clone());
        }
        i += 1;
    }
    out
}

/// The field index of the split commands (1-based), or the error.
pub open spec fn spec_split_field(f: Seq<char>) -> Result<usize, Seq<char>> {
    match spec_parse_i32(f) {
        None => Err("Field specified by -f must be integer"@),
        Some(n) => if n - 1 < 0 {
            Err("Invalid field index: "@ + f)
        } else {
            Ok((n - 1) as usize)
        },
    }
}

/// Reads the field index of the split commands.
pub fn split_field(f: &str) -> (r: Result<usize, String>)
    requires
        spec_parse_i32(f@) != Some(i32::MIN),
    ensures
        match spec_split_field(f@) {
            Ok(v) => r == Ok::<usize, String>(v),
            Err(e) => r matches Err(m) && m@ == e,
        },
{
    match parse_i32(f) {
        None => Err(lit("Field specified by -f must be integer")),
        Some(n) => {
            if n - 1 < 0 {
                let mut m = lit("Invalid field index: ");
                push_str(&mut m, f);
                return Err(m);
            }
            Ok((n - 1) as usize)
        },
    }
}

/// A position `pos:len` of the fixed split (both positive), or the error.
pub open spec fn split_pos_item(item: Seq<char>) -> Result<(usize, usize), Seq<char>> {
    let parts = split_seq(item, ':');
    if parts.len() != 2 {
        Err("Invalid position "@ + item)
    } else {
        match (spec_parse_i32(parts[0]), spec_parse_i32(parts[1])) {
            (Some(p), Some(l)) => if p <= 0 || l <= 0 {
                Err("Invalid position "@ + item)
            } else {
                Ok(((p - 1) as usize, l as usize))
            },
            _ => Err("Invalid position "@ + item),
        }
    }
}

/// The positions of a list, or the first error.
pub open spec fn split_pos_items(items: Seq<Seq<char>>) -> Result<Seq<(usize, usize)>, Seq<char>>
    decreases items.len(),
{
    if items.len() == 0 {
        Ok(seq![])
    } else {
        match split_pos_items(items.drop_last()) {
            Err(e) => Err(e),
            Ok(v) => match split_pos_item(items.last()) {
                Err(e) => Err(e),
                Ok(p) => Ok(v.push(p)),
            },
        }
    }
}

proof fn lemma_pos_err(ps: Seq<Seq<char>>, k: int)
    requires
        0 <= k <= ps.len(),
        split_pos_items(ps.take(k)) is Err,
    ensures
        split_pos_items(ps) == split_pos_items(ps.take(k)),
    decreases ps.len() - k,
{
    if k == ps.len() {
        assert(ps.take(k) =~= ps);
    } else {
        assert(ps.take(k + 1).drop_last() =~= ps.take(k));
        lemma_pos_err(ps, k + 1);
    }
}

/// Reads the positions of the fixed split, such as `1:3,4:2`.
pub fn split_positions(list: &str) -> (r: Result<Vec<(usize, usize)>, String>)
    ensures
        match split_pos_items(split_seq(list@, ',')) {
            Ok(v) => r matches Ok(w) && w@ == v,
            Err(e) => r matches Err(m) && m@ == e,
        },
{
    let items = split_str(list, ',');
    let ghost ps = sview(items@);
    let mut v: Vec<(usize, usize)> = Vec::new();
    let mut i: usize = 0;
    while i < items.len()
        invariant
            i <= items@.len(),
            ps == sview(items@),
            ps == split_seq(list@, ','),
            ps.len() == items@.len(),
            split_pos_items(ps.take(i as int)) == Ok::<Seq<(usize, usize)>, Seq<char>>(v@),
        decreases items@.len() - i,
    {
        proof {
            assert(ps.take(i + 1).drop_last() =~= ps.take(i as int));
            assert(ps.take(i + 1).last() == items@[i as int]@);
        }
        let item = items[i].as_str();
        let parts = split_str(item, ':');
        assert(sview(parts@).len() == parts@.len());
        let mut ok = false;
        let mut pv: (usize, usize) = (0, 0);
        if parts.len() == 2 {
            assert(sview(parts@)[0] == parts@[0]@);
            assert(sview(parts@)[1] == parts@[1]@);
            match (parse_i32(parts[0].as_str()), parse_i32(parts[1].as_str())) {
                (Some(p), Some(l)) => {
                    if p > 0 && l > 0 {
                        ok = true;
                        pv = ((p - 1) as usize, l as usize);
                    }
                },
                _ => {},
            }
        }
        if !ok {
            let mut m = lit("Invalid position ");
            push_str(&mut m, item);
            proof {
                assert(split_pos_items(ps.take(i + 1)) == Err::<Seq<(usize, usize)>, Seq<char>>(m@));
                lemma_pos_err(ps, i + 1);
            }
            return Err(m);
        }
        v.push(pv);
        i += 1;
    }
    assert(ps.take(items.len() as int) =~= ps);
    Ok(v)
}

/// The piece of `t` at `start` (0-based) of up to `len` characters; empty
/// past the end.
pub open spec fn piece_at(t: Seq<char>, start: int, len: int) -> Seq<char> {
    if start >= t.len() {
        seq![]
    } else {
        t.subrange(start, if t.len() < start + len {
            t.len() as int
        } else {
            start + len
        })
    }
}

/// The row with field `idx` replaced by `parts` (followed by the field
/// itself when `keep`); a row without that field stays as it is.
pub open spec fn spec_insert_split(row: Seq<Seq<char>>, idx: int, parts: Seq<Seq<char>>, keep: bool) -> Seq<Seq<char>> {
    if 0 <= idx < row.len() {
        row.take(idx) + parts + (if keep {
            seq![row[idx]]
        } else {
            seq![]
        }) + row.skip(idx + 1)
    } else {
        row
    }
}

/// Replaces field `idx` of a row with the pieces it was split into.
pub fn insert_split(row: &Vec<String>, idx: usize, parts: &Vec<String>, keep: bool) -> (r: Vec<String>)
    ensures
        sview(r@) == spec_insert_split(sview(row@), idx as int, sview(parts@), keep),
{
    let ghost rv = sview(row@);
    let mut out: Vec<String> = Vec::new();
    let mut j: usize = 0;
    assert(rv.len() == row@.len());
    assert(sview(parts@).len() == parts@.len());
    while j < row.len()
        invariant
            j <= row@.len(),
            rv == sview(row@),
            rv.len() == row@.len(),
            sview(parts@).len() == parts@.len(),
            sview(out@) == spec_insert_split(rv.take(j as int), idx as int, sview(parts@), keep),
        decreases row@.len() - j,
    {
        let ghost b = sview(out@);
        if j == idx {
            let mut k: usize = 0;
            while k < parts.len()
                invariant
                    k <= parts@.len(),
                    sview(out@) == b + sview(parts@).take(k as int),
                decreases parts@.len() - k,
            {
                let ghost bb = sview(out@);
                out.push(parts[k].clone());
                assert(sview(out@) =~= b + sview(parts@).take(k + 1)) by {
                    assert(sview(parts@)[k as int] == parts@[k as int]@);
                    assert(sview(out@) =~= bb.push(parts@[k as int]@));
                }
                k += 1;
            }
            assert(sview(parts@).take(parts@.len() as int) =~= sview(parts@));
            if keep {
                let ghost bb = sview(out@);
                out.push(row[j].clone());
                assert(sview(out@) =~= bb.push(rv[j as int]));
            }
            proof {
                assert(b =~= rv.take(j as int));
                assert(sview(out@) =~= spec_insert_split(rv.take(j + 1), idx as int, sview(parts@), keep));
            }
        } else {
            out.push(row[j].clone());
            proof {
                assert(sview(out@) =~= b.push(rv[j as int]));
                if (j as int) < (idx as int) {
                    assert(sview(out@) =~= rv.take(j + 1));
                } else {
                    assert(spec_insert_split(rv.take(j + 1), idx as int, sview(parts@), keep) =~= spec_insert_split(
                        rv.take(j as int),
                        idx as int,
                        sview(parts@),
                        keep,
                    ).push(rv[j as int]));
                }
            }
        }
        j += 1;
    }
    assert(rv.take(row@.len() as int) =~= rv);
    out
}

/// The field that the split commands split: field `idx`, or empty.
pub open spec fn split_target(row: Seq<Seq<char>>, idx: int) -> Seq<char> {
    if 0 <= idx < row.len() {
        row[idx]
    } else {
        seq![]
    }
}

/// The pieces of the fixed split.
pub open spec fn fixed_pieces(t: Seq<char>, positions: Seq<(usize, usize)>) -> Seq<Seq<char>> {
    positions.map_values(|p: (usize, usize)| piece_at(t, p.0 as int, p.1 as int))
}

/// Splits field `idx` of a row at fixed positions.
pub fn split_fixed_row(idx: usize, positions: &Vec<(usize, usize)>, keep: bool, row: &Vec<String>) -> (r: Vec<String>)
    ensures
        sview(r@) == spec_insert_split(
            sview(row@),
            idx as int,
            fixed_pieces(split_target(sview(row@), idx as int), positions@),
            keep,
        ),
{
    let empty = String::new();
    let target = if idx < row.len() {
        &row[idx]
    } else {
        &empty
    };
    assert(sview(row@).len() == row@.len());
    assert(target@ == split_target(sview(row@), idx as int));
    let cs = chars_of(target.as_str());
    let mut parts: Vec<String> = Vec::new();
    let mut k: usize = 0;
    while k < positions.len()
        invariant
            k <= positions@.len(),
            cs@ == target@,
            parts@.len() == k,
            forall|q: int|
                0 <= q < k ==> (#[trigger] parts@[q])@ == piece_at(cs@, positions@[q].0 as int, positions@[q].1 as int),
        decreases positions@.len() - k,
    {
        let (start, len) = positions[k];
        if start >= cs.len() {
            parts.push(String::new());
        } else {
            let end = if len > cs.len() - start {
                cs.len()
            } else {
                start + len
            };
            let mut p = String::new();
            push_chars(&mut p, &cs, start, end);
            parts.push(p);
        }
        k += 1;
    }
    assert(sview(parts@) =~= fixed_pieces(cs@, positions@));
    insert_split(row, idx, &parts, keep)
}

/// The separator of the character split: the given characters (a space by
/// default) with escapes expanded; none for a transition split.
pub open spec fn spec_split_char_setup(chars: Option<Seq<char>>, tan: bool, tna: bool) -> Result<Seq<char>, Seq<char>> {
    if tan && tna {
        Err("Only one of -tan or -tna allowed"@)
    } else if tan || tna {
        if chars is Some {
            Err("Cannot specify both character and transition"@)
        } else {
            Ok(seq![])
        }
    } else {
        let sc = match chars {
            Some(c) => c,
            None => seq![' '],
        };
        if sc.len() == 0 {
            Err("Need characters specified by -c"@)
        } else {
            Ok(unescaped(sc))
        }
    }
}

/// Checks the options of the character split.
pub fn split_char_setup(chars: Option<&str>, tan: bool, tna: bool) -> (r: Result<String, String>)
    ensures
        match spec_split_char_setup(
            match chars {
                Some(c) => Some(c@),
                None => None,
            },
            tan,
            tna,
        ) {
            Ok(t) => r matches Ok(x) && x@ == t,
            Err(e) => r matches Err(m) && m@ == e,
        },
{
    if tan && tna {
        return Err(lit("Only one of -tan or -tna allowed"));
    }
    if tan || tna {
        if chars.is_some() {
            return Err(lit("Cannot specify both character and transition"));
        }
        return Ok(String::new());
    }
    let sc = match chars {
        Some(c) => lit(c),
        None => {
            let mut t = String::new();
            string_push(&mut t, ' ');
            assert(t@ =~= seq![' ']);
            t
        },
    };
    if sc.as_str().is_empty() {
        return Err(lit("Need characters specified by -c"));
    }
    Ok(unescape_str(sc.as_str()))
}

/// The pieces of the character split: at transitions, at a one-byte
/// separator (pieces trimmed), or at a longer separator.
pub open spec fn char_pieces(t: Seq<char>, sep: Seq<char>, trans: bool, tan: bool) -> Seq<Seq<char>> {
    if trans {
        trans_parts(t, tan)
    } else if vstd::utf8::encode_utf8(sep).len() == 1 {
        spec_split_char_alib(t, sep[0])
    } else {
        spec_split_str_alib(t, sep)
    }
}

/// Splits field `idx` of a row at the separator or at a transition.
pub fn split_char_row(idx: usize, sep: &str, trans: bool, tan: bool, keep: bool, row: &Vec<String>) -> (r: Vec<
    String,
>)
    requires
        !trans ==> sep@.len() > 0,
    ensures
        sview(r@) == spec_insert_split(
            sview(row@),
            idx as int,
            char_pieces(split_target(sview(row@), idx as int), sep@, trans, tan),
            keep,
        ),
{
    let empty = String::new();
    let target = if idx < row.len() {
        &row[idx]
    } else {
        &empty
    };
    assert(sview(row@).len() == row@.len());
    assert(target@ == split_target(sview(row@), idx as int));
    let parts = if trans {
        trans_split(target.as_str(), tan)
    } else if sep.as_bytes().len() == 1 {
        let sc = chars_of(sep);
        split_char_alib(target.as_str(), sc[0])
    } else {
        split_str_alib(target.as_str(), sep)
    };
    insert_split(row, idx, &parts, keep)
}

} // verus!
