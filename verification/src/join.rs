//! Joining rows of two inputs on key fields, and merging sorted inputs.
use vstd::prelude::*;
use vstd::multiset::Multiset;
use crate::num::{spec_parse_usize, parse_usize};
use crate::rows::{contains_index, rows_view, lemma_rows_view_push};
use crate::text::{sview, split_seq, split_str, lit, push_str, to_upper, upper_text, string_push};

verus! {

/// A join field pair `left:right` (1-based), or the error.
pub open spec fn join_item(spec: Seq<char>) -> Result<(usize, usize), Seq<char>> {
    let parts = split_seq(spec, ':');
    if parts.len() != 2 {
        Err("Invalid join specification: "@ + spec)
    } else {
        match spec_parse_usize(parts[0]) {
            None => Err("Invalid column: "@ + parts[0]),
            Some(c1) => match spec_parse_usize(parts[1]) {
                None => Err("Invalid column: "@ + parts[1]),
                Some(c2) => if c1 < 1 || c2 < 1 {
                    Err("Invalid join specification: "@ + spec)
                } else {
                    Ok(((c1 - 1) as usize, (c2 - 1) as usize))
                },
            },
        }
    }
}

/// The pairs of a list of join specifications, or the first error.
pub open spec fn join_items(items: Seq<Seq<char>>) -> Result<Seq<(usize, usize)>, Seq<char>>
    decreases items.len(),
{
    if items.len() == 0 {
        Ok(seq![])
    } else {
        match join_items(items.drop_last()) {
            Err(e) => Err(e),
            Ok(v) => match join_item(items.last()) {
                Err(e) => Err(e),
                Ok(p) => Ok(v.push(p)),
            },
        }
    }
}

/// A list of join specifications is read exactly when each one is; the
/// pairs are then the items' pairs in order, and otherwise the error is
/// that of the first item that fails.
pub proof fn lemma_join_items(items: Seq<Seq<char>>)
    ensures
        join_items(items) is Ok <==> (forall|i: int| 0 <= i < items.len() ==> join_item(#[trigger] items[i]) is Ok),
        join_items(items) is Ok ==> join_items(items) == Ok::<Seq<(usize, usize)>, Seq<char>>(
            items.map_values(|p: Seq<char>| join_item(p)->Ok_0),
        ),
        join_items(items) is Err ==> exists|i: int|
            0 <= i < items.len() && join_item(#[trigger] items[i]) is Err && (forall|j: int|
                0 <= j < i ==> join_item(#[trigger] items[j]) is Ok) && join_items(items)
                == Err::<Seq<(usize, usize)>, Seq<char>>(join_item(items[i])->Err_0),
    decreases items.len(),
{
    if items.len() > 0 {
        let q = items.drop_last();
        lemma_join_items(q);
        let f = |p: Seq<char>| join_item(p)->Ok_0;
        assert(items.map_values(f) =~= q.map_values(f).push(f(items.last())));
        assert forall|i: int| 0 <= i < q.len() implies q[i] == items[i] by {}
        if join_items(q) is Err {
            let i = choose|i: int|
                0 <= i < q.len() && join_item(#[trigger] q[i]) is Err && (forall|j: int|
                    0 <= j < i ==> join_item(#[trigger] q[j]) is Ok) && join_items(q)
                    == Err::<Seq<(usize, usize)>, Seq<char>>(join_item(q[i])->Err_0);
            assert(items[i] == q[i]);
            assert forall|j: int| 0 <= j < i implies join_item(#[trigger] items[j]) is Ok by {
                assert(items[j] == q[j]);
            }
        } else if join_item(items.last()) is Err {
            let i = items.len() - 1;
            assert(items[i] == items.last());
            assert forall|j: int| 0 <= j < i implies join_item(#[trigger] items[j]) is Ok by {
                assert(items[j] == q[j]);
            }
        } else {
            assert forall|i: int| 0 <= i < items.len() implies join_item(#[trigger] items[i]) is Ok by {
                if i < q.len() {
                    assert(items[i] == q[i]);
                }
            }
        }
    } else {
        assert(items.map_values(|p: Seq<char>| join_item(p)->Ok_0) =~= Seq::<(usize, usize)>::empty());
    }
}

/// A join whose field list holds an item that cannot be read is refused,
/// whatever the flags and the number of inputs.
pub proof fn lemma_join_bad_item(fields: Seq<char>, oj: bool, inv: bool, n_paths: nat, i: int)
    requires
        0 <= i < split_seq(fields, ',').len(),
        join_item(split_seq(fields, ',')[i]) is Err,
    ensures
        spec_join_setup(fields, oj, inv, n_paths) is Err,
{
    lemma_join_items(split_seq(fields, ','));
}

proof fn lemma_join_err_prefix(ps: Seq<Seq<char>>, k: int)
    requires
        0 <= k <= ps.len(),
        join_items(ps.take(k)) is Err,
    ensures
        join_items(ps) == join_items(ps.take(k)),
    decreases ps.len() - k,
{
    if k == ps.len() {
        assert(ps.take(k) =~= ps);
    } else {
        assert(ps.take(k + 1).drop_last() =~= ps.take(k));
        lemma_join_err_prefix(ps, k + 1);
    }
}

/// What the options of a join give: the 0-based field pairs (left input,
/// right input), or the error.
pub open spec fn spec_join_setup(fields: Seq<char>, oj: bool, inv: bool, n_paths: nat) -> Result<
    Seq<(usize, usize)>,
    Seq<char>,
> {
    if oj && inv {
        Err("Cannot have both outer join and invert flags"@)
    } else {
        match join_items(split_seq(fields, ',')) {
            Err(e) => Err(e),
            Ok(v) => if n_paths < 2 {
                Err("Need at least two input streams"@)
            } else {
                Ok(v)
            },
        }
    }
}

fn join_one(spec: &str) -> (r: Result<(usize, usize), String>)
    ensures
        match join_item(spec@) {
            Ok(p) => r == Ok::<(usize, usize), String>(p),
            Err(e) => r matches Err(m) && m@ == e,
        },
{
    let parts = split_str(spec, ':');
    assert(sview(parts@).len() == parts@.len());
    if parts.len() != 2 {
        let mut m = lit("Invalid join specification: ");
        push_str(&mut m, spec);
        return Err(m);
    }
    assert(sview(parts@)[0] == parts@[0]@);
    assert(sview(parts@)[1] == parts@[1]@);
    let c1 = match parse_usize(parts[0].as_str()) {
        None => {
            let mut m = lit("Invalid column: ");
            push_str(&mut m, parts[0].as_str());
            return Err(m);
        },
        Some(c) => c,
    };
    let c2 = match parse_usize(parts[1].as_str()) {
        None => {
            let mut m = lit("Invalid column: ");
            push_str(&mut m, parts[1].as_str());
            return Err(m);
        },
        Some(c) => c,
    };
    if c1 < 1 || c2 < 1 {
        let mut m = lit("Invalid join specification: ");
        push_str(&mut m, spec);
        return Err(m);
    }
    Ok((c1 - 1, c2 - 1))
}

/// Checks the options of a join: not both outer join and invert, a list
/// of `left:right` 1-based field pairs, and at least two inputs.
pub fn join_setup(fields: &str, oj: bool, inv: bool, n_paths: usize) -> (r: Result<Vec<(usize, usize)>, String>)
    ensures
        match spec_join_setup(fields@, oj, inv, n_paths as nat) {
            Ok(v) => r matches Ok(w) && w@ == v,
            Err(e) => r matches Err(m) && m@ == e,
        },
{
    if oj && inv {
        return Err(lit("Cannot have both outer join and invert flags"));
    }
    let items = split_str(fields, ',');
    let ghost ps = sview(items@);
    let mut specs: Vec<(usize, usize)> = Vec::new();
    let mut i: usize = 0;
    while i < items.len()
        invariant
            i <= items@.len(),
            ps == sview(items@),
            ps == split_seq(fields@, ','),
            ps.len() == items@.len(),
            !(oj && inv),
            join_items(ps.take(i as int)) == Ok::<Seq<(usize, usize)>, Seq<char>>(specs@),
        decreases items@.len() - i,
    {
        proof {
            assert(ps.take(i + 1).drop_last() =~= ps.take(i as int));
            assert(ps.take(i + 1).last() == items@[i as int]@);
        }
        match join_one(items[i].as_str()) {
            Ok(p) => specs.push(p),
            Err(m) => {
                proof {
                    assert(join_items(ps.take(i + 1)) == Err::<Seq<(usize, usize)>, Seq<char>>(m@));
                    lemma_join_err_prefix(ps, i + 1);
                }
                return Err(m);
            },
        }
        i += 1;
    }
    assert(ps.take(items.len() as int) =~= ps);
    if n_paths < 2 {
        return Err(lit("Need at least two input streams"));
    }
    Ok(specs)
}

/// The join key of a row: each key field (upper-cased when `ic`), or
/// nothing past the row's end, followed by a NUL character.
pub open spec fn join_key(row: Seq<Seq<char>>, cols: Seq<usize>, ic: bool) -> Seq<char>
    decreases cols.len(),
{
    if cols.len() == 0 {
        seq![]
    } else {
        let c = cols.last();
        let v = if c < row.len() {
            if ic {
                upper_text(row[c as int])
            } else {
                row[c as int]
            }
        } else {
            seq![]
        };
        join_key(row, cols.drop_last(), ic) + v + seq!['\0']
    }
}

/// Builds the join key of a row.
pub fn make_join_key(row: &Vec<String>, indices: &Vec<usize>, ignore_case: bool) -> (key: String)
    ensures
        key@ == join_key(sview(row@), indices@, ignore_case),
{
    let mut key = String::new();
    let mut k: usize = 0;
    assert(sview(row@).len() == row@.len());
    while k < indices.len()
        invariant
            k <= indices@.len(),
            sview(row@).len() == row@.len(),
            key@ == join_key(sview(row@), indices@.take(k as int), ignore_case),
        decreases indices@.len() - k,
    {
        let col = indices[k];
        proof {
            assert(indices@.take(k + 1).drop_last() =~= indices@.take(k as int));
            assert(indices@.take(k + 1).last() == col);
        }
        if col < row.len() {
            assert(sview(row@)[col as int] == row@[col as int]@);
            if ignore_case {
                let u = to_upper(row[col].as_str());
                push_str(&mut key, u.as_str());
            } else {
                push_str(&mut key, row[col].as_str());
            }
        }
        string_push(&mut key, '\0');
        k += 1;
    }
    assert(indices@.take(indices.len() as int) =~= indices@);
    key
}

/// The fields of a right-hand row that a join adds: those not in a key
/// column, or all when `keep`.
pub open spec fn join_part(row: Seq<Seq<char>>, cols: Seq<usize>, keep: bool) -> Seq<Seq<char>>
    decreases row.len(),
{
    if row.len() == 0 {
        seq![]
    } else {
        let i = (row.len() - 1) as usize;
        if !cols.contains(i) || keep {
            join_part(row.drop_last(), cols, keep).push(row.last())
        } else {
            join_part(row.drop_last(), cols, keep)
        }
    }
}

/// The added fields of the right-hand rows whose key is `key`, in order.
pub open spec fn join_matches(
    rhs: Seq<Seq<Seq<char>>>,
    cols: Seq<usize>,
    ic: bool,
    keep: bool,
    key: Seq<char>,
) -> Seq<Seq<Seq<char>>>
    decreases rhs.len(),
{
    if rhs.len() == 0 {
        seq![]
    } else {
        let prev = join_matches(rhs.drop_last(), cols, ic, keep, key);
        if join_key(rhs.last(), cols, ic) == key {
            prev.push(join_part(rhs.last(), cols, keep))
        } else {
            prev
        }
    }
}

/// What a join writes for one left-hand row: the row with each match
/// appended (nothing when inverting); without a match, the row itself for
/// an outer or inverted join.
pub open spec fn join_lines(
    lrow: Seq<Seq<char>>,
    ms: Seq<Seq<Seq<char>>>,
    oj: bool,
    inv: bool,
) -> Seq<Seq<Seq<char>>> {
    if ms.len() > 0 {
        if inv {
            seq![]
        } else {
            ms.map_values(|m: Seq<Seq<char>>| lrow + m)
        }
    } else if oj || inv {
        seq![lrow]
    } else {
        seq![]
    }
}

/// The left-hand columns of the field pairs.
pub open spec fn left_cols(specs: Seq<(usize, usize)>) -> Seq<usize> {
    specs.map_values(|p: (usize, usize)| p.0)
}

/// The right-hand columns of the field pairs.
pub open spec fn right_cols(specs: Seq<(usize, usize)>) -> Seq<usize> {
    specs.map_values(|p: (usize, usize)| p.1)
}

/// The rows a join writes for the left-hand rows `lhs`.
pub open spec fn spec_join(
    lhs: Seq<Seq<Seq<char>>>,
    rhs: Seq<Seq<Seq<char>>>,
    specs: Seq<(usize, usize)>,
    oj: bool,
    inv: bool,
    ic: bool,
    keep: bool,
) -> Seq<Seq<Seq<char>>>
    decreases lhs.len(),
{
    if lhs.len() == 0 {
        seq![]
    } else {
        let lrow = lhs.last();
        spec_join(lhs.drop_last(), rhs, specs, oj, inv, ic, keep) + join_lines(
            lrow,
            join_matches(rhs, right_cols(specs), ic, keep, join_key(lrow, left_cols(specs), ic)),
            oj,
            inv,
        )
    }
}

fn cols_of(specs: &Vec<(usize, usize)>, left: bool) -> (c: Vec<usize>)
    ensures
        c@ == (if left {
            left_cols(specs@)
        } else {
            right_cols(specs@)
        }),
{
    let mut c: Vec<usize> = Vec::new();
    let mut k: usize = 0;
    while k < specs.len()
        invariant
            k <= specs@.len(),
            c@ == (if left {
                left_cols(specs@)
            } else {
                right_cols(specs@)
            }).take(k as int),
        decreases specs@.len() - k,
    {
        let (a, b) = specs[k];
        c.push(if left {
            a
        } else {
            b
        });
        assert(c@ =~= (if left {
            left_cols(specs@)
        } else {
            right_cols(specs@)
        }).take(k + 1));
        k += 1;
    }
    assert((if left {
        left_cols(specs@)
    } else {
        right_cols(specs@)
    }).take(specs.len() as int) =~= (if left {
        left_cols(specs@)
    } else {
        right_cols(specs@)
    }));
    c
}

fn part_of(row: &Vec<String>, cols: &Vec<usize>, keep: bool) -> (p: Vec<String>)
    ensures
        sview(p@) == join_part(sview(row@), cols@, keep),
{
    let mut p: Vec<String> = Vec::new();
    let mut i: usize = 0;
    assert(sview(p@) =~= Seq::<Seq<char>>::empty());
    while i < row.len()
        invariant
            i <= row@.len(),
            sview(p@) == join_part(sview(row@).take(i as int), cols@, keep),
        decreases row@.len() - i,
    {
        let ghost t = sview(row@).take(i + 1);
        proof {
            assert(t.drop_last() =~= sview(row@).take(i as int));
            assert(t.last() == row@[i as int]@);
            assert(t.len() == i + 1);
        }
        let ghost b = p@;
        if !contains_index(cols, i) || keep {
            p.push(row[i].clone());
            assert(sview(p@) =~= sview(b).push(row@[i as int]@));
        }
        i += 1;
    }
    assert(sview(row@).take(row.len() as int) =~= sview(row@));
    p
}

/// Joins each left-hand row with the right-hand rows whose key matches:
/// the left-hand key fields are the first of each pair in `specs`, the
/// right-hand ones the second; keys are compared upper-cased when `ic`;
/// the right-hand key fields are left out unless `keep`.
pub fn run_join(
    specs: &Vec<(usize, usize)>,
    rhs_rows: &Vec<Vec<String>>,
    lhs_rows: &Vec<Vec<String>>,
    oj: bool,
    inv: bool,
    ic: bool,
    keep: bool,
) -> (out: Vec<Vec<String>>)
    ensures
        rows_view(out@) == spec_join(rows_view(lhs_rows@), rows_view(rhs_rows@), specs@, oj, inv, ic, keep),
{
    let lcols = cols_of(specs, true);
    let rcols = cols_of(specs, false);
    let ghost rhs = rows_view(rhs_rows@);
    let ghost lhs = rows_view(lhs_rows@);
    let mut keys: Vec<String> = Vec::new();
    let mut parts: Vec<Vec<String>> = Vec::new();
    let mut j: usize = 0;
    while j < rhs_rows.len()
        invariant
            j <= rhs_rows@.len(),
            rhs == rows_view(rhs_rows@),
            rcols@ == right_cols(specs@),
            keys@.len() == j,
            parts@.len() == j,
            forall|q: int|
                0 <= q < j ==> (#[trigger] keys@[q])@ == join_key(rhs[q], rcols@, ic),
            forall|q: int|
                0 <= q < j ==> sview((#[trigger] parts@[q])@) == join_part(rhs[q], rcols@, keep),
        decreases rhs_rows@.len() - j,
    {
        assert(rhs[j as int] == sview(rhs_rows@[j as int]@));
        keys.push(make_join_key(&rhs_rows[j], &rcols, ic));
        parts.push(part_of(&rhs_rows[j], &rcols, keep));
        j += 1;
    }
    let mut out: Vec<Vec<String>> = Vec::new();
    let mut i: usize = 0;
    assert(rows_view(out@) =~= Seq::<Seq<Seq<char>>>::empty());
    while i < lhs_rows.len()
        invariant
            i <= lhs_rows@.len(),
            lhs == rows_view(lhs_rows@),
            rhs == rows_view(rhs_rows@),
            lcols@ == left_cols(specs@),
            rcols@ == right_cols(specs@),
            keys@.len() == rhs.len(),
            parts@.len() == rhs.len(),
            forall|q: int|
                0 <= q < rhs.len() ==> (#[trigger] keys@[q])@ == join_key(rhs[q], rcols@, ic),
            forall|q: int|
                0 <= q < rhs.len() ==> sview((#[trigger] parts@[q])@) == join_part(rhs[q], rcols@, keep),
            rows_view(out@) == spec_join(lhs.take(i as int), rhs, specs@, oj, inv, ic, keep),
        decreases lhs_rows@.len() - i,
    {
        let lrow = &lhs_rows[i];
        assert(lhs[i as int] == sview(lrow@));
        let key = make_join_key(lrow, &lcols, ic);
        let ghost ms = join_matches(rhs, rcols@, ic, keep, key@);
        let mut found: Vec<Vec<String>> = Vec::new();
        let mut j: usize = 0;
        while j < keys.len()
            invariant
                j <= keys@.len() == rhs.len() == parts@.len(),
                forall|q: int|
                    0 <= q < rhs.len() ==> (#[trigger] keys@[q])@ == join_key(rhs[q], rcols@, ic),
                forall|q: int|
                    0 <= q < rhs.len() ==> sview((#[trigger] parts@[q])@) == join_part(rhs[q], rcols@, keep),
                rows_view(found@) == join_matches(rhs.take(j as int), rcols@, ic, keep, key@),
            decreases keys@.len() - j,
        {
            proof {
                assert(rhs.take(j + 1).drop_last() =~= rhs.take(j as int));
                assert(rhs.take(j + 1).last() == rhs[j as int]);
            }
            if keys[j] == key {
                let ghost b = found@;
                let p = parts[j].clone();
                assert(p@ == parts@[j as int]@);
                found.push(p);
                proof {
                    lemma_rows_view_push(b, p);
                }
            }
            j += 1;
        }
        assert(rhs.take(keys.len() as int) =~= rhs);
        proof {
            assert(lhs.take(i + 1).drop_last() =~= lhs.take(i as int));
            assert(lhs.take(i + 1).last() == sview(lrow@));
        }
        let ghost o0 = rows_view(out@);
        if found.len() > 0 {
            if !inv {
                let mut k: usize = 0;
                while k < found.len()
                    invariant
                        k <= found@.len(),
                        rows_view(found@) == ms,
                        rows_view(out@) == o0 + ms.take(k as int).map_values(
                            |m: Seq<Seq<char>>| sview(lrow@) + m,
                        ),
                    decreases found@.len() - k,
                {
                    let mut nr: Vec<String> = lrow.clone();
                    assert(nr@ == lrow@);
                    let mut q: usize = 0;
                    let ghost f = found@[k as int];
                    while q < found[k].len()
                        invariant
                            k < found@.len(),
                            f == found@[k as int],
                            q <= f@.len(),
                            sview(nr@) == sview(lrow@) + sview(f@).take(q as int),
                        decreases f@.len() - q,
                    {
                        let ghost b = nr@;
                        nr.push(found[k][q].clone());
                        assert(sview(nr@) =~= sview(lrow@) + sview(f@).take(q + 1)) by {
                            assert(sview(b).len() == b.len());
                            assert(sview(f@)[q as int] == f@[q as int]@);
                            assert(sview(f@).take(q + 1) =~= sview(f@).take(q as int).push(f@[q as int]@));
                            assert(sview(nr@) =~= sview(b).push(f@[q as int]@));
                        }
                        q += 1;
                    }
                    assert(sview(f@).take(f@.len() as int) =~= sview(f@));
                    let ghost ob = out@;
                    out.push(nr);
                    proof {
                        lemma_rows_view_push(ob, nr);
                        assert(rows_view(found@)[k as int] == sview(f@));
                        assert(ms.take(k + 1) =~= ms.take(k as int).push(ms[k as int]));
                        assert(rows_view(out@) =~= o0 + ms.take(k + 1).map_values(
                            |m: Seq<Seq<char>>| sview(lrow@) + m,
                        ));
                    }
                    k += 1;
                }
                assert(ms.take(found.len() as int) =~= ms);
            } else {
                assert(rows_view(out@) =~= o0 + Seq::<Seq<Seq<char>>>::empty());
            }
        } else if oj || inv {
            let ghost ob = out@;
            let nr = lrow.clone();
            out.push(nr);
            proof {
                lemma_rows_view_push(ob, nr);
                assert(rows_view(out@) =~= o0 + seq![sview(lrow@)]);
            }
        } else {
            assert(rows_view(out@) =~= o0 + Seq::<Seq<Seq<char>>>::empty());
        }
        i += 1;
    }
    assert(lhs.take(lhs_rows.len() as int) =~= lhs);
    out
}

/// `a` comes before `b` in the order of `str`: by character codes, a
/// prefix first.
pub open spec fn text_less(a: Seq<char>, b: Seq<char>) -> bool
    decreases a.len(),
{
    if a.len() == 0 {
        b.len() > 0
    } else if b.len() == 0 {
        false
    } else if a[0] != b[0] {
        a[0] < b[0]
    } else {
        text_less(a.drop_first(), b.drop_first())
    }
}

/// Field `i` of a row, or empty.
pub open spec fn field_at(row: Seq<Seq<char>>, i: int) -> Seq<char> {
    if 0 <= i < row.len() {
        row[i]
    } else {
        seq![]
    }
}

/// Row `a` comes before row `b` on the compared fields from `i` on (all
/// fields when `fields` is empty): the first field that differs decides.
pub open spec fn row_less_from(a: Seq<Seq<char>>, b: Seq<Seq<char>>, fields: Seq<usize>, i: int) -> bool
    decreases (if a.len() > b.len() {
        a.len()
    } else {
        b.len()
    }) - i,
{
    let n: int = if a.len() > b.len() {
        a.len() as int
    } else {
        b.len() as int
    };
    if i < 0 || i >= n {
        false
    } else if fields.len() > 0 && !fields.contains(i as usize) {
        row_less_from(a, b, fields, i + 1)
    } else if field_at(a, i) != field_at(b, i) {
        text_less(field_at(a, i), field_at(b, i))
    } else {
        row_less_from(a, b, fields, i + 1)
    }
}

pub(crate) fn text_lt(a: &str, b: &str) -> (r: bool)
    ensures
        r == text_less(a@, b@),
{
    let x = crate::text::chars_of(a);
    let y = crate::text::chars_of(b);
    let mut k: usize = 0;
    assert(a@.skip(0) =~= a@);
    assert(b@.skip(0) =~= b@);
    while k < x.len() && k < y.len() && x[k] == y[k]
        invariant
            x@ == a@,
            y@ == b@,
            k <= x@.len(),
            k <= y@.len(),
            text_less(a@, b@) == text_less(a@.skip(k as int), b@.skip(k as int)),
        decreases x@.len() - k,
    {
        proof {
            assert(a@.skip(k as int).drop_first() =~= a@.skip(k + 1));
            assert(b@.skip(k as int).drop_first() =~= b@.skip(k + 1));
        }
        k += 1;
    }
    if k == x.len() {
        k < y.len()
    } else if k == y.len() {
        false
    } else {
        assert(a@.skip(k as int)[0] == x@[k as int]);
        assert(b@.skip(k as int)[0] == y@[k as int]);
        x[k] < y[k]
    }
}

/// Row `a` comes before row `b` on the fields `fields` (all when empty).
pub fn row_less(a: &Vec<String>, b: &Vec<String>, fields: &Vec<usize>) -> (r: bool)
    ensures
        r == row_less_from(sview(a@), sview(b@), fields@, 0),
{
    let n = if a.len() > b.len() {
        a.len()
    } else {
        b.len()
    };
    let ea = String::new();
    let mut i: usize = 0;
    assert(sview(a@).len() == a@.len());
    assert(sview(b@).len() == b@.len());
    while i < n
        invariant
            i <= n,
            n == (if a@.len() > b@.len() {
                a@.len()
            } else {
                b@.len()
            }),
            ea@ == Seq::<char>::empty(),
            sview(a@).len() == a@.len(),
            sview(b@).len() == b@.len(),
            row_less_from(sview(a@), sview(b@), fields@, 0) == row_less_from(
                sview(a@),
                sview(b@),
                fields@,
                i as int,
            ),
        decreases n - i,
    {
        if fields.len() > 0 && !contains_index(fields, i) {
            i += 1;
            continue;
        }
        let fa = if i < a.len() {
            &a[i]
        } else {
            &ea
        };
        let fb = if i < b.len() {
            &b[i]
        } else {
            &ea
        };
        assert(fa@ == field_at(sview(a@), i as int));
        assert(fb@ == field_at(sview(b@), i as int));
        if *fa != *fb {
            return text_lt(fa.as_str(), fb.as_str());
        }
        i += 1;
    }
    false
}

/// The input whose next row comes first, among inputs `i` on; ties go to
/// the earlier input; -1 when every input is used up.
pub open spec fn pick_input(
    inputs: Seq<Seq<Seq<Seq<char>>>>,
    pos: Seq<int>,
    fields: Seq<usize>,
    i: int,
    best: int,
) -> int
    decreases inputs.len() - i,
{
    if i < 0 || i >= inputs.len() {
        best
    } else if pos[i] < inputs[i].len() && (best < 0 || row_less_from(
        inputs[i][pos[i]],
        inputs[best][pos[best]],
        fields,
        0,
    )) {
        pick_input(inputs, pos, fields, i + 1, i)
    } else {
        pick_input(inputs, pos, fields, i + 1, best)
    }
}

/// Up to `fuel` rows of the merge from positions `pos`: each time the
/// first of the next rows of the inputs.
pub open spec fn merge_rows(
    inputs: Seq<Seq<Seq<Seq<char>>>>,
    pos: Seq<int>,
    fields: Seq<usize>,
    fuel: nat,
) -> Seq<Seq<Seq<char>>>
    decreases fuel,
{
    if fuel == 0 {
        seq![]
    } else {
        let b = pick_input(inputs, pos, fields, 0, -1);
        if b < 0 || b >= inputs.len() {
            seq![]
        } else {
            seq![inputs[b][pos[b]]] + merge_rows(inputs, pos.update(b, pos[b] + 1), fields, (fuel - 1) as nat)
        }
    }
}

/// The number of rows of the inputs before input `k`, less those used.
pub open spec fn left_over(inputs: Seq<Seq<Seq<Seq<char>>>>, pos: Seq<int>, k: int) -> int
    decreases k,
{
    if k <= 0 {
        0
    } else {
        left_over(inputs, pos, k - 1) + (inputs[k - 1].len() - pos[k - 1])
    }
}

/// Each input's rows, as sequences of fields.
pub open spec fn inputs_view(inputs: Seq<Vec<Vec<String>>>) -> Seq<Seq<Seq<Seq<char>>>> {
    inputs.map_values(|v: Vec<Vec<String>>| rows_view(v@))
}

/// Positions as integers.
pub open spec fn pos_view(p: Seq<usize>) -> Seq<int> {
    p.map_values(|x: usize| x as int)
}

/// The start position in each of `n` inputs.
pub open spec fn zero_pos(n: nat) -> Seq<int> {
    Seq::new(n, |i: int| 0int)
}

/// The total number of rows of the inputs.
pub open spec fn total_rows(inputs: Seq<Seq<Seq<Seq<char>>>>) -> nat {
    left_over(inputs, zero_pos(inputs.len()), inputs.len() as int) as nat
}

proof fn lemma_left_over_step(inputs: Seq<Seq<Seq<Seq<char>>>>, pos: Seq<int>, b: int, k: int)
    requires
        0 <= b < inputs.len(),
        pos.len() == inputs.len(),
        0 <= k <= inputs.len(),
    ensures
        left_over(inputs, pos.update(b, pos[b] + 1), k) == left_over(inputs, pos, k) - (if b < k {
            1int
        } else {
            0int
        }),
    decreases k,
{
    if k > 0 {
        lemma_left_over_step(inputs, pos, b, k - 1);
    }
}

proof fn lemma_left_over_pos(inputs: Seq<Seq<Seq<Seq<char>>>>, pos: Seq<int>, i: int, k: int)
    requires
        pos.len() == inputs.len(),
        0 <= k <= inputs.len(),
        forall|j: int| 0 <= j < inputs.len() ==> pos[j] <= inputs[j].len(),
    ensures
        left_over(inputs, pos, k) >= 0,
        0 <= i < k && pos[i] < inputs[i].len() ==> left_over(inputs, pos, k) > 0,
    decreases k,
{
    if k > 0 {
        lemma_left_over_pos(inputs, pos, i, k - 1);
    }
}

proof fn lemma_pick_range(inputs: Seq<Seq<Seq<Seq<char>>>>, pos: Seq<int>, fields: Seq<usize>, i: int, best: int)
    requires
        0 <= i,
        pos.len() == inputs.len(),
        best < 0 || (0 <= best < inputs.len() && pos[best] < inputs[best].len()),
    ensures
        ({
            let r = pick_input(inputs, pos, fields, i, best);
            r < 0 || (0 <= r < inputs.len() && pos[r] < inputs[r].len())
        }),
        pick_input(inputs, pos, fields, i, best) < 0 ==> best < 0 && forall|j: int|
            i <= j < inputs.len() ==> pos[j] >= inputs[j].len(),
    decreases inputs.len() - i,
{
    if i < inputs.len() {
        if pos[i] < inputs[i].len() && (best < 0 || row_less_from(inputs[i][pos[i]], inputs[best][pos[best]], fields, 0)) {
            lemma_pick_range(inputs, pos, fields, i + 1, i);
        } else {
            lemma_pick_range(inputs, pos, fields, i + 1, best);
        }
    }
}

/// Merges inputs whose rows are in order: each time, the first of the
/// next rows of the inputs (compared on `fields`, all when empty; the
/// earlier input on a tie) is written.
pub fn run_file_merge(fields: &Vec<usize>, inputs: &Vec<Vec<Vec<String>>>) -> (out: Vec<Vec<String>>)
    ensures
        rows_view(out@) == merge_rows(
            inputs_view(inputs@),
            zero_pos(inputs@.len()),
            fields@,
            total_rows(inputs_view(inputs@)),
        ),
{
    let ghost ins = inputs_view(inputs@);
    let ghost zeros = zero_pos(inputs@.len());
    let ghost total = total_rows(ins);
    let mut pos: Vec<usize> = Vec::new();
    let mut q: usize = 0;
    while q < inputs.len()
        invariant
            q <= inputs@.len(),
            pos@.len() == q,
            forall|j: int| 0 <= j < q ==> pos@[j] == 0,
        decreases inputs@.len() - q,
    {
        pos.push(0);
        q += 1;
    }
    let ghost p0 = pos_view(pos@);
    assert(p0 =~= zeros);
    let mut out: Vec<Vec<String>> = Vec::new();
    assert(rows_view(out@) =~= Seq::<Seq<Seq<char>>>::empty());
    assert(ins.len() == inputs@.len());
    proof {
        lemma_left_over_pos(ins, p0, 0, ins.len() as int);
    }
    loop
        invariant
            ins == inputs_view(inputs@),
            ins.len() == inputs@.len(),
            total == total_rows(ins),
            zeros == zero_pos(inputs@.len()),
            pos@.len() == inputs@.len(),
            forall|j: int| 0 <= j < inputs@.len() ==> #[trigger] pos@[j] <= inputs@[j]@.len(),
            left_over(ins, pos_view(pos@), ins.len() as int) + out@.len() == total,
            rows_view(out@) + merge_rows(
                ins,
                pos_view(pos@),
                fields@,
                (total - out@.len()) as nat,
            ) == merge_rows(ins, zeros, fields@, total),
        ensures
            rows_view(out@) == merge_rows(ins, zeros, fields@, total),
        decreases total - out@.len(),
    {
        let ghost pv = pos_view(pos@);
        assert forall|j: int| 0 <= j < ins.len() implies pv[j] <= ins[j].len() by {
            assert(pos@[j] <= inputs@[j]@.len());
            assert(ins[j] == rows_view(inputs@[j]@));
        }
        let mut best: usize = 0;
        let mut have = false;
        let mut i: usize = 0;
        while i < inputs.len()
            invariant
                i <= inputs@.len(),
                ins == inputs_view(inputs@),
                ins.len() == inputs@.len(),
                pos@.len() == inputs@.len(),
                pv == pos_view(pos@),
                forall|j: int| 0 <= j < inputs@.len() ==> #[trigger] pos@[j] <= inputs@[j]@.len(),
                have ==> best < i && pos@[best as int] < inputs@[best as int]@.len(),
                pick_input(ins, pv, fields@, 0, -1) == pick_input(
                    ins,
                    pv,
                    fields@,
                    i as int,
                    if have {
                        best as int
                    } else {
                        -1
                    },
                ),
            decreases inputs@.len() - i,
        {
            let p = pos[i];
            assert(ins[i as int] == rows_view(inputs@[i as int]@));
            if p < inputs[i].len() {
                assert(ins[i as int][p as int] == sview(inputs@[i as int]@[p as int]@));
                let take = if !have {
                    true
                } else {
                    assert(ins[best as int] == rows_view(inputs@[best as int]@));
                    assert(ins[best as int][pv[best as int]] == sview(
                        inputs@[best as int]@[pos@[best as int] as int]@,
                    ));
                    row_less(&inputs[i][p], &inputs[best][pos[best]], fields)
                };
                if take {
                    best = i;
                    have = true;
                }
            }
            i += 1;
        }
        if !have {
            proof {
                lemma_pick_range(ins, pv, fields@, 0, -1);
                if total - out@.len() > 0 {
                    assert(merge_rows(ins, pv, fields@, (total - out@.len()) as nat) =~= Seq::<
                        Seq<Seq<char>>,
                    >::empty());
                }
                assert(rows_view(out@) + Seq::<Seq<Seq<char>>>::empty() =~= rows_view(out@));
                assert(rows_view(out@) == merge_rows(ins, zeros, fields@, total));
            }
            break;
        }
        proof {
            lemma_left_over_pos(ins, pv, best as int, ins.len() as int);
            lemma_left_over_step(ins, pv, best as int, ins.len() as int);
        }
        let row = inputs[best][pos[best]].clone();
        assert(ins[best as int] == rows_view(inputs@[best as int]@));
        assert(row@ == inputs@[best as int]@[pos@[best as int] as int]@);
        let ghost ob = out@;
        out.push(row);
        proof {
            lemma_rows_view_push(ob, row);
        }
        let blen = inputs[best].len();
        assert(pos@[best as int] < blen);
        let nb = pos[best] + 1;
        pos.set(best, nb);
        proof {
            let fuel = (total - ob.len()) as nat;
            assert(fuel > 0);
            assert(pos_view(pos@) =~= pv.update(best as int, pv[best as int] + 1));
            assert(merge_rows(ins, pv, fields@, fuel) == seq![ins[best as int][pv[best as int]]] + merge_rows(
                ins,
                pv.update(best as int, pv[best as int] + 1),
                fields@,
                (fuel - 1) as nat,
            ));
            assert(rows_view(out@) + merge_rows(
                ins,
                pos_view(pos@),
                fields@,
                (total - out@.len()) as nat,
            ) =~= rows_view(ob) + merge_rows(ins, pv, fields@, fuel));
            assert forall|j: int| 0 <= j < inputs@.len() implies #[trigger] pos@[j] <= inputs@[j]@.len() by {
                if j == best {
                    assert(ins[best as int].len() == inputs@[best as int]@.len());
                }
            }
        }
    }
    out
}


proof fn lemma_text_less_irrefl(a: Seq<char>)
    ensures
        !text_less(a, a),
    decreases a.len(),
{
    if a.len() > 0 {
        lemma_text_less_irrefl(a.drop_first());
    }
}

proof fn lemma_text_less_trans(a: Seq<char>, b: Seq<char>, c: Seq<char>)
    requires
        text_less(a, b),
        text_less(b, c),
    ensures
        text_less(a, c),
    decreases a.len(),
{
    if a.len() > 0 && b.len() > 0 && c.len() > 0 && a[0] == b[0] && b[0] == c[0] {
        lemma_text_less_trans(a.drop_first(), b.drop_first(), c.drop_first());
    }
}

proof fn lemma_text_less_total(a: Seq<char>, b: Seq<char>)
    requires
        a != b,
    ensures
        text_less(a, b) || text_less(b, a),
    decreases a.len(),
{
    if a.len() > 0 && b.len() > 0 && a[0] == b[0] {
        if a.drop_first() == b.drop_first() {
            assert(a =~= seq![a[0]] + a.drop_first());
            assert(b =~= seq![b[0]] + b.drop_first());
        }
        lemma_text_less_total(a.drop_first(), b.drop_first());
    } else if a.len() == 0 && b.len() == 0 {
        assert(a =~= b);
    }
}

/// [`row_less_from`] with the fields looked at up to `n`, which is at
/// least the length of both rows.
spec fn row_less_upto(a: Seq<Seq<char>>, b: Seq<Seq<char>>, fields: Seq<usize>, i: int, n: int) -> bool
    decreases n - i,
{
    if i < 0 || i >= n {
        false
    } else if fields.len() > 0 && !fields.contains(i as usize) {
        row_less_upto(a, b, fields, i + 1, n)
    } else if field_at(a, i) != field_at(b, i) {
        text_less(field_at(a, i), field_at(b, i))
    } else {
        row_less_upto(a, b, fields, i + 1, n)
    }
}

proof fn lemma_row_less_upto(a: Seq<Seq<char>>, b: Seq<Seq<char>>, fields: Seq<usize>, i: int, n: int)
    requires
        0 <= i,
        a.len() <= n,
        b.len() <= n,
    ensures
        row_less_from(a, b, fields, i) == row_less_upto(a, b, fields, i, n),
    decreases n - i,
{
    if i < n {
        lemma_row_less_upto(a, b, fields, i + 1, n);
    }
}

proof fn lemma_upto_trans(
    a: Seq<Seq<char>>,
    b: Seq<Seq<char>>,
    c: Seq<Seq<char>>,
    fields: Seq<usize>,
    i: int,
    n: int,
)
    requires
        0 <= i,
    ensures
        row_less_upto(a, b, fields, i, n) && row_less_upto(b, c, fields, i, n) ==> row_less_upto(a, c, fields, i, n),
        row_less_upto(c, a, fields, i, n) ==> row_less_upto(b, a, fields, i, n) || row_less_upto(c, b, fields, i, n),
    decreases n - i,
{
    if i < n {
        lemma_upto_trans(a, b, c, fields, i + 1, n);
        if !(fields.len() > 0 && !fields.contains(i as usize)) {
            let fa = field_at(a, i);
            let fb = field_at(b, i);
            let fc = field_at(c, i);
            if fa != fb {
                lemma_text_less_total(fa, fb);
            }
            if fb != fc {
                lemma_text_less_total(fb, fc);
            }
            if fa != fc {
                lemma_text_less_total(fa, fc);
            }
            lemma_text_less_irrefl(fa);
            lemma_text_less_irrefl(fb);
            if text_less(fa, fb) && text_less(fb, fc) {
                lemma_text_less_trans(fa, fb, fc);
            }
            if text_less(fc, fa) && text_less(fa, fb) {
                lemma_text_less_trans(fc, fa, fb);
            }
            if text_less(fb, fc) && text_less(fc, fa) {
                lemma_text_less_trans(fb, fc, fa);
            }
            if text_less(fa, fb) && text_less(fb, fa) {
                lemma_text_less_trans(fa, fb, fa);
            }
            if text_less(fb, fc) && text_less(fc, fb) {
                lemma_text_less_trans(fb, fc, fb);
            }
            if text_less(fa, fc) && text_less(fc, fa) {
                lemma_text_less_trans(fa, fc, fa);
            }
        }
    }
}

/// The largest of three lengths.
spec fn max3(a: int, b: int, c: int) -> int {
    if a >= b && a >= c {
        a
    } else if b >= c {
        b
    } else {
        c
    }
}

/// Coming before is transitive, and so is not coming before: rows compared
/// on the same fields are in a total order up to equal compared fields.
pub proof fn lemma_row_less_order(a: Seq<Seq<char>>, b: Seq<Seq<char>>, c: Seq<Seq<char>>, fields: Seq<usize>)
    ensures
        !row_less_from(a, a, fields, 0),
        row_less_from(a, b, fields, 0) && row_less_from(b, c, fields, 0) ==> row_less_from(a, c, fields, 0),
        !row_less_from(b, a, fields, 0) && !row_less_from(c, b, fields, 0) ==> !row_less_from(c, a, fields, 0),
{
    let n = max3(a.len() as int, b.len() as int, c.len() as int);
    lemma_row_less_upto(a, b, fields, 0, n);
    lemma_row_less_upto(b, c, fields, 0, n);
    lemma_row_less_upto(a, c, fields, 0, n);
    lemma_row_less_upto(b, a, fields, 0, n);
    lemma_row_less_upto(c, b, fields, 0, n);
    lemma_row_less_upto(c, a, fields, 0, n);
    lemma_row_less_upto(a, a, fields, 0, n);
    lemma_upto_trans(a, b, c, fields, 0, n);
    lemma_upto_trans(a, a, a, fields, 0, n);
    lemma_upto_irrefl(a, fields, 0, n);
}

proof fn lemma_upto_irrefl(a: Seq<Seq<char>>, fields: Seq<usize>, i: int, n: int)
    ensures
        !row_less_upto(a, a, fields, i, n),
    decreases n - i,
{
    if 0 <= i < n {
        lemma_upto_irrefl(a, fields, i + 1, n);
    }
}

/// No row of `rows` comes before the row above it.
pub open spec fn sorted_rows(rows: Seq<Seq<Seq<char>>>, fields: Seq<usize>) -> bool {
    forall|j: int| 0 <= j < rows.len() - 1 ==> !row_less_from(#[trigger] rows[j + 1], rows[j], fields, 0)
}

/// Positions inside the inputs.
spec fn pos_ok(inputs: Seq<Seq<Seq<Seq<char>>>>, pos: Seq<int>) -> bool {
    &&& pos.len() == inputs.len()
    &&& forall|j: int| 0 <= j < inputs.len() ==> 0 <= #[trigger] pos[j] <= inputs[j].len()
}

proof fn lemma_pick_least(
    inputs: Seq<Seq<Seq<Seq<char>>>>,
    pos: Seq<int>,
    fields: Seq<usize>,
    i: int,
    best: int,
)
    requires
        0 <= i,
        pos_ok(inputs, pos),
        best < 0 || (0 <= best < inputs.len() && pos[best] < inputs[best].len()),
        best < 0 ==> forall|j: int| 0 <= j < i && j < inputs.len() ==> pos[j] >= inputs[j].len(),
        best >= 0 ==> forall|j: int|
            0 <= j < i && j < inputs.len() && pos[j] < inputs[j].len() ==> !row_less_from(
                inputs[j][pos[j]],
                inputs[best][pos[best]],
                fields,
                0,
            ),
    ensures
        ({
            let r = pick_input(inputs, pos, fields, i, best);
            r >= 0 ==> forall|j: int|
                0 <= j < inputs.len() && pos[j] < inputs[j].len() ==> !row_less_from(
                    inputs[j][pos[j]],
                    inputs[r][pos[r]],
                    fields,
                    0,
                )
        }),
    decreases inputs.len() - i,
{
    lemma_pick_range(inputs, pos, fields, i, best);
    if i < inputs.len() {
        if pos[i] < inputs[i].len() && (best < 0 || row_less_from(
            inputs[i][pos[i]],
            inputs[best][pos[best]],
            fields,
            0,
        )) {
            assert forall|j: int|
                0 <= j < i + 1 && j < inputs.len() && pos[j] < inputs[j].len() implies !row_less_from(
                inputs[j][pos[j]],
                inputs[i][pos[i]],
                fields,
                0,
            ) by {
                lemma_row_less_order(inputs[j][pos[j]], inputs[i][pos[i]], inputs[i][pos[i]], fields);
                if best >= 0 && j < i {
                    lemma_row_less_order(inputs[j][pos[j]], inputs[i][pos[i]], inputs[best][pos[best]], fields);
                }
            }
            lemma_pick_least(inputs, pos, fields, i + 1, i);
        } else {
            if best >= 0 {
                assert forall|j: int|
                    0 <= j < i + 1 && j < inputs.len() && pos[j] < inputs[j].len() implies !row_less_from(
                    inputs[j][pos[j]],
                    inputs[best][pos[best]],
                    fields,
                    0,
                ) by {}
            }
            lemma_pick_least(inputs, pos, fields, i + 1, best);
        }
    }
}

proof fn lemma_pick_earliest_from(
    inputs: Seq<Seq<Seq<Seq<char>>>>,
    pos: Seq<int>,
    fields: Seq<usize>,
    i: int,
    best: int,
)
    requires
        0 <= i,
        pos_ok(inputs, pos),
        best < 0 || (0 <= best < i && best < inputs.len() && pos[best] < inputs[best].len()),
        best < 0 ==> forall|j: int| 0 <= j < i && j < inputs.len() ==> pos[j] >= inputs[j].len(),
        best >= 0 ==> forall|j: int|
            0 <= j < best && pos[j] < inputs[j].len() ==> row_less_from(
                inputs[best][pos[best]],
                inputs[j][pos[j]],
                fields,
                0,
            ),
        best >= 0 ==> forall|j: int|
            best < j < i && j < inputs.len() && pos[j] < inputs[j].len() ==> !row_less_from(
                inputs[j][pos[j]],
                inputs[best][pos[best]],
                fields,
                0,
            ),
    ensures
        ({
            let r = pick_input(inputs, pos, fields, i, best);
            r >= 0 ==> forall|j: int|
                0 <= j < r && pos[j] < inputs[j].len() ==> row_less_from(
                    inputs[r][pos[r]],
                    inputs[j][pos[j]],
                    fields,
                    0,
                )
        }),
    decreases inputs.len() - i,
{
    if i < inputs.len() {
        if pos[i] < inputs[i].len() && (best < 0 || row_less_from(
            inputs[i][pos[i]],
            inputs[best][pos[best]],
            fields,
            0,
        )) {
            assert forall|j: int| 0 <= j < i && pos[j] < inputs[j].len() implies row_less_from(
                inputs[i][pos[i]],
                inputs[j][pos[j]],
                fields,
                0,
            ) by {
                if j < best {
                    lemma_row_less_order(inputs[i][pos[i]], inputs[best][pos[best]], inputs[j][pos[j]], fields);
                } else if j > best {
                    lemma_row_less_order(inputs[best][pos[best]], inputs[j][pos[j]], inputs[i][pos[i]], fields);
                }
            }
            lemma_pick_earliest_from(inputs, pos, fields, i + 1, i);
        } else {
            lemma_pick_earliest_from(inputs, pos, fields, i + 1, best);
        }
    }
}

/// Of the inputs whose next rows come first, the merge takes the earliest:
/// the next row of every input before the one it takes comes after that
/// row, so of rows that compare equal the earlier input's goes first.
pub proof fn lemma_merge_takes_earliest(inputs: Seq<Seq<Seq<Seq<char>>>>, pos: Seq<int>, fields: Seq<usize>)
    requires
        pos.len() == inputs.len(),
        forall|j: int| 0 <= j < inputs.len() ==> 0 <= #[trigger] pos[j] <= inputs[j].len(),
    ensures
        ({
            let r = pick_input(inputs, pos, fields, 0, -1);
            r >= 0 ==> forall|j: int|
                0 <= j < r && pos[j] < inputs[j].len() ==> row_less_from(
                    inputs[r][pos[r]],
                    inputs[j][pos[j]],
                    fields,
                    0,
                )
        }),
{
    lemma_pick_earliest_from(inputs, pos, fields, 0, -1);
}

proof fn lemma_merge_sorted_from(
    inputs: Seq<Seq<Seq<Seq<char>>>>,
    pos: Seq<int>,
    fields: Seq<usize>,
    fuel: nat,
)
    requires
        pos_ok(inputs, pos),
        forall|k: int| 0 <= k < inputs.len() ==> sorted_rows(#[trigger] inputs[k], fields),
    ensures
        sorted_rows(merge_rows(inputs, pos, fields, fuel), fields),
        merge_rows(inputs, pos, fields, fuel).len() > 0 ==> exists|j: int|
            0 <= j < inputs.len() && pos[j] < inputs[j].len() && merge_rows(inputs, pos, fields, fuel)[0]
                == #[trigger] inputs[j][pos[j]],
    decreases fuel,
{
    if fuel > 0 {
        let b = pick_input(inputs, pos, fields, 0, -1);
        lemma_pick_range(inputs, pos, fields, 0, -1);
        if 0 <= b < inputs.len() {
            let p2 = pos.update(b, pos[b] + 1);
            let h = inputs[b][pos[b]];
            lemma_pick_least(inputs, pos, fields, 0, -1);
            assert(pos_ok(inputs, p2));
            lemma_merge_sorted_from(inputs, p2, fields, (fuel - 1) as nat);
            let rest = merge_rows(inputs, p2, fields, (fuel - 1) as nat);
            let m = merge_rows(inputs, pos, fields, fuel);
            assert(m == seq![h] + rest);
            if rest.len() > 0 {
                let j = choose|j: int|
                    0 <= j < inputs.len() && p2[j] < inputs[j].len() && rest[0] == #[trigger] inputs[j][p2[j]];
                if j == b {
                    assert(p2[b] == pos[b] + 1);
                    assert(sorted_rows(inputs[b], fields));
                    assert(inputs[b][pos[b] + 1] == inputs[b][(pos[b] + 1) - 1 + 1]);
                    assert(!row_less_from(inputs[b][pos[b] + 1], inputs[b][pos[b]], fields, 0));
                } else {
                    assert(p2[j] == pos[j]);
                }
                assert(!row_less_from(rest[0], h, fields, 0));
            }
            assert forall|t: int| 0 <= t < m.len() - 1 implies !row_less_from(#[trigger] m[t + 1], m[t], fields, 0) by {
                if t > 0 {
                    assert(m[t + 1] == rest[t]);
                    assert(m[t] == rest[t - 1]);
                    assert(rest[t] == rest[(t - 1) + 1]);
                } else {
                    assert(m[1] == rest[0]);
                }
            }
            assert(m[0] == inputs[b][pos[b]]);
        }
    }
}

/// Merging inputs whose rows are each in order gives rows in order.
pub proof fn lemma_merge_sorted(inputs: Seq<Seq<Seq<Seq<char>>>>, fields: Seq<usize>)
    requires
        forall|k: int| 0 <= k < inputs.len() ==> sorted_rows(#[trigger] inputs[k], fields),
    ensures
        sorted_rows(merge_rows(inputs, zero_pos(inputs.len()), fields, total_rows(inputs)), fields),
{
    lemma_merge_sorted_from(inputs, zero_pos(inputs.len()), fields, total_rows(inputs));
}


/// The rows of inputs `0..k`, as a multiset.
pub open spec fn all_rows(inputs: Seq<Seq<Seq<Seq<char>>>>, k: int) -> Multiset<Seq<Seq<char>>>
    decreases k,
{
    if k <= 0 {
        Multiset::empty()
    } else {
        all_rows(inputs, k - 1).add(inputs[k - 1].to_multiset())
    }
}

/// The rows of inputs `0..k` from positions `pos` on, as a multiset.
spec fn rows_left(inputs: Seq<Seq<Seq<Seq<char>>>>, pos: Seq<int>, k: int) -> Multiset<Seq<Seq<char>>>
    decreases k,
{
    if k <= 0 {
        Multiset::empty()
    } else {
        rows_left(inputs, pos, k - 1).add(inputs[k - 1].skip(pos[k - 1]).to_multiset())
    }
}

proof fn lemma_rows_left_step(inputs: Seq<Seq<Seq<Seq<char>>>>, pos: Seq<int>, b: int, k: int)
    requires
        pos_ok(inputs, pos),
        0 <= b < inputs.len(),
        pos[b] < inputs[b].len(),
        0 <= k <= inputs.len(),
    ensures
        rows_left(inputs, pos, k) == if b < k {
            rows_left(inputs, pos.update(b, pos[b] + 1), k).insert(inputs[b][pos[b]])
        } else {
            rows_left(inputs, pos.update(b, pos[b] + 1), k)
        },
    decreases k,
{
    broadcast use vstd::multiset::group_multiset_axioms;

    if k > 0 {
        lemma_rows_left_step(inputs, pos, b, k - 1);
        let p2 = pos.update(b, pos[b] + 1);
        if k - 1 == b {
            let x = inputs[b][pos[b]];
            let t = inputs[b].skip(pos[b] + 1);
            assert(inputs[b].skip(pos[b]) =~= seq![x] + t);
            vstd::seq_lib::lemma_multiset_commutative(seq![x], t);
            assert(seq![x] =~= Seq::<Seq<Seq<char>>>::empty().push(x));
            vstd::seq_lib::to_multiset_build(Seq::<Seq<Seq<char>>>::empty(), x);
            lemma_empty_to_multiset(Seq::<Seq<Seq<char>>>::empty());
            assert(p2[b] == pos[b] + 1);
            assert(inputs[b].skip(pos[b]).to_multiset() =~= t.to_multiset().insert(x));
            assert(rows_left(inputs, pos, k) =~= rows_left(inputs, p2, k).insert(x));
        } else {
            assert(p2[k - 1] == pos[k - 1]);
            if b < k {
                assert(rows_left(inputs, pos, k) =~= rows_left(inputs, p2, k).insert(inputs[b][pos[b]]));
            }
        }
    }
}

proof fn lemma_empty_to_multiset(s: Seq<Seq<Seq<char>>>)
    requires
        s.len() == 0,
    ensures
        s.to_multiset() == Multiset::<Seq<Seq<char>>>::empty(),
{
    broadcast use vstd::multiset::group_multiset_axioms;

    s.to_multiset_ensures();
    assert forall|a: Seq<Seq<char>>| s.to_multiset().count(a) == 0 by {}
    assert(s.to_multiset() =~= Multiset::<Seq<Seq<char>>>::empty());
}

proof fn lemma_rows_left_done(inputs: Seq<Seq<Seq<Seq<char>>>>, pos: Seq<int>, k: int)
    requires
        pos_ok(inputs, pos),
        0 <= k <= inputs.len(),
        forall|j: int| 0 <= j < k ==> pos[j] >= inputs[j].len(),
    ensures
        rows_left(inputs, pos, k) == Multiset::<Seq<Seq<char>>>::empty(),
    decreases k,
{
    broadcast use vstd::multiset::group_multiset_axioms;

    if k > 0 {
        lemma_rows_left_done(inputs, pos, k - 1);
        assert(inputs[k - 1].skip(pos[k - 1]) =~= Seq::<Seq<Seq<char>>>::empty());
        lemma_empty_to_multiset(inputs[k - 1].skip(pos[k - 1]));
        assert(rows_left(inputs, pos, k) =~= Multiset::<Seq<Seq<char>>>::empty());
    }
}

proof fn lemma_rows_left_all(inputs: Seq<Seq<Seq<Seq<char>>>>, k: int)
    requires
        0 <= k <= inputs.len(),
    ensures
        rows_left(inputs, zero_pos(inputs.len()), k) == all_rows(inputs, k),
    decreases k,
{
    if k > 0 {
        lemma_rows_left_all(inputs, k - 1);
        assert(inputs[k - 1].skip(zero_pos(inputs.len())[k - 1]) =~= inputs[k - 1]);
    }
}

proof fn lemma_merge_rows_from(
    inputs: Seq<Seq<Seq<Seq<char>>>>,
    pos: Seq<int>,
    fields: Seq<usize>,
    fuel: nat,
)
    requires
        pos_ok(inputs, pos),
        fuel == left_over(inputs, pos, inputs.len() as int),
    ensures
        merge_rows(inputs, pos, fields, fuel).to_multiset() == rows_left(inputs, pos, inputs.len() as int),
    decreases fuel,
{
    broadcast use vstd::multiset::group_multiset_axioms;

    let n = inputs.len() as int;
    let b = pick_input(inputs, pos, fields, 0, -1);
    lemma_pick_range(inputs, pos, fields, 0, -1);
    if fuel == 0 {
        assert forall|j: int| 0 <= j < n implies pos[j] >= inputs[j].len() by {
            lemma_left_over_pos(inputs, pos, j, n);
        }
        lemma_rows_left_done(inputs, pos, n);
        assert(merge_rows(inputs, pos, fields, fuel) =~= Seq::<Seq<Seq<char>>>::empty());
        lemma_empty_to_multiset(merge_rows(inputs, pos, fields, fuel));
    } else {
        if b < 0 {
            lemma_left_over_zero(inputs, pos, n);
        }
        let p2 = pos.update(b, pos[b] + 1);
        let x = inputs[b][pos[b]];
        lemma_left_over_step(inputs, pos, b, n);
        assert(pos_ok(inputs, p2));
        lemma_merge_rows_from(inputs, p2, fields, (fuel - 1) as nat);
        let rest = merge_rows(inputs, p2, fields, (fuel - 1) as nat);
        assert(merge_rows(inputs, pos, fields, fuel) == seq![x] + rest);
        vstd::seq_lib::lemma_multiset_commutative(seq![x], rest);
        assert(seq![x] =~= Seq::<Seq<Seq<char>>>::empty().push(x));
        vstd::seq_lib::to_multiset_build(Seq::<Seq<Seq<char>>>::empty(), x);
        lemma_empty_to_multiset(Seq::<Seq<Seq<char>>>::empty());
        lemma_rows_left_step(inputs, pos, b, n);
        assert(merge_rows(inputs, pos, fields, fuel).to_multiset() =~= rows_left(inputs, pos, n));
    }
}

proof fn lemma_left_over_zero(inputs: Seq<Seq<Seq<Seq<char>>>>, pos: Seq<int>, k: int)
    requires
        pos_ok(inputs, pos),
        0 <= k <= inputs.len(),
        forall|j: int| 0 <= j < k ==> pos[j] >= inputs[j].len(),
    ensures
        left_over(inputs, pos, k) == 0,
    decreases k,
{
    if k > 0 {
        lemma_left_over_zero(inputs, pos, k - 1);
    }
}

/// The merge writes every row of every input, each as often as it occurs.
pub proof fn lemma_merge_all_rows(inputs: Seq<Seq<Seq<Seq<char>>>>, fields: Seq<usize>)
    ensures
        merge_rows(inputs, zero_pos(inputs.len()), fields, total_rows(inputs)).to_multiset() == all_rows(
            inputs,
            inputs.len() as int,
        ),
{
    let z = zero_pos(inputs.len());
    assert(pos_ok(inputs, z));
    lemma_left_over_pos(inputs, z, 0, inputs.len() as int);
    assert(total_rows(inputs) == left_over(inputs, z, inputs.len() as int));
    lemma_merge_rows_from(inputs, z, fields, total_rows(inputs));
    lemma_rows_left_all(inputs, inputs.len() as int);
}

} // verus!
