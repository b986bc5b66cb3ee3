//! Flattening runs of rows that share a key into one row, and the
//! reverse: spreading the data fields of a row over several rows.
use vstd::prelude::*;
use crate::args::{parse_indices, spec_parse_indices};
use crate::join::{join_key, make_join_key};
use crate::rows::contains_index;
use crate::text::{lit, sview};

verus! {

/// Field `i` of a row, or empty past its end.
pub open spec fn field_or_empty(row: Seq<Seq<char>>, i: int) -> Seq<char> {
    if 0 <= i < row.len() {
        row[i]
    } else {
        seq![]
    }
}

/// The fields `idx` of a row, empty past its end.
pub open spec fn pick_fields(row: Seq<Seq<char>>, idx: Seq<usize>) -> Seq<Seq<char>> {
    idx.map_values(|i: usize| field_or_empty(row, i as int))
}

/// The fields of a row from index `i` on that are not key fields.
pub open spec fn non_key_from(row: Seq<Seq<char>>, kf: Seq<usize>, i: int) -> Seq<Seq<char>>
    decreases row.len() - i,
{
    if i < 0 || i >= row.len() {
        seq![]
    } else if kf.contains(i as usize) {
        non_key_from(row, kf, i + 1)
    } else {
        seq![row[i]] + non_key_from(row, kf, i + 1)
    }
}

/// What a row adds to the flattened row: its data fields, or else all its
/// fields but the key fields.
pub open spec fn data_part(row: Seq<Seq<char>>, kf: Seq<usize>, df: Option<Seq<usize>>) -> Seq<Seq<char>> {
    match df {
        Some(d) => pick_fields(row, d),
        None => non_key_from(row, kf, 0),
    }
}

/// How a flattened row starts: the key fields when they are kept.
pub open spec fn key_part(row: Seq<Seq<char>>, kf: Seq<usize>, keep: bool) -> Seq<Seq<char>> {
    if keep {
        pick_fields(row, kf)
    } else {
        seq![]
    }
}

/// The state of flattening: the key of the current run, the flattened row
/// built so far, and whether a row has been read.
pub struct FlattenState {
    pub key: String,
    pub data: Vec<String>,
    pub read: bool,
}

/// The options of key-based flattening: the key fields (the first field
/// when none is given), the data fields, and whether the key is kept.
pub open spec fn spec_flatten_options(key: Option<Seq<char>>, data: Option<Seq<char>>, remove: bool) -> Result<
    (Seq<usize>, Option<Seq<usize>>, bool),
    Seq<char>,
> {
    let kf = match key {
        Some(k) => spec_parse_indices(k),
        None => Ok(seq![0usize]),
    };
    match kf {
        Err(e) => Err(e),
        Ok(k) => match data {
            None => Ok((k, None, !remove)),
            Some(d) => match spec_parse_indices(d) {
                Err(e) => Err(e),
                Ok(v) => Ok((k, Some(v), !remove)),
            },
        },
    }
}

/// Checks the options of flattening: a master expression excludes the
/// other options; otherwise the key and data field lists are read.
pub fn flatten_options(master: bool, key: Option<&str>, data: Option<&str>, remove: bool) -> (r: Result<
    (Vec<usize>, Option<Vec<usize>>, bool),
    String,
>)
    ensures
        master ==> (if key is Some || data is Some || remove {
            r matches Err(e) && e@ == "Cannot use -me with other options"@
        } else {
            r matches Ok((k, d, keep)) && k@.len() == 0 && d is None && keep
        }),
        !master ==> match spec_flatten_options(
            match key {
                Some(k) => Some(k@),
                None => None,
            },
            match data {
                Some(d) => Some(d@),
                None => None,
            },
            remove,
        ) {
            Ok((k, d, keep)) => r matches Ok((k2, d2, keep2)) && k2@ == k && keep2 == keep && match d {
                Some(v) => d2 matches Some(w) && w@ == v,
                None => d2 is None,
            },
            Err(e) => r matches Err(m) && m@ == e,
        },
{
    if master {
        if key.is_some() || data.is_some() || remove {
            return Err(lit("Cannot use -me with other options"));
        }
        return Ok((Vec::new(), None, true));
    }
    let kf = match key {
        Some(k) => match parse_indices(k) {
            Ok(v) => v,
            Err(e) => return Err(e),
        },
        None => {
            let mut v: Vec<usize> = Vec::new();
            v.push(0);
            assert(v@ =~= seq![0usize]);
            v
        },
    };
    let df = match data {
        None => None,
        Some(d) => match parse_indices(d) {
            Ok(v) => Some(v),
            Err(e) => return Err(e),
        },
    };
    Ok((kf, df, !remove))
}

pub(crate) fn push_fields(out: &mut Vec<String>, row: &Vec<String>, idx: &Vec<usize>)
    ensures
        sview(final(out)@) == sview(old(out)@) + pick_fields(sview(row@), idx@),
{
    let ghost o0 = sview(out@);
    let mut k: usize = 0;
    assert(sview(row@).len() == row@.len());
    while k < idx.len()
        invariant
            k <= idx@.len(),
            sview(row@).len() == row@.len(),
            sview(out@) == o0 + pick_fields(sview(row@), idx@).take(k as int),
        decreases idx@.len() - k,
    {
        let i = idx[k];
        let ghost b = out@;
        if i < row.len() {
            out.push(row[i].clone());
            assert(sview(row@)[i as int] == row@[i as int]@);
        } else {
            out.push(String::new());
        }
        proof {
            assert(pick_fields(sview(row@), idx@).take(k + 1) =~= pick_fields(sview(row@), idx@).take(
                k as int,
            ).push(field_or_empty(sview(row@), i as int)));
            assert(sview(out@) =~= sview(b).push(field_or_empty(sview(row@), i as int)));
        }
        k += 1;
    }
    assert(pick_fields(sview(row@), idx@).take(idx@.len() as int) =~= pick_fields(sview(row@), idx@));
}

pub(crate) fn push_non_key(out: &mut Vec<String>, row: &Vec<String>, kf: &Vec<usize>)
    ensures
        sview(final(out)@) == sview(old(out)@) + non_key_from(sview(row@), kf@, 0),
{
    let ghost o0 = sview(out@);
    let ghost rv = sview(row@);
    let mut i: usize = 0;
    assert(rv.len() == row@.len());
    assert(o0 + Seq::<Seq<char>>::empty() =~= o0);
    while i < row.len()
        invariant
            i <= row@.len(),
            rv == sview(row@),
            rv.len() == row@.len(),
            sview(out@) + non_key_from(rv, kf@, i as int) == o0 + non_key_from(rv, kf@, 0),
        decreases row@.len() - i,
    {
        let ghost b = sview(out@);
        if !contains_index(kf, i) {
            out.push(row[i].clone());
            proof {
                assert(rv[i as int] == row@[i as int]@);
                assert(sview(out@) =~= b.push(rv[i as int]));
                assert(b + non_key_from(rv, kf@, i as int) =~= sview(out@) + non_key_from(rv, kf@, i + 1));
            }
        }
        i += 1;
    }
    assert(non_key_from(rv, kf@, row@.len() as int) =~= Seq::<Seq<char>>::empty());
    assert(sview(out@) + Seq::<Seq<char>>::empty() =~= sview(out@));
}

fn push_data(out: &mut Vec<String>, row: &Vec<String>, kf: &Vec<usize>, df: &Option<Vec<usize>>)
    ensures
        sview(final(out)@) == sview(old(out)@) + data_part(
            sview(row@),
            kf@,
            match df {
                Some(d) => Some(d@),
                None => None,
            },
        ),
{
    match df {
        Some(d) => push_fields(out, row, d),
        None => push_non_key(out, row, kf),
    }
}

impl FlattenState {
    /// The state before any row.
    pub fn new() -> (s: Self)
        ensures
            !s.read,
            s.key@ == Seq::<char>::empty(),
            s.data@.len() == 0,
    {
        FlattenState { key: String::new(), data: Vec::new(), read: false }
    }

    /// Takes the next row: a row whose key differs from the run's ends the
    /// run, whose flattened row is returned; the row's key fields (if
    /// kept) start the next one. The row's data is added to the run.
    pub fn step(
        &mut self,
        key_fields: &Vec<usize>,
        data_fields: &Option<Vec<usize>>,
        keep_key: bool,
        row: &Vec<String>,
    ) -> (out: Option<Vec<String>>)
        ensures
            final(self).read,
            final(self).key@ == join_key(sview(row@), key_fields@, false),
            ({
                let k = join_key(sview(row@), key_fields@, false);
                let df = match data_fields {
                    Some(d) => Some(d@),
                    None => None,
                };
                let add = data_part(sview(row@), key_fields@, df);
                if old(self).read && k == old(self).key@ {
                    out is None && sview(final(self).data@) == sview(old(self).data@) + add
                } else {
                    sview(final(self).data@) == key_part(sview(row@), key_fields@, keep_key) + add
                        && if old(self).read {
                        out matches Some(o) && sview(o@) == sview(old(self).data@)
                    } else {
                        out is None
                    }
                }
            }),
    {
        let key = make_join_key(row, key_fields, false);
        let mut out: Option<Vec<String>> = None;
        if !self.read || key != self.key {
            let mut fresh: Vec<String> = Vec::new();
            if keep_key {
                push_fields(&mut fresh, row, key_fields);
            }
            assert(sview(fresh@) =~= key_part(sview(row@), key_fields@, keep_key));
            let mut prev = fresh;
            std::mem::swap(&mut prev, &mut self.data);
            if self.read {
                out = Some(prev);
            }
        }
        push_data(&mut self.data, row, key_fields, data_fields);
        self.key = key;
        self.read = true;
        out
    }

    /// The flattened row of the last run, if any row was read.
    pub fn finish(self) -> (out: Option<Vec<String>>)
        ensures
            if self.read {
                out matches Some(o) && sview(o@) == sview(self.data@)
            } else {
                out is None
            },
    {
        if self.read {
            Some(self.data)
        } else {
            None
        }
    }
}

/// With a master expression: a master row (one for which the expression
/// holds) is kept; any other row is written after the last master row.
pub fn master_step(master: &mut Vec<String>, row: &Vec<String>, is_master: bool) -> (r: Result<
    Option<Vec<String>>,
    String,
>)
    ensures
        is_master ==> (r matches Ok(None) && sview(final(master)@) == sview(row@)),
        !is_master && old(master)@.len() == 0 ==> (r matches Err(e) && e@
            == "No master record identified"@ && final(master)@ == old(master)@),
        !is_master && old(master)@.len() > 0 ==> (r matches Ok(Some(o)) && sview(o@) == sview(
            old(master)@,
        ) + sview(row@) && final(master)@ == old(master)@),
{
    if is_master {
        let mut m: Vec<String> = Vec::new();
        let mut k: usize = 0;
        while k < row.len()
            invariant
                k <= row@.len(),
                sview(m@) == sview(row@).take(k as int),
            decreases row@.len() - k,
        {
            let ghost b = m@;
            m.push(row[k].clone());
            assert(sview(m@) =~= sview(row@).take(k + 1)) by {
                assert(sview(b).len() == b.len());
            }
            k += 1;
        }
        assert(sview(row@).take(row@.len() as int) =~= sview(row@));
        *master = m;
        return Ok(None);
    }
    if master.len() == 0 {
        return Err(lit("No master record identified"));
    }
    let mut o: Vec<String> = Vec::new();
    let mut k: usize = 0;
    while k < master.len()
        invariant
            k <= master@.len(),
            sview(o@) == sview(master@).take(k as int),
        decreases master@.len() - k,
    {
        let ghost b = o@;
        o.push(master[k].clone());
        assert(sview(o@) =~= sview(master@).take(k + 1)) by {
            assert(sview(b).len() == b.len());
        }
        k += 1;
    }
    assert(sview(master@).take(master@.len() as int) =~= sview(master@));
    let mut k: usize = 0;
    while k < row.len()
        invariant
            k <= row@.len(),
            sview(o@) == sview(master@) + sview(row@).take(k as int),
        decreases row@.len() - k,
    {
        let ghost b = o@;
        o.push(row[k].clone());
        assert(sview(o@) =~= sview(master@) + sview(row@).take(k + 1)) by {
            assert(sview(b).len() == b.len());
            assert(sview(row@)[k as int] == row@[k as int]@);
            assert(sview(row@).take(k + 1) =~= sview(row@).take(k as int).push(row@[k as int]@));
            assert(sview(o@) =~= sview(b).push(row@[k as int]@));
        }
        k += 1;
    }
    assert(sview(row@).take(row@.len() as int) =~= sview(row@));
    Ok(Some(o))
}

/// The key fields that a row has, in key order; missing ones are left out.
pub open spec fn present_keys(row: Seq<Seq<char>>, kf: Seq<usize>) -> Seq<Seq<char>>
    decreases kf.len(),
{
    if kf.len() == 0 {
        seq![]
    } else {
        let prev = present_keys(row, kf.drop_last());
        if kf.last() < row.len() {
            prev.push(row[kf.last() as int])
        } else {
            prev
        }
    }
}

/// `s` cut into pieces of `n` items, the last possibly shorter.
pub open spec fn chunks(s: Seq<Seq<char>>, n: nat) -> Seq<Seq<Seq<char>>>
    decreases s.len(),
{
    if s.len() == 0 || n == 0 {
        seq![]
    } else if s.len() <= n {
        seq![s]
    } else {
        seq![s.take(n as int)] + chunks(s.skip(n as int), n)
    }
}

/// The rows that spreading gives for one row: the key fields it has,
/// followed by each group of `n` of its other fields.
pub open spec fn spread_rows(row: Seq<Seq<char>>, kf: Seq<usize>, n: nat) -> Seq<Seq<Seq<char>>> {
    chunks(non_key_from(row, kf, 0), n).map_values(|c: Seq<Seq<char>>| present_keys(row, kf) + c)
}

/// The options of spreading: the key fields (the first field when none
/// is given) and the number of data fields per row (1 when not given).
pub open spec fn spec_unflatten_options(key: Option<Seq<char>>, num: Option<usize>) -> Result<(Seq<usize>, usize), Seq<char>> {
    let kf = match key {
        Some(k) => spec_parse_indices(k),
        None => Ok(seq![0usize]),
    };
    match kf {
        Err(e) => Err(e),
        Ok(k) => {
            let n = match num {
                Some(x) => x,
                None => 1usize,
            };
            if n == 0 {
                Err("Number of data per output must be greater than zero"@)
            } else {
                Ok((k, n))
            }
        },
    }
}

/// Checks the options of spreading.
pub fn unflatten_options(key: Option<&str>, num: Option<usize>) -> (r: Result<(Vec<usize>, usize), String>)
    ensures
        match spec_unflatten_options(
            match key {
                Some(k) => Some(k@),
                None => None,
            },
            num,
        ) {
            Ok((k, n)) => r matches Ok((k2, n2)) && k2@ == k && n2 == n,
            Err(e) => r matches Err(m) && m@ == e,
        },
{
    let kf = match key {
        Some(k) => match parse_indices(k) {
            Ok(v) => v,
            Err(e) => return Err(e),
        },
        None => {
            let mut v: Vec<usize> = Vec::new();
            v.push(0);
            assert(v@ =~= seq![0usize]);
            v
        },
    };
    let n = match num {
        Some(x) => x,
        None => 1,
    };
    if n == 0 {
        return Err(lit("Number of data per output must be greater than zero"));
    }
    Ok((kf, n))
}

proof fn lemma_chunk_head(a: Seq<Seq<char>>, b: Seq<Seq<char>>, n: nat)
    requires
        0 < a.len() <= n,
        a.len() == n || b.len() == 0,
    ensures
        chunks(a + b, n) == seq![a] + chunks(b, n),
{
    if b.len() == 0 {
        assert(a + b =~= a);
        assert(chunks(b, n) =~= Seq::<Seq<Seq<char>>>::empty());
        assert(seq![a] + chunks(b, n) =~= seq![a]);
    } else {
        assert((a + b).take(n as int) =~= a);
        assert((a + b).skip(n as int) =~= b);
    }
}

/// Spreads the non-key fields of a row over rows of `n_fields` fields,
/// each led by the row's key fields.
pub fn unflatten_row(key_fields: &Vec<usize>, n_fields: usize, row: &Vec<String>) -> (out: Vec<Vec<String>>)
    requires
        n_fields > 0,
    ensures
        out@.len() == spread_rows(sview(row@), key_fields@, n_fields as nat).len(),
        forall|j: int|
            0 <= j < out@.len() ==> sview(#[trigger] out@[j]@) == spread_rows(
                sview(row@),
                key_fields@,
                n_fields as nat,
            )[j],
{
    let ghost rv = sview(row@);
    let ghost kf = key_fields@;
    let ghost nn = n_fields as nat;
    let mut key_row: Vec<String> = Vec::new();
    let mut k: usize = 0;
    assert(rv.len() == row@.len());
    while k < key_fields.len()
        invariant
            k <= key_fields@.len(),
            rv == sview(row@),
            rv.len() == row@.len(),
            sview(key_row@) == present_keys(rv, kf.take(k as int)),
            kf == key_fields@,
        decreases key_fields@.len() - k,
    {
        let idx = key_fields[k];
        proof {
            assert(kf.take(k + 1).drop_last() =~= kf.take(k as int));
            assert(kf.take(k + 1).last() == idx);
        }
        let ghost b = key_row@;
        if idx < row.len() {
            key_row.push(row[idx].clone());
            assert(rv[idx as int] == row@[idx as int]@);
            assert(sview(key_row@) =~= sview(b).push(rv[idx as int]));
        }
        k += 1;
    }
    assert(kf.take(key_fields@.len() as int) =~= kf);
    let ghost keys = sview(key_row@);
    let ghost all = chunks(non_key_from(rv, kf, 0), nn);
    let mut out: Vec<Vec<String>> = Vec::new();
    let mut i: usize = 0;
    assert(Seq::<Seq<Seq<char>>>::empty() + all =~= all);
    while i < row.len()
        invariant
            i <= row@.len(),
            rv == sview(row@),
            rv.len() == row@.len(),
            kf == key_fields@,
            nn == n_fields as nat,
            n_fields > 0,
            keys == sview(key_row@),
            keys == present_keys(rv, kf),
            all == chunks(non_key_from(rv, kf, 0), nn),
            out@.len() <= all.len(),
            forall|j: int| 0 <= j < out@.len() ==> sview(#[trigger] out@[j]@) == keys + all[j],
            all.subrange(out@.len() as int, all.len() as int) == chunks(non_key_from(rv, kf, i as int), nn),
        decreases row@.len() - i,
    {
        let i0 = i;
        let mut o: Vec<String> = key_row.clone();
        assert(o@ == key_row@);
        let mut left = n_fields;
        let mut added = false;
        let ghost mut cur: Seq<Seq<char>> = seq![];
        while left > 0 && i < row.len()
            invariant
                i0 <= i <= row@.len(),
                rv == sview(row@),
                rv.len() == row@.len(),
                left <= n_fields,
                kf == key_fields@,
                cur.len() + left == n_fields,
                added == (cur.len() > 0),
                sview(o@) == keys + cur,
                cur + non_key_from(rv, kf, i as int) == non_key_from(rv, kf, i0 as int),
            decreases row@.len() - i,
        {
            if !contains_index(key_fields, i) {
                let ghost b = o@;
                o.push(row[i].clone());
                proof {
                    assert(rv[i as int] == row@[i as int]@);
                    assert(sview(o@) =~= sview(b).push(rv[i as int]));
                    assert(cur.push(rv[i as int]) + non_key_from(rv, kf, i + 1) =~= cur + non_key_from(
                        rv,
                        kf,
                        i as int,
                    ));
                    cur = cur.push(rv[i as int]);
                }
                added = true;
                left -= 1;
            } else {
                assert(non_key_from(rv, kf, i as int) == non_key_from(rv, kf, i + 1));
            }
            i += 1;
        }
        proof {
            let rest = non_key_from(rv, kf, i as int);
            if i == row@.len() {
                assert(rest =~= Seq::<Seq<char>>::empty());
            }
            if cur.len() > 0 {
                lemma_chunk_head(cur, rest, nn);
            } else {
                assert(cur + rest =~= rest);
            }
        }
        if added {
            let ghost ob = out@;
            let ghost done = all.subrange(ob.len() as int, all.len() as int);
            out.push(o);
            proof {
                assert(done == seq![cur] + chunks(non_key_from(rv, kf, i as int), nn));
                assert(done.len() > 0);
                assert(done[0] == cur);
                assert(all[ob.len() as int] == done[0]);
                assert(all.subrange(out@.len() as int, all.len() as int) =~= done.drop_first());
            }
        }
    }
    proof {
        assert(non_key_from(rv, kf, row@.len() as int) =~= Seq::<Seq<char>>::empty());
        assert(all.subrange(out@.len() as int, all.len() as int).len() == 0);
    }
    out
}


/// The data that a run of rows adds to its flattened row, in order.
pub open spec fn run_data(rows: Seq<Seq<Seq<char>>>, kf: Seq<usize>, df: Option<Seq<usize>>) -> Seq<Seq<char>>
    decreases rows.len(),
{
    if rows.len() == 0 {
        seq![]
    } else {
        run_data(rows.drop_last(), kf, df) + data_part(rows.last(), kf, df)
    }
}

/// The flattened row of a run of rows that share a key, as
/// [`FlattenState::step`] builds it: the first row's key part, then the
/// data of each row.
pub open spec fn flattened(rows: Seq<Seq<Seq<char>>>, kf: Seq<usize>, df: Option<Seq<usize>>, keep: bool) -> Seq<Seq<char>> {
    if rows.len() == 0 {
        seq![]
    } else {
        key_part(rows[0], kf, keep) + run_data(rows, kf, df)
    }
}

proof fn lemma_non_key_first(row: Seq<Seq<char>>, i: int)
    requires
        1 <= i <= row.len(),
        row.len() <= usize::MAX,
    ensures
        non_key_from(row, seq![0usize], i) == row.skip(i),
    decreases row.len() - i,
{
    if i == row.len() {
        assert(row.skip(i) =~= Seq::<Seq<char>>::empty());
    } else {
        lemma_non_key_first(row, i + 1);
        assert((i as usize) as int == i);
        assert(!seq![0usize].contains(i as usize)) by {
            if seq![0usize].contains(i as usize) {
                let k = choose|k: int| 0 <= k < 1 && seq![0usize][k] == i as usize;
                assert(seq![0usize][k] == 0usize);
            }
        }
        assert(seq![row[i]] + row.skip(i + 1) =~= row.skip(i));
    }
}

proof fn lemma_data_first(row: Seq<Seq<char>>)
    requires
        1 <= row.len() <= usize::MAX,
    ensures
        data_part(row, seq![0usize], None) == row.skip(1),
{
    lemma_non_key_first(row, 1);
    assert(seq![0usize][0] == 0usize);
    assert(seq![0usize].contains(0usize));
}

proof fn lemma_chunks_append(a: Seq<Seq<char>>, b: Seq<Seq<char>>, n: nat, q: nat)
    requires
        n > 0,
        a.len() == q * n,
    ensures
        chunks(a + b, n) == chunks(a, n) + chunks(b, n),
    decreases q,
{
    if q == 0 {
        assert(q * n == 0) by (nonlinear_arith)
            requires
                q == 0,
        ;
        assert(a.len() == 0);
        assert(a + b =~= b);
        assert(chunks(a, n) =~= Seq::<Seq<Seq<char>>>::empty());
        assert(chunks(a, n) + chunks(b, n) =~= chunks(b, n));
    } else {
        assert(q * n == (q - 1) * n + n) by (nonlinear_arith);
        assert((q - 1) * n >= 0) by (nonlinear_arith)
            requires
                q >= 1,
        ;
        if q == 1 {
            assert(q * n == n) by (nonlinear_arith)
                requires
                    q == 1,
            ;
            assert(a.len() == n);
            assert(chunks(a, n) == seq![a]);
            lemma_chunk_head(a, b, n);
        } else {
            assert((q - 1) * n > 0) by (nonlinear_arith)
                requires
                    q >= 2,
                    n > 0,
            ;
            let t = a.skip(n as int);
            lemma_chunks_append(t, b, n, (q - 1) as nat);
            assert((a + b).take(n as int) =~= a.take(n as int));
            assert((a + b).skip(n as int) =~= t + b);
            assert(chunks(a, n) == seq![a.take(n as int)] + chunks(t, n));
            assert(seq![a.take(n as int)] + (chunks(t, n) + chunks(b, n)) =~= seq![a.take(n as int)]
                + chunks(t, n) + chunks(b, n));
        }
    }
}

proof fn lemma_run_data_chunks(rows: Seq<Seq<Seq<char>>>, n: nat)
    requires
        n > 0,
        forall|j: int| 0 <= j < rows.len() ==> (#[trigger] rows[j]).len() == n + 1,
        n + 1 <= usize::MAX,
    ensures
        run_data(rows, seq![0usize], None).len() == rows.len() * n,
        chunks(run_data(rows, seq![0usize], None), n) == rows.map_values(
            |r: Seq<Seq<char>>| r.skip(1),
        ),
    decreases rows.len(),
{
    let kf = seq![0usize];
    if rows.len() == 0 {
        assert(chunks(Seq::<Seq<char>>::empty(), n) =~= Seq::<Seq<Seq<char>>>::empty());
        assert(rows.map_values(|r: Seq<Seq<char>>| r.skip(1)) =~= Seq::<Seq<Seq<char>>>::empty());
    } else {
        let prev = rows.drop_last();
        lemma_run_data_chunks(prev, n);
        let last = rows.last();
        lemma_data_first(last);
        let d = last.skip(1);
        assert(d.len() == n);
        assert(prev.len() * n + n == rows.len() * n) by (nonlinear_arith)
            requires
                prev.len() + 1 == rows.len(),
        ;
        lemma_chunks_append(run_data(prev, kf, None), d, n, prev.len());
        assert(chunks(d, n) == seq![d]);
        assert(rows.map_values(|r: Seq<Seq<char>>| r.skip(1)) =~= prev.map_values(
            |r: Seq<Seq<char>>| r.skip(1),
        ).push(d));
    }
}

/// Spreading undoes flattening: a run of rows that share their first
/// field, each with `n` fields after it, flattened by that key with the
/// key kept, and spread again by that key `n` fields at a time, gives the
/// rows back.
pub proof fn lemma_unflatten_flattened(rows: Seq<Seq<Seq<char>>>, n: nat)
    requires
        rows.len() >= 1,
        n > 0,
        rows.len() * n < usize::MAX,
        forall|j: int| 0 <= j < rows.len() ==> (#[trigger] rows[j]).len() == n + 1,
        forall|j: int| 0 <= j < rows.len() ==> (#[trigger] rows[j])[0] == rows[0][0],
    ensures
        spread_rows(flattened(rows, seq![0usize], None, true), seq![0usize], n) == rows,
{
    let kf = seq![0usize];
    assert(n <= rows.len() * n) by (nonlinear_arith)
        requires
            rows.len() >= 1,
    ;
    lemma_run_data_chunks(rows, n);
    let k = rows[0][0];
    let data = run_data(rows, kf, None);
    assert(key_part(rows[0], kf, true) =~= seq![k]);
    let f = flattened(rows, kf, None, true);
    assert(f == seq![k] + data);
    assert(f.len() == 1 + rows.len() * n);
    lemma_data_first(f);
    assert(f.skip(1) =~= data);
    assert(kf.drop_last() =~= Seq::<usize>::empty());
    assert(present_keys(f, Seq::<usize>::empty()) =~= Seq::<Seq<char>>::empty());
    assert(kf.last() == 0usize);
    assert(f[0] == k);
    assert(present_keys(f, kf) =~= seq![k]);
    let sp = spread_rows(f, kf, n);
    assert forall|j: int| 0 <= j < rows.len() implies sp[j] == rows[j] by {
        assert(seq![k] + rows[j].skip(1) =~= rows[j]);
    }
    assert(sp =~= rows);
}

} // verus!
