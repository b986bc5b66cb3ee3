//! The counting parts of the summary command: which summary is asked for,
//! the byte sizes of the columns, and how often each key occurs. The
//! summaries that read fields as numbers are made by the caller.
use vstd::prelude::*;
use crate::args::{parse_indices, spec_parse_indices};
use crate::num::{dec_string, usize_to_string};
use crate::join::{join_key, make_join_key};
use crate::rowops::{key_position, lemma_find_key_found, lemma_unique_written, unique_written};
use crate::rows::{rows_view, lemma_rows_view_push};
use crate::table::byte_len;
use crate::text::{lit, push_str, sview};

verus! {

/// The summaries that the command makes.
#[derive(PartialEq, Eq, Structural, Clone, Copy, Debug)]
pub enum SummaryType {
    Average,
    Min,
    Max,
    Frequency,
    Median,
    Mode,
    Sum,
    Size,
}

/// An optional text argument, as a sequence.
pub open spec fn opt_text(o: Option<&str>) -> Option<Seq<char>> {
    match o {
        Some(s) => Some(s@),
        None => None,
    }
}

/// 1 for a given flag, 0 for an absent one.
pub open spec fn flag(o: Option<Seq<char>>) -> nat {
    if o is Some {
        1
    } else {
        0
    }
}

/// How many summary flags are given.
pub open spec fn summary_flags(
    avg: Option<Seq<char>>,
    min: Option<Seq<char>>,
    max: Option<Seq<char>>,
    freq: Option<Seq<char>>,
    median: Option<Seq<char>>,
    mode: Option<Seq<char>>,
    sum: Option<Seq<char>>,
    size: bool,
) -> nat {
    flag(avg) + flag(min) + flag(max) + flag(freq) + flag(median) + flag(mode) + flag(sum) + if size {
        1nat
    } else {
        0nat
    }
}

/// The summary asked for by the flags, each but `size` with its field
/// list, or the error: none given, or more than one.
pub open spec fn spec_summary_setup(
    avg: Option<Seq<char>>,
    min: Option<Seq<char>>,
    max: Option<Seq<char>>,
    freq: Option<Seq<char>>,
    median: Option<Seq<char>>,
    mode: Option<Seq<char>>,
    sum: Option<Seq<char>>,
    size: bool,
) -> Result<(SummaryType, Seq<usize>), Seq<char>> {
    let n = summary_flags(avg, min, max, freq, median, mode, sum, size);
    if n == 0 {
        Err("Need a summary flag"@)
    } else if n != 1 {
        Err("Only one summary flag allowed"@)
    } else if size {
        Ok((SummaryType::Size, seq![]))
    } else {
        let (t, f) = if avg is Some {
            (SummaryType::Average, avg->0)
        } else if min is Some {
            (SummaryType::Min, min->0)
        } else if max is Some {
            (SummaryType::Max, max->0)
        } else if freq is Some {
            (SummaryType::Frequency, freq->0)
        } else if median is Some {
            (SummaryType::Median, median->0)
        } else if mode is Some {
            (SummaryType::Mode, mode->0)
        } else {
            (SummaryType::Sum, sum->0)
        };
        match spec_parse_indices(f) {
            Ok(v) => Ok((t, v)),
            Err(e) => Err(e),
        }
    }
}

/// What the summary `t` says of an input of `n_rows` rows before it
/// summarises: every summary but the size needs a row.
pub open spec fn spec_summary_input(t: SummaryType, n_rows: nat) -> Result<(), Seq<char>> {
    if t != SummaryType::Size && n_rows == 0 {
        Err("No input"@)
    } else {
        Ok(())
    }
}

/// Refuses an empty input for every summary but the size.
pub fn summary_input(t: SummaryType, n_rows: usize) -> (r: Result<(), String>)
    ensures
        match spec_summary_input(t, n_rows as nat) {
            Ok(()) => r is Ok,
            Err(e) => r matches Err(m) && m@ == e,
        },
{
    if t != SummaryType::Size && n_rows == 0 {
        Err(lit("No input"))
    } else {
        Ok(())
    }
}

/// The summary command refuses no flag and a second flag before it reads
/// any input; with one flag other than the size and a field list that
/// reads, it refuses an empty input.
pub proof fn lemma_summary_errors(
    avg: Option<Seq<char>>,
    min: Option<Seq<char>>,
    max: Option<Seq<char>>,
    freq: Option<Seq<char>>,
    median: Option<Seq<char>>,
    mode: Option<Seq<char>>,
    sum: Option<Seq<char>>,
    size: bool,
)
    ensures
        summary_flags(avg, min, max, freq, median, mode, sum, size) == 0 ==> spec_summary_setup(
            avg,
            min,
            max,
            freq,
            median,
            mode,
            sum,
            size,
        ) == Err::<(SummaryType, Seq<usize>), Seq<char>>("Need a summary flag"@),
        summary_flags(avg, min, max, freq, median, mode, sum, size) >= 2 ==> spec_summary_setup(
            avg,
            min,
            max,
            freq,
            median,
            mode,
            sum,
            size,
        ) == Err::<(SummaryType, Seq<usize>), Seq<char>>("Only one summary flag allowed"@),
        summary_flags(avg, min, max, freq, median, mode, sum, size) == 1 && !size ==> match spec_summary_setup(
            avg,
            min,
            max,
            freq,
            median,
            mode,
            sum,
            size,
        ) {
            Ok((t, _f)) => spec_summary_input(t, 0) == Err::<(), Seq<char>>("No input"@),
            Err(_e) => true,
        },
{
}

/// Checks the flags of the summary command and reads the field list.
#[allow(clippy::too_many_arguments)]
pub fn summary_setup(
    avg: Option<&str>,
    min: Option<&str>,
    max: Option<&str>,
    freq: Option<&str>,
    median: Option<&str>,
    mode: Option<&str>,
    sum: Option<&str>,
    size: bool,
) -> (r: Result<(SummaryType, Vec<usize>), String>)
    ensures
        match spec_summary_setup(
            opt_text(avg),
            opt_text(min),
            opt_text(max),
            opt_text(freq),
            opt_text(median),
            opt_text(mode),
            opt_text(sum),
            size,
        ) {
            Ok((t, f)) => r matches Ok((t2, f2)) && t2 == t && f2@ == f,
            Err(e) => r matches Err(m) && m@ == e,
        },
{
    let mut count: usize = 0;
    let mut t = SummaryType::Size;
    let mut fields: &str = "";
    if let Some(s) = avg {
        count += 1;
        t = SummaryType::Average;
        fields = s;
    }
    if let Some(s) = min {
        count += 1;
        t = SummaryType::Min;
        fields = s;
    }
    if let Some(s) = max {
        count += 1;
        t = SummaryType::Max;
        fields = s;
    }
    if let Some(s) = freq {
        count += 1;
        t = SummaryType::Frequency;
        fields = s;
    }
    if let Some(s) = median {
        count += 1;
        t = SummaryType::Median;
        fields = s;
    }
    if let Some(s) = mode {
        count += 1;
        t = SummaryType::Mode;
        fields = s;
    }
    if let Some(s) = sum {
        count += 1;
        t = SummaryType::Sum;
        fields = s;
    }
    if size {
        count += 1;
        t = SummaryType::Size;
    }
    if count == 0 {
        return Err(lit("Need a summary flag"));
    } else if count != 1 {
        return Err(lit("Only one summary flag allowed"));
    }
    if t == SummaryType::Size {
        return Ok((t, Vec::new()));
    }
    match parse_indices(fields) {
        Ok(v) => Ok((t, v)),
        Err(e) => Err(e),
    }
}

/// The greatest number of fields of a row.
pub open spec fn max_width(rows: Seq<Seq<Seq<char>>>) -> nat
    decreases rows.len(),
{
    if rows.len() == 0 {
        0
    } else {
        let m = max_width(rows.drop_last());
        if rows.last().len() > m {
            rows.last().len()
        } else {
            m
        }
    }
}

/// The least byte length of column `k` over the rows that have it
/// (`usize::MAX` when none has).
pub open spec fn col_min(rows: Seq<Seq<Seq<char>>>, k: int) -> int
    decreases rows.len(),
{
    if rows.len() == 0 {
        usize::MAX as int
    } else {
        let m = col_min(rows.drop_last(), k);
        if 0 <= k < rows.last().len() && byte_len(rows.last()[k]) < m {
            byte_len(rows.last()[k])
        } else {
            m
        }
    }
}

/// The greatest byte length of column `k` over the rows that have it (0
/// when none has).
pub open spec fn col_max(rows: Seq<Seq<Seq<char>>>, k: int) -> int
    decreases rows.len(),
{
    if rows.len() == 0 {
        0
    } else {
        let m = col_max(rows.drop_last(), k);
        if 0 <= k < rows.last().len() && byte_len(rows.last()[k]) > m {
            byte_len(rows.last()[k])
        } else {
            m
        }
    }
}

/// The line `n: min,max` of column `k` (numbered from 1).
pub open spec fn size_line(k: int, lo: int, hi: int) -> Seq<char> {
    dec_string((k + 1) as nat) + ": "@ + dec_string(lo as nat) + ","@ + dec_string(hi as nat)
}

proof fn lemma_col_bounds(rows: Seq<Seq<Seq<char>>>, k: int)
    ensures
        0 <= col_min(rows, k) <= usize::MAX,
        0 <= col_max(rows, k),
        k >= max_width(rows) ==> col_min(rows, k) == usize::MAX && col_max(rows, k) == 0,
    decreases rows.len(),
{
    if rows.len() > 0 {
        lemma_col_bounds(rows.drop_last(), k);
    }
}

/// The least byte length of column `j` once the row `rw` is added to the
/// least lengths `m0`.
spec fn tally_min(m0: Seq<usize>, rw: Seq<Seq<char>>, j: int) -> int {
    let lo = if j < m0.len() {
        m0[j] as int
    } else {
        usize::MAX as int
    };
    if byte_len(rw[j]) < lo {
        byte_len(rw[j])
    } else {
        lo
    }
}

/// The greatest byte length of column `j` once the row `rw` is added to
/// the greatest lengths `x0`.
spec fn tally_max(x0: Seq<usize>, rw: Seq<Seq<char>>, j: int) -> int {
    let hi = if j < x0.len() {
        x0[j] as int
    } else {
        0
    };
    if byte_len(rw[j]) > hi {
        byte_len(rw[j])
    } else {
        hi
    }
}

/// The size summary as it is built, row by row: the least and greatest
/// byte length of each column so far.
pub struct SizeTally {
    pub mins: Vec<usize>,
    pub maxs: Vec<usize>,
}

impl SizeTally {
    /// Whether the tally is that of the rows `rows`.
    pub open spec fn tallied(&self, rows: Seq<Seq<Seq<char>>>) -> bool {
        &&& self.mins@.len() == self.maxs@.len()
        &&& self.mins@.len() == max_width(rows)
        &&& forall|k: int|
            0 <= k < self.mins@.len() ==> self.mins@[k] == col_min(rows, k) && self.maxs@[k]
                == col_max(rows, k)
    }

    /// The tally of no rows.
    pub fn new() -> (t: Self)
        ensures
            t.tallied(seq![]),
    {
        SizeTally { mins: Vec::new(), maxs: Vec::new() }
    }

    /// Adds a row to the tally.
    pub fn add_row(&mut self, row: &Vec<String>)
        requires
            old(self).mins@.len() == old(self).maxs@.len(),
        ensures
            forall|rows: Seq<Seq<Seq<char>>>|
                #[trigger] old(self).tallied(rows) ==> final(self).tallied(rows.push(sview(row@))),
    {
        let ghost m0 = self.mins@;
        let ghost x0 = self.maxs@;
        let ghost rw = sview(row@);
        let mut k: usize = 0;
        while k < row.len()
            invariant
                k <= row@.len(),
                rw == sview(row@),
                rw.len() == row@.len(),
                self.mins@.len() == self.maxs@.len(),
                self.mins@.len() == (if k > m0.len() {
                    k as int
                } else {
                    m0.len() as int
                }),
                forall|j: int| 0 <= j < k ==> #[trigger] self.mins@[j] == tally_min(m0, rw, j),
                forall|j: int| 0 <= j < k ==> #[trigger] self.maxs@[j] == tally_max(x0, rw, j),
                forall|j: int|
                    k <= j < self.mins@.len() ==> self.mins@[j] == m0[j] && self.maxs@[j] == x0[j],
                m0.len() == x0.len(),
            decreases row@.len() - k,
        {
            if k == self.mins.len() {
                self.mins.push(usize::MAX);
                self.maxs.push(0);
            }
            assert(rw[k as int] == row@[k as int]@);
            let sz = row[k].as_str().as_bytes().len();
            assert(sz == byte_len(rw[k as int]));
            if sz < self.mins[k] {
                self.mins.set(k, sz);
            }
            if sz > self.maxs[k] {
                self.maxs.set(k, sz);
            }
            k += 1;
        }
        proof {
            assert forall|rows: Seq<Seq<Seq<char>>>| #[trigger] old(self).tallied(rows) implies self.tallied(
                rows.push(rw),
            ) by {
                let q = rows.push(rw);
                assert(q.drop_last() =~= rows);
                assert(q.last() == rw);
                assert forall|j: int| 0 <= j < self.mins@.len() implies self.mins@[j] == col_min(q, j)
                    && self.maxs@[j] == col_max(q, j) by {
                    lemma_col_bounds(rows, j);
                }
            }
        }
    }

    /// The lines of the size summary: `n: min,max` for each column `n` in
    /// order (see [`size_line`]).
    pub fn lines(&self) -> (lines: Vec<String>)
        requires
            self.mins@.len() == self.maxs@.len(),
        ensures
            lines@.len() == self.mins@.len(),
            forall|k: int|
                0 <= k < lines@.len() ==> (#[trigger] lines@[k])@ == size_line(
                    k,
                    self.mins@[k] as int,
                    self.maxs@[k] as int,
                ),
    {
        let mut lines: Vec<String> = Vec::new();
        let mut k: usize = 0;
        while k < self.mins.len()
            invariant
                k <= self.mins@.len(),
                self.mins@.len() == self.maxs@.len(),
                lines@.len() == k,
                forall|j: int|
                    0 <= j < k ==> (#[trigger] lines@[j])@ == size_line(
                        j,
                        self.mins@[j] as int,
                        self.maxs@[j] as int,
                    ),
            decreases self.mins@.len() - k,
        {
            let mut s = usize_to_string(k + 1);
            push_str(&mut s, ": ");
            let lo = usize_to_string(self.mins[k]);
            push_str(&mut s, lo.as_str());
            push_str(&mut s, ",");
            let hi = usize_to_string(self.maxs[k]);
            push_str(&mut s, hi.as_str());
            proof {
                reveal_strlit(": ");
                reveal_strlit(",");
                assert(s@ =~= size_line(k as int, self.mins@[k as int] as int, self.maxs@[k as int] as int));
            }
            lines.push(s);
            k += 1;
        }
        lines
    }
}

/// The keys of the rows: the chosen fields of each, each followed by a NUL
/// (nothing for a field past the row's end).
pub open spec fn row_keys(rows: Seq<Seq<Seq<char>>>, fields: Seq<usize>) -> Seq<Seq<char>> {
    rows.map_values(|r: Seq<Seq<char>>| join_key(r, fields, false))
}

/// How many of `keys` equal `k`.
pub open spec fn key_count(keys: Seq<Seq<char>>, k: Seq<char>) -> nat
    decreases keys.len(),
{
    if keys.len() == 0 {
        0
    } else {
        key_count(keys.drop_last(), k) + if keys.last() == k {
            1nat
        } else {
            0nat
        }
    }
}

/// A row after a count.
pub open spec fn counted(n: nat, row: Seq<Seq<char>>) -> Seq<Seq<char>> {
    seq![dec_string(n)] + row
}

/// The greatest number of times that the key of one of the first `n` rows
/// occurs among all the keys.
pub open spec fn max_key_count(keys: Seq<Seq<char>>, n: int) -> nat
    decreases n,
{
    if n <= 0 {
        0
    } else {
        let m = max_key_count(keys, n - 1);
        let c = key_count(keys, keys[n - 1]);
        if c > m {
            c
        } else {
            m
        }
    }
}

/// The first `n` rows whose key is `g`, in order, each after the count `m`.
pub open spec fn group_rows(rows: Seq<Seq<Seq<char>>>, keys: Seq<Seq<char>>, g: Seq<char>, m: nat, n: int) -> Seq<Seq<Seq<char>>>
    decreases n,
{
    if n <= 0 {
        seq![]
    } else {
        group_rows(rows, keys, g, m, n - 1) + if keys[n - 1] == g {
            seq![counted(m, rows[n - 1])]
        } else {
            seq![]
        }
    }
}

/// For each key of `gs` in turn that occurs `m` times, its rows, each
/// after `m`.
pub open spec fn mode_groups(rows: Seq<Seq<Seq<char>>>, keys: Seq<Seq<char>>, gs: Seq<Seq<char>>, m: nat) -> Seq<Seq<Seq<char>>>
    decreases gs.len(),
{
    if gs.len() == 0 {
        seq![]
    } else {
        mode_groups(rows, keys, gs.drop_last(), m) + if key_count(keys, gs.last()) == m {
            group_rows(rows, keys, gs.last(), m, rows.len() as int)
        } else {
            seq![]
        }
    }
}

proof fn lemma_count_absent(keys: Seq<Seq<char>>, k: Seq<char>)
    requires
        forall|j: int| 0 <= j < keys.len() ==> keys[j] != k,
    ensures
        key_count(keys, k) == 0,
    decreases keys.len(),
{
    if keys.len() > 0 {
        lemma_count_absent(keys.drop_last(), k);
    }
}

proof fn lemma_count_bound(keys: Seq<Seq<char>>, k: Seq<char>)
    ensures
        key_count(keys, k) <= keys.len(),
    decreases keys.len(),
{
    if keys.len() > 0 {
        lemma_count_bound(keys.drop_last(), k);
    }
}

/// The rows' keys, the distinct keys in the order first seen, how often
/// each occurs, and the position of each row's key among them.
#[verifier::spinoff_prover]
fn group_by_key(rows: &Vec<Vec<String>>, fields: &Vec<usize>) -> (g: (
    Vec<String>,
    Vec<String>,
    Vec<usize>,
    Vec<usize>,
))
    ensures
        sview(g.0@) == row_keys(rows_view(rows@), fields@),
        sview(g.1@) == unique_written(sview(g.0@)),
        g.2@.len() == g.1@.len(),
        forall|h: int| 0 <= h < g.1@.len() ==> g.2@[h] == key_count(sview(g.0@), #[trigger] g.1@[h]@),
        g.3@.len() == rows@.len(),
        forall|j: int|
            0 <= j < rows@.len() ==> (#[trigger] g.3@[j]) < g.1@.len() && g.1@[g.3@[j] as int]@
                == g.0@[j]@,
{
    let ghost rv = rows_view(rows@);
    let ghost ks = row_keys(rv, fields@);
    let mut keys: Vec<String> = Vec::new();
    let mut dk: Vec<String> = Vec::new();
    let mut counts: Vec<usize> = Vec::new();
    let mut gi: Vec<usize> = Vec::new();
    let mut i: usize = 0;
    assert(ks.take(0) =~= Seq::<Seq<char>>::empty());
    assert(sview(dk@) =~= Seq::<Seq<char>>::empty());
    while i < rows.len()
        invariant
            i <= rows@.len(),
            rv == rows_view(rows@),
            ks == row_keys(rv, fields@),
            ks.len() == rows@.len(),
            sview(keys@) == ks.take(i as int),
            sview(dk@) == unique_written(ks.take(i as int)),
            counts@.len() == dk@.len(),
            forall|h: int|
                0 <= h < dk@.len() ==> counts@[h] == key_count(ks.take(i as int), #[trigger] dk@[h]@)
                    && counts@[h] <= i,
            gi@.len() == i,
            forall|j: int|
                0 <= j < i ==> (#[trigger] gi@[j]) < dk@.len() && dk@[gi@[j] as int]@ == ks[j],
        decreases rows@.len() - i,
    {
        let key = make_join_key(&rows[i], fields, false);
        let ghost p = ks.take(i as int);
        let ghost q = ks.take(i + 1);
        proof {
            assert(rv[i as int] == sview(rows@[i as int]@));
            assert(key@ == ks[i as int]);
            assert(q.drop_last() =~= p);
            assert(q.last() == key@);
            lemma_unique_written(p);
            assert(sview(dk@).len() == dk@.len());
        }
        let ghost kv = keys@;
        keys.push(key.clone());
        assert(sview(keys@) =~= sview(kv).push(key@));
        assert(sview(keys@) =~= q);
        match key_position(&dk, &key) {
            Some(h) => {
                proof {
                    lemma_find_key_found(sview(dk@), key@);
                    assert(sview(dk@)[h as int] == dk@[h as int]@);
                    assert(unique_written(q) == unique_written(p));
                    lemma_count_bound(p, key@);
                }
                let c = counts[h];
                counts.set(h, c + 1);
                gi.push(h);
                proof {
                    assert forall|h2: int| 0 <= h2 < dk@.len() implies counts@[h2] == key_count(
                        q,
                        #[trigger] dk@[h2]@,
                    ) && counts@[h2] <= i + 1 by {
                        if h2 != h {
                            assert(sview(dk@)[h2] == dk@[h2]@);
                            assert(dk@[h2]@ != key@);
                        }
                    }
                    assert forall|j: int| 0 <= j < i + 1 implies (#[trigger] gi@[j]) < dk@.len()
                        && dk@[gi@[j] as int]@ == ks[j] by {
                        if j == i {
                        }
                    }
                }
            },
            None => {
                proof {
                    lemma_find_key_found(sview(dk@), key@);
                    assert forall|j: int| 0 <= j < p.len() implies p[j] != key@ by {
                        assert(p[j] == ks[j]);
                        assert(sview(dk@)[gi@[j] as int] == dk@[gi@[j] as int]@);
                        assert(sview(dk@).contains(p[j]));
                    }
                    lemma_count_absent(p, key@);
                    assert(unique_written(q) == unique_written(p).push(key@));
                }
                let ghost d0 = dk@;
                let n = dk.len();
                dk.push(key);
                counts.push(1);
                gi.push(n);
                proof {
                    assert(sview(dk@) =~= sview(d0).push(dk@[n as int]@));
                    assert forall|h2: int| 0 <= h2 < dk@.len() implies counts@[h2] == key_count(
                        q,
                        #[trigger] dk@[h2]@,
                    ) && counts@[h2] <= i + 1 by {
                        if h2 < n {
                            assert(sview(d0)[h2] == d0[h2]@);
                            assert(sview(d0).contains(d0[h2]@));
                            assert(d0[h2]@ != key@);
                        }
                    }
                    assert forall|j: int| 0 <= j < i + 1 implies (#[trigger] gi@[j]) < dk@.len()
                        && dk@[gi@[j] as int]@ == ks[j] by {
                        if j < i {
                            assert(dk@[gi@[j] as int] == d0[gi@[j] as int]);
                        }
                    }
                }
            },
        }
        i += 1;
    }
    assert(ks.take(rows@.len() as int) =~= ks);
    (keys, dk, counts, gi)
}

/// `first` followed by the fields of `row`.
fn prefixed_row(first: String, row: &Vec<String>) -> (r: Vec<String>)
    ensures
        sview(r@) == seq![first@] + sview(row@),
{
    let mut out: Vec<String> = Vec::new();
    out.push(first);
    let mut k: usize = 0;
    assert(sview(row@).take(0) =~= Seq::<Seq<char>>::empty());
    assert(sview(out@) =~= seq![out@[0]@] + sview(row@).take(0));
    while k < row.len()
        invariant
            k <= row@.len(),
            out@.len() >= 1,
            sview(out@) == seq![first@] + sview(row@).take(k as int),
        decreases row@.len() - k,
    {
        let ghost b = out@;
        let f = row[k].clone();
        out.push(f);
        assert(sview(out@) =~= sview(b).push(row@[k as int]@));
        assert(sview(row@).take(k + 1) =~= sview(row@).take(k as int).push(row@[k as int]@));
        k += 1;
    }
    assert(sview(row@).take(row@.len() as int) =~= sview(row@));
    out
}

/// The frequency summary: each row, in order, after the number of rows
/// that share its key.
pub fn freq_rows(rows: &Vec<Vec<String>>, fields: &Vec<usize>) -> (out: Vec<Vec<String>>)
    ensures
        out@.len() == rows@.len(),
        forall|j: int|
            0 <= j < rows@.len() ==> sview((#[trigger] out@[j])@) == counted(
                key_count(
                    row_keys(rows_view(rows@), fields@),
                    row_keys(rows_view(rows@), fields@)[j],
                ),
                rows_view(rows@)[j],
            ),
{
    let ghost rv = rows_view(rows@);
    let ghost ks = row_keys(rv, fields@);
    let (keys, dk, counts, gi) = group_by_key(rows, fields);
    let mut out: Vec<Vec<String>> = Vec::new();
    let mut j: usize = 0;
    while j < rows.len()
        invariant
            j <= rows@.len(),
            rv == rows_view(rows@),
            ks == row_keys(rv, fields@),
            sview(keys@) == ks,
            counts@.len() == dk@.len(),
            forall|h: int| 0 <= h < dk@.len() ==> counts@[h] == key_count(ks, #[trigger] dk@[h]@),
            gi@.len() == rows@.len(),
            forall|i: int|
                0 <= i < rows@.len() ==> (#[trigger] gi@[i]) < dk@.len() && dk@[gi@[i] as int]@
                    == keys@[i]@,
            out@.len() == j,
            forall|i: int|
                0 <= i < j ==> sview((#[trigger] out@[i])@) == counted(key_count(ks, ks[i]), rv[i]),
        decreases rows@.len() - j,
    {
        let g = gi[j];
        assert(sview(keys@)[j as int] == keys@[j as int]@);
        let c = usize_to_string(counts[g]);
        let r = prefixed_row(c, &rows[j]);
        assert(rv[j as int] == sview(rows@[j as int]@));
        out.push(r);
        j += 1;
    }
    out
}

/// The mode summary: for each key, in the order first seen, that occurs
/// most often, its rows in order, each after that number of occurrences.
pub fn mode_rows(rows: &Vec<Vec<String>>, fields: &Vec<usize>) -> (out: Vec<Vec<String>>)
    ensures
        ({
            let rv = rows_view(rows@);
            let ks = row_keys(rv, fields@);
            rows_view(out@) == mode_groups(rv, ks, unique_written(ks), max_key_count(ks, ks.len() as int))
        }),
{
    let ghost rv = rows_view(rows@);
    let ghost ks = row_keys(rv, fields@);
    let (keys, dk, counts, gi) = group_by_key(rows, fields);
    proof {
        lemma_unique_written(ks);
        assert(sview(dk@).len() == dk@.len());
    }
    let mut maxc: usize = 0;
    let mut j: usize = 0;
    while j < rows.len()
        invariant
            j <= rows@.len(),
            ks.len() == rows@.len(),
            sview(keys@) == ks,
            counts@.len() == dk@.len(),
            forall|h: int| 0 <= h < dk@.len() ==> counts@[h] == key_count(ks, #[trigger] dk@[h]@),
            gi@.len() == rows@.len(),
            forall|i: int|
                0 <= i < rows@.len() ==> (#[trigger] gi@[i]) < dk@.len() && dk@[gi@[i] as int]@
                    == keys@[i]@,
            maxc == max_key_count(ks, j as int),
        decreases rows@.len() - j,
    {
        let c = counts[gi[j]];
        assert(sview(keys@)[j as int] == keys@[j as int]@);
        if c > maxc {
            maxc = c;
        }
        j += 1;
    }
    let ghost gs = sview(dk@);
    let ghost m = maxc as nat;
    let mut out: Vec<Vec<String>> = Vec::new();
    let mut h: usize = 0;
    assert(gs.take(0) =~= Seq::<Seq<char>>::empty());
    assert(rows_view(out@) =~= Seq::<Seq<Seq<char>>>::empty());
    while h < dk.len()
        invariant
            h <= dk@.len(),
            rv == rows_view(rows@),
            ks == row_keys(rv, fields@),
            ks.len() == rows@.len(),
            sview(keys@) == ks,
            gs == sview(dk@),
            gs == unique_written(ks),
            forall|a: int, b: int| 0 <= a < b < gs.len() ==> gs[a] != gs[b],
            counts@.len() == dk@.len(),
            forall|h2: int| 0 <= h2 < dk@.len() ==> counts@[h2] == key_count(ks, #[trigger] dk@[h2]@),
            gi@.len() == rows@.len(),
            forall|i: int|
                0 <= i < rows@.len() ==> (#[trigger] gi@[i]) < dk@.len() && dk@[gi@[i] as int]@
                    == keys@[i]@,
            m == maxc,
            rows_view(out@) == mode_groups(rv, ks, gs.take(h as int), m),
        decreases dk@.len() - h,
    {
        let ghost before = rows_view(out@);
        let ghost g = gs[h as int];
        assert(gs[h as int] == dk@[h as int]@);
        if counts[h] == maxc {
            let mut j: usize = 0;
            assert(before + group_rows(rv, ks, g, m, 0) =~= before);
            while j < rows.len()
                invariant
                    j <= rows@.len(),
                    h < dk@.len(),
                    rv == rows_view(rows@),
                    ks.len() == rows@.len(),
                    sview(keys@) == ks,
                    gs == sview(dk@),
                    g == gs[h as int],
                    forall|a: int, b: int| 0 <= a < b < gs.len() ==> gs[a] != gs[b],
                    gi@.len() == rows@.len(),
                    forall|i: int|
                        0 <= i < rows@.len() ==> (#[trigger] gi@[i]) < dk@.len() && dk@[gi@[i] as int]@
                            == keys@[i]@,
                    m == maxc,
                    rows_view(out@) == before + group_rows(rv, ks, g, m, j as int),
                decreases rows@.len() - j,
            {
                let ghost o = out@;
                proof {
                    assert(sview(keys@)[j as int] == keys@[j as int]@);
                    assert(gs[gi@[j as int] as int] == dk@[gi@[j as int] as int]@);
                    if ks[j as int] == g && gi@[j as int] != h {
                        let a = gi@[j as int] as int;
                        if a < h {
                            assert(gs[a] != gs[h as int]);
                        } else {
                            assert(gs[h as int] != gs[a]);
                        }
                    }
                }
                if gi[j] == h {
                    let c = usize_to_string(maxc);
                    let r = prefixed_row(c, &rows[j]);
                    assert(rv[j as int] == sview(rows@[j as int]@));
                    out.push(r);
                    proof {
                        lemma_rows_view_push(o, r);
                        assert(rows_view(out@) =~= before + group_rows(rv, ks, g, m, j + 1));
                    }
                } else {
                    assert(group_rows(rv, ks, g, m, j + 1) =~= group_rows(rv, ks, g, m, j as int));
                }
                j += 1;
            }
        }
        proof {
            assert(gs.take(h + 1).drop_last() =~= gs.take(h as int));
            assert(gs.take(h + 1).last() == g);
            if counts@[h as int] != maxc {
                assert(rows_view(out@) =~= mode_groups(rv, ks, gs.take(h + 1), m));
            } else {
                assert(rows_view(out@) =~= mode_groups(rv, ks, gs.take(h + 1), m));
            }
        }
        h += 1;
    }
    assert(gs.take(dk@.len() as int) =~= gs);
    out
}

} // verus!
