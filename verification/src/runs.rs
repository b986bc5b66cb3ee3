//! Commands that turn a whole input into output rows: file statistics,
//! multi-line records, fixed-width fields and side-by-side merging.
use vstd::prelude::*;
use vstd::utf8::*;
use crate::num::{int_string, spec_parse_usize, parse_usize, i64_to_string};
use crate::rows::{rows_view, lemma_rows_view_push};
use crate::table::{fixed_line, right_padded, spaces, cell, byte_len, byte_prefix};
use crate::text::{sview, split_seq, split_str, lit, push_str, trim_end, trim_end_seq, push_chars, chars_of};

verus! {

/// Per file: its name, its number of rows, and its least and greatest
/// number of fields; then the rows written so far.
pub type StatState = (Seq<char>, int, int, int, Seq<Seq<Seq<char>>>);

/// The statistics row of a file.
pub open spec fn stat_row(st: StatState) -> Seq<Seq<char>> {
    seq![st.0, int_string(st.1), int_string(st.2), int_string(st.3)]
}

/// A row of `n` fields from file `name`: a new file writes the statistics
/// of the one before (unless it had no name) and starts counting again.
pub open spec fn stat_step(st: StatState, name: Seq<char>, n: int) -> StatState {
    if st.0 != name {
        let out = if st.0.len() > 0 {
            st.4.push(stat_row(st))
        } else {
            st.4
        };
        (name, 1, if n < i32::MAX {
            n
        } else {
            i32::MAX as int
        }, if n > 0 {
            n
        } else {
            0
        }, out)
    } else {
        (st.0, st.1 + 1, if n < st.2 {
            n
        } else {
            st.2
        }, if n > st.3 {
            n
        } else {
            st.3
        }, st.4)
    }
}

/// The statistics state after rows with the given file names and field
/// counts.
pub open spec fn stat_scan(names: Seq<Seq<char>>, counts: Seq<int>) -> StatState
    decreases names.len(),
{
    if names.len() == 0 || counts.len() != names.len() {
        (seq![], 0, i32::MAX as int, 0, seq![])
    } else {
        stat_step(stat_scan(names.drop_last(), counts.drop_last()), names.last(), counts.last())
    }
}

/// The field counts of rows.
pub open spec fn field_counts(rows: Seq<Vec<String>>) -> Seq<int> {
    rows.map_values(|r: Vec<String>| r@.len() as int)
}

/// For each file in turn (a run of rows with the same file name): the
/// name, the number of rows, and the least and greatest number of fields.
pub open spec fn spec_stat(names: Seq<Seq<char>>, counts: Seq<int>) -> Seq<Seq<Seq<char>>> {
    let st = stat_scan(names, counts);
    if st.0.len() > 0 {
        st.4.push(stat_row(st))
    } else {
        st.4
    }
}

/// Row `k` belongs to the last file of the rows: every row from it on has
/// the last row's file name.
pub open spec fn in_last_file(names: Seq<Seq<char>>, k: int) -> bool {
    forall|j: int| k <= j < names.len() ==> names[j] == names.last()
}

/// Row `k` is the first row of the last file of the rows.
pub open spec fn file_start(names: Seq<Seq<char>>, k: int) -> bool {
    in_last_file(names, k) && (k == 0 || names[k - 1] != names.last())
}

/// Rows `k` to `i - 1` come from one file.
pub open spec fn same_file(names: Seq<Seq<char>>, k: int, i: int) -> bool {
    forall|j: int| k <= j < i ==> #[trigger] names[j] == names[i - 1]
}

proof fn lemma_stat_last_file(names: Seq<Seq<char>>, counts: Seq<int>)
    requires
        names.len() == counts.len(),
        names.len() > 0,
        forall|i: int| 0 <= i < counts.len() ==> 0 <= #[trigger] counts[i] < i32::MAX,
    ensures
        ({
            let st = stat_scan(names, counts);
            &&& st.0 == names.last()
            &&& forall|k: int|
                0 <= k < names.len() && in_last_file(names, k) ==> st.2 <= #[trigger] counts[k] <= st.3
            &&& exists|k: int| 0 <= k < names.len() && in_last_file(names, k) && st.2 == #[trigger] counts[k]
            &&& exists|k: int| 0 <= k < names.len() && in_last_file(names, k) && st.3 == #[trigger] counts[k]
            &&& exists|k: int| 0 <= k < names.len() && #[trigger] file_start(names, k) && st.1 == names.len() - k
        }),
    decreases names.len(),
{
    let n = names.len() as int;
    let c = counts[n - 1];
    assert(names.last() == names[n - 1]);
    assert(counts.last() == counts[n - 1]);
    assert(in_last_file(names, n - 1));
    if n == 1 {
        assert(names.drop_last().len() == 0);
        assert forall|k: int| 0 <= k < names.len() && in_last_file(names, k) implies k == n - 1 by {}
        assert(file_start(names, 0));
    } else {
        let pn = names.drop_last();
        let pc = counts.drop_last();
        assert forall|i: int| 0 <= i < pc.len() implies 0 <= #[trigger] pc[i] < i32::MAX by {
            assert(pc[i] == counts[i]);
        }
        lemma_stat_last_file(pn, pc);
        let sp = stat_scan(pn, pc);
        assert(sp.0 == names[n - 2]);
        if names[n - 1] != names[n - 2] {
            assert forall|k: int| 0 <= k < names.len() && in_last_file(names, k) implies k == n - 1 by {
                if k < n - 1 {
                    assert(names[n - 2] == names.last());
                }
            }
            assert(file_start(names, n - 1));
        } else {
            assert forall|k: int| 0 <= k < n - 1 && in_last_file(names, k) implies in_last_file(pn, k) by {
                assert forall|j: int| k <= j < pn.len() implies pn[j] == pn.last() by {
                    assert(pn[j] == names[j]);
                    assert(pn.last() == names[n - 2]);
                }
            }
            assert forall|k: int| 0 <= k < n - 1 && in_last_file(pn, k) implies in_last_file(names, k) by {
                assert forall|j: int| k <= j < names.len() implies names[j] == names.last() by {
                    if j < n - 1 {
                        assert(pn[j] == names[j]);
                    }
                }
            }
            assert forall|k: int| 0 <= k < n - 1 implies #[trigger] pc[k] == counts[k] by {}
            let k2 = choose|k: int| 0 <= k < pn.len() && in_last_file(pn, k) && sp.2 == #[trigger] pc[k];
            let k3 = choose|k: int| 0 <= k < pn.len() && in_last_file(pn, k) && sp.3 == #[trigger] pc[k];
            assert(in_last_file(names, k2));
            assert(in_last_file(names, k3));
            assert forall|k: int|
                0 <= k < names.len() && in_last_file(names, k) implies stat_scan(names, counts).2 <= #[trigger] counts[k]
                <= stat_scan(names, counts).3 by {
                if k < n - 1 {
                    assert(in_last_file(pn, k));
                    assert(pc[k] == counts[k]);
                }
            }
            assert(counts[k2] == pc[k2]);
            assert(counts[k3] == pc[k3]);
            let k4 = choose|k: int| 0 <= k < pn.len() && #[trigger] file_start(pn, k) && sp.1 == pn.len() - k;
            assert(in_last_file(names, k4));
            if k4 > 0 {
                assert(pn[k4 - 1] == names[k4 - 1]);
                assert(pn.last() == names[n - 2]);
            }
            assert(file_start(names, k4));
        }
    }
}

proof fn lemma_stat_prefix(names: Seq<Seq<char>>, counts: Seq<int>, m: int)
    requires
        names.len() == counts.len(),
        0 <= m <= names.len(),
    ensures
        ({
            let a = stat_scan(names.take(m), counts.take(m)).4;
            let b = stat_scan(names, counts).4;
            a.len() <= b.len() && b.take(a.len() as int) == a
        }),
    decreases names.len() - m,
{
    if m == names.len() {
        assert(names.take(m) =~= names);
        assert(counts.take(m) =~= counts);
        let b = stat_scan(names, counts).4;
        assert(b.take(b.len() as int) =~= b);
    } else {
        lemma_stat_prefix(names, counts, m + 1);
        assert(names.take(m + 1).drop_last() =~= names.take(m));
        assert(counts.take(m + 1).drop_last() =~= counts.take(m));
        let a = stat_scan(names.take(m), counts.take(m)).4;
        let a2 = stat_scan(names.take(m + 1), counts.take(m + 1)).4;
        let b = stat_scan(names, counts).4;
        assert(a2.len() >= a.len() && a2.take(a.len() as int) =~= a);
        assert(b.take(a.len() as int) =~= b.take(a2.len() as int).take(a.len() as int));
    }
}

/// Each file's statistics row gives the file's name and its least and
/// greatest field counts: for the rows of a file (a run of rows with one
/// name, ending at row `i - 1`), the output holds the row whose third field
/// is no more than the field count of any of those rows and equal to one
/// of them, and whose fourth field is no less than each and equal to one.
pub proof fn lemma_stat_rows(names: Seq<Seq<char>>, counts: Seq<int>, i: int)
    requires
        names.len() == counts.len(),
        0 < i <= names.len(),
        i == names.len() || names[i] != names[i - 1],
        names[i - 1].len() > 0,
        forall|k: int| 0 <= k < counts.len() ==> 0 <= #[trigger] counts[k] < i32::MAX,
    ensures
        ({
            let st = stat_scan(names.take(i), counts.take(i));
            &&& exists|p: int|
                0 <= p < spec_stat(names, counts).len() && #[trigger] spec_stat(names, counts)[p] == seq![
                    names[i - 1],
                    int_string(st.1),
                    int_string(st.2),
                    int_string(st.3),
                ]
            &&& forall|k: int| 0 <= k < i && same_file(names, k, i) ==> st.2 <= #[trigger] counts[k] <= st.3
            &&& exists|k: int| 0 <= k < i && same_file(names, k, i) && st.2 == #[trigger] counts[k]
            &&& exists|k: int| 0 <= k < i && same_file(names, k, i) && st.3 == #[trigger] counts[k]
            &&& exists|k: int|
                0 <= k < i && #[trigger] same_file(names, k, i) && (k == 0 || names[k - 1] != names[i - 1]) && st.1 == i - k
        }),
{
    let tn = names.take(i);
    let tc = counts.take(i);
    assert forall|k: int| 0 <= k < tc.len() implies 0 <= #[trigger] tc[k] < i32::MAX by {
        assert(tc[k] == counts[k]);
    }
    lemma_stat_last_file(tn, tc);
    let st = stat_scan(tn, tc);
    assert(tn.last() == names[i - 1]);
    assert forall|k: int| 0 <= k < i implies (same_file(names, k, i) == in_last_file(tn, k)) && #[trigger] tc[k] == counts[k] by {
        if same_file(names, k, i) {
            assert forall|j: int| k <= j < tn.len() implies tn[j] == tn.last() by {
                assert(tn[j] == names[j]);
            }
        }
        if in_last_file(tn, k) {
            assert forall|j: int| k <= j < i implies #[trigger] names[j] == names[i - 1] by {
                assert(tn[j] == names[j]);
            }
        }
    }
    let k2 = choose|k: int| 0 <= k < tn.len() && in_last_file(tn, k) && st.2 == #[trigger] tc[k];
    let k3 = choose|k: int| 0 <= k < tn.len() && in_last_file(tn, k) && st.3 == #[trigger] tc[k];
    assert(same_file(names, k2, i) && st.2 == counts[k2]);
    assert(same_file(names, k3, i) && st.3 == counts[k3]);
    let k4 = choose|k: int| 0 <= k < tn.len() && #[trigger] file_start(tn, k) && st.1 == tn.len() - k;
    if k4 > 0 {
        assert(tn[k4 - 1] == names[k4 - 1]);
    }
    assert(in_last_file(tn, k4));
    assert(tc[k4] == counts[k4]);
    assert(same_file(names, k4, i));
    assert forall|k: int| 0 <= k < i && same_file(names, k, i) implies st.2 <= #[trigger] counts[k] <= st.3 by {
        assert(in_last_file(tn, k));
        assert(tc[k] == counts[k]);
    }
    let row = stat_row(st);
    assert(row == seq![names[i - 1], int_string(st.1), int_string(st.2), int_string(st.3)]);
    let out = spec_stat(names, counts);
    if i == names.len() {
        assert(tn =~= names);
        assert(tc =~= counts);
        assert(out[out.len() - 1] == row);
    } else {
        lemma_stat_prefix(names, counts, i + 1);
        assert(names.take(i + 1).drop_last() =~= tn);
        assert(counts.take(i + 1).drop_last() =~= tc);
        assert(names.take(i + 1).last() == names[i]);
        let a2 = stat_scan(names.take(i + 1), counts.take(i + 1)).4;
        assert(a2 == st.4.push(row));
        let b = stat_scan(names, counts).4;
        let p = st.4.len() as int;
        assert(b.take(a2.len() as int)[p] == b[p]);
        assert(out[p] == b[p]);
    }
}

fn stat_out(name: &String, lines: i32, fmin: i32, fmax: i32) -> (r: Vec<String>)
    ensures
        sview(r@) == seq![name@, int_string(lines as int), int_string(fmin as int), int_string(fmax as int)],
{
    let mut r: Vec<String> = Vec::new();
    r.push(name.clone());
    r.push(i64_to_string(lines as i64));
    r.push(i64_to_string(fmin as i64));
    r.push(i64_to_string(fmax as i64));
    assert(sview(r@) =~= seq![name@, int_string(lines as int), int_string(fmin as int), int_string(fmax as int)]);
    r
}

/// The statistics of the rows `rows`, read from the files `names`.
pub fn run_stat(names: &Vec<String>, rows: &Vec<Vec<String>>) -> (out: Vec<Vec<String>>)
    requires
        names@.len() == rows@.len(),
        rows@.len() < i32::MAX,
        forall|i: int| 0 <= i < rows@.len() ==> (#[trigger] rows@[i])@.len() < i32::MAX,
    ensures
        rows_view(out@) == spec_stat(sview(names@), field_counts(rows@)),
{
    let ghost ns = sview(names@);
    let ghost cs = field_counts(rows@);
    let mut out: Vec<Vec<String>> = Vec::new();
    let mut filename = String::new();
    let mut lines: i32 = 0;
    let mut fmin: i32 = i32::MAX;
    let mut fmax: i32 = 0;
    let mut i: usize = 0;
    assert(rows_view(out@) =~= Seq::<Seq<Seq<char>>>::empty());
    while i < rows.len()
        invariant
            i <= rows@.len() == names@.len() < i32::MAX,
            ns == sview(names@),
            cs == field_counts(rows@),
            ns.len() == names@.len(),
            cs.len() == rows@.len(),
            0 <= lines <= i,
            forall|k: int| 0 <= k < rows@.len() ==> (#[trigger] rows@[k])@.len() < i32::MAX,
            stat_scan(ns.take(i as int), cs.take(i as int)) == (
                filename@,
                lines as int,
                fmin as int,
                fmax as int,
                rows_view(out@),
            ),
        decreases rows@.len() - i,
    {
        proof {
            assert(ns.take(i + 1).drop_last() =~= ns.take(i as int));
            assert(cs.take(i + 1).drop_last() =~= cs.take(i as int));
            assert(ns.take(i + 1).last() == names@[i as int]@);
            assert(cs.take(i + 1).last() == rows@[i as int]@.len());
        }
        let n = rows[i].len();
        assert(n < i32::MAX);
        let nn: i32 = n as i32;
        assert(cs.take(i + 1).last() == nn);
        let current = &names[i];
        if filename != *current {
            if !filename.as_str().is_empty() {
                let ghost before = out@;
                let r = stat_out(&filename, lines, fmin, fmax);
                out.push(r);
                proof {
                    lemma_rows_view_push(before, r);
                }
            }
            filename = current.clone();
            lines = 1;
            fmin = nn;
            fmax = if nn > 0 {
                nn
            } else {
                0
            };
        } else {
            lines = lines + 1;
            if nn < fmin {
                fmin = nn;
            }
            if nn > fmax {
                fmax = nn;
            }
        }
        i += 1;
    }
    assert(ns.take(rows.len() as int) =~= ns);
    assert(cs.take(rows.len() as int) =~= cs);
    if !filename.as_str().is_empty() {
        let ghost before = out@;
        let r = stat_out(&filename, lines, fmin, fmax);
        out.push(r);
        proof {
            lemma_rows_view_push(before, r);
        }
    }
    out
}

/// What the options of the multi-line reader give: the number of lines
/// per record (0 when a separator line ends records) and the separator,
/// or the error.
pub open spec fn spec_read_multi_setup(num_lines: Option<usize>, sep: Option<Seq<char>>) -> Result<
    (usize, Seq<char>),
    Seq<char>,
> {
    if num_lines is Some && sep is Some {
        Err("Cannot specify both -s and -n options"@)
    } else if num_lines is None && sep is None {
        Err("Need one of -s or -n options"@)
    } else {
        match num_lines {
            Some(n) => if n < 1 || n > 200 {
                Err("Invalid number of lines: "@ + crate::num::dec_string(n as nat))
            } else {
                Ok((n, seq![]))
            },
            None => if sep->0.len() == 0 {
                Err("Empty separator"@)
            } else {
                Ok((0usize, sep->0))
            },
        }
    }
}

/// Checks the options of the multi-line reader.
pub fn read_multi_setup(num_lines: Option<usize>, sep: Option<String>) -> (r: Result<(usize, String), String>)
    ensures
        match spec_read_multi_setup(num_lines, match sep { Some(s) => Some(s@), None => None }) {
            Ok((n, s)) => r matches Ok((m, t)) && m == n && t@ == s,
            Err(e) => r matches Err(m) && m@ == e,
        },
{
    if num_lines.is_some() && sep.is_some() {
        return Err(lit("Cannot specify both -s and -n options"));
    }
    match num_lines {
        Some(n) => {
            if n < 1 || n > 200 {
                let mut m = lit("Invalid number of lines: ");
                let t = crate::num::usize_to_string(n);
                push_str(&mut m, t.as_str());
                return Err(m);
            }
            Ok((n, String::new()))
        },
        None => match sep {
            None => Err(lit("Need one of -s or -n options")),
            Some(s) => {
                if s.as_str().is_empty() {
                    Err(lit("Empty separator"))
                } else {
                    Ok((0, s))
                }
            },
        },
    }
}

/// The record being built, the lines in it, and the records so far.
pub type MultiState = (Seq<Seq<char>>, int, Seq<Seq<Seq<char>>>);

/// One line: with a count `n`, every `n` lines make a record; without,
/// a line equal to `sep` ends the record.
pub open spec fn multi_step(st: MultiState, line: Seq<char>, n: int, sep: Seq<char>) -> MultiState {
    if n > 0 {
        if st.1 + 1 == n {
            (seq![], 0, st.2.push(st.0.push(line)))
        } else {
            (st.0.push(line), st.1 + 1, st.2)
        }
    } else if line == sep {
        (seq![], st.1 + 1, st.2.push(st.0))
    } else {
        (st.0.push(line), st.1 + 1, st.2)
    }
}

/// The state after the lines `lines`.
pub open spec fn multi_scan(lines: Seq<Seq<char>>, n: int, sep: Seq<char>) -> MultiState
    decreases lines.len(),
{
    if lines.len() == 0 {
        (seq![], 0, seq![])
    } else {
        multi_step(multi_scan(lines.drop_last(), n, sep), lines.last(), n, sep)
    }
}

/// The records of several lines each, with a last record of the lines
/// left over.
pub open spec fn spec_read_multi(lines: Seq<Seq<char>>, n: int, sep: Seq<char>) -> Seq<Seq<Seq<char>>> {
    let st = multi_scan(lines, n, sep);
    if st.0.len() > 0 {
        st.2.push(st.0)
    } else {
        st.2
    }
}

/// Joins lines into records: `n_lines` lines each, or, when `n_lines` is
/// 0, up to a line equal to `separator`.
pub fn run_read_multi(n_lines: usize, separator: &str, lines: &Vec<String>) -> (out: Vec<Vec<String>>)
    ensures
        rows_view(out@) == spec_read_multi(sview(lines@), n_lines as int, separator@),
{
    let ghost ls = sview(lines@);
    let sep_text = lit(separator);
    let mut out: Vec<Vec<String>> = Vec::new();
    let mut row: Vec<String> = Vec::new();
    let mut nread: usize = 0;
    let mut i: usize = 0;
    assert(rows_view(out@) =~= Seq::<Seq<Seq<char>>>::empty());
    assert(sview(row@) =~= Seq::<Seq<char>>::empty());
    while i < lines.len()
        invariant
            i <= lines@.len(),
            ls == sview(lines@),
            ls.len() == lines@.len(),
            sep_text@ == separator@,
            nread <= i,
            n_lines > 0 ==> nread < n_lines,
            multi_scan(ls.take(i as int), n_lines as int, separator@) == (
                sview(row@),
                nread as int,
                rows_view(out@),
            ),
        decreases lines@.len() - i,
    {
        proof {
            assert(ls.take(i + 1).drop_last() =~= ls.take(i as int));
            assert(ls.take(i + 1).last() == lines@[i as int]@);
        }
        let line = &lines[i];
        let ghost r0 = row@;
        let ghost o0 = out@;
        nread = nread + 1;
        if n_lines > 0 {
            row.push(line.clone());
            proof {
                assert(sview(row@) =~= sview(r0).push(line@));
            }
            if nread == n_lines {
                let done = row;
                out.push(done);
                proof {
                    lemma_rows_view_push(o0, done);
                }
                row = Vec::new();
                nread = 0;
                assert(sview(row@) =~= Seq::<Seq<char>>::empty());
            }
        } else {
            if *line == sep_text {
                let done = row;
                out.push(done);
                proof {
                    lemma_rows_view_push(o0, done);
                }
                row = Vec::new();
                assert(sview(row@) =~= Seq::<Seq<char>>::empty());
            } else {
                row.push(line.clone());
                proof {
                    assert(sview(row@) =~= sview(r0).push(line@));
                }
            }
        }
        i += 1;
    }
    assert(ls.take(lines.len() as int) =~= ls);
    if row.len() > 0 {
        let ghost o0 = out@;
        let done = row;
        out.push(done);
        proof {
            lemma_rows_view_push(o0, done);
        }
    }
    out
}

/// A field specification `start:count`, both positive, or the error.
pub open spec fn fixed_item(item: Seq<char>) -> Result<(usize, usize), Seq<char>> {
    let parts = split_seq(item, ':');
    if parts.len() != 2 {
        Err("Invalid field specification: "@ + item)
    } else {
        match (spec_parse_usize(parts[0]), spec_parse_usize(parts[1])) {
            (Some(a), Some(b)) => if a == 0 || b == 0 {
                Err("Invalid field specification: "@ + item)
            } else {
                Ok((a, b))
            },
            _ => Err("Invalid field specification: "@ + item),
        }
    }
}

/// The specifications of a list of items, or the first error.
pub open spec fn fixed_items(items: Seq<Seq<char>>) -> Result<Seq<(usize, usize)>, Seq<char>>
    decreases items.len(),
{
    if items.len() == 0 {
        Ok(seq![])
    } else {
        match fixed_items(items.drop_last()) {
            Err(e) => Err(e),
            Ok(v) => match fixed_item(items.last()) {
                Err(e) => Err(e),
                Ok(p) => Ok(v.push(p)),
            },
        }
    }
}

proof fn lemma_fixed_err_prefix(ps: Seq<Seq<char>>, k: int)
    requires
        0 <= k <= ps.len(),
        fixed_items(ps.take(k)) is Err,
    ensures
        fixed_items(ps) == fixed_items(ps.take(k)),
    decreases ps.len() - k,
{
    if k == ps.len() {
        assert(ps.take(k) =~= ps);
    } else {
        assert(ps.take(k + 1).drop_last() =~= ps.take(k));
        lemma_fixed_err_prefix(ps, k + 1);
    }
}

/// Parses a comma-separated list of `start:count` field specifications.
pub fn fixed_specs(fields: &str) -> (r: Result<Vec<(usize, usize)>, String>)
    ensures
        match fixed_items(split_seq(fields@, ',')) {
            Ok(v) => r matches Ok(w) && w@ == v,
            Err(e) => r matches Err(m) && m@ == e,
        },
{
    let items = split_str(fields, ',');
    let ghost ps = sview(items@);
    let mut specs: Vec<(usize, usize)> = Vec::new();
    let mut i: usize = 0;
    while i < items.len()
        invariant
            i <= items@.len(),
            ps == sview(items@),
            ps == split_seq(fields@, ','),
            ps.len() == items@.len(),
            fixed_items(ps.take(i as int)) == Ok::<Seq<(usize, usize)>, Seq<char>>(specs@),
        decreases items@.len() - i,
    {
        proof {
            assert(ps.take(i + 1).drop_last() =~= ps.take(i as int));
            assert(ps.take(i + 1).last() == items@[i as int]@);
        }
        let item = items[i].as_str();
        let parts = split_str(item, ':');
        assert(sview(parts@).len() == parts@.len());
        let mut bad = parts.len() != 2;
        let mut a: usize = 0;
        let mut b: usize = 0;
        if !bad {
            assert(sview(parts@)[0] == parts@[0]@);
            assert(sview(parts@)[1] == parts@[1]@);
            match (parse_usize(parts[0].as_str()), parse_usize(parts[1].as_str())) {
                (Some(x), Some(y)) => {
                    a = x;
                    b = y;
                    bad = x == 0 || y == 0;
                },
                _ => {
                    bad = true;
                },
            }
        }
        if bad {
            let mut m = lit("Invalid field specification: ");
            push_str(&mut m, item);
            proof {
                assert(fixed_items(ps.take(i + 1)) == Err::<Seq<(usize, usize)>, Seq<char>>(m@));
                lemma_fixed_err_prefix(ps, i + 1);
            }
            return Err(m);
        }
        specs.push((a, b));
        i += 1;
    }
    assert(ps.take(items.len() as int) =~= ps);
    Ok(specs)
}

/// The field that `start:count` (1-based) takes from a line: empty when
/// the line is shorter than `start`, with trailing whitespace removed when
/// `trim` is set.
pub open spec fn fixed_field(line: Seq<char>, spec: (usize, usize), trim: bool) -> Seq<char> {
    let (start, count) = spec;
    if start > line.len() {
        seq![]
    } else {
        let e = if line.len() < start - 1 + count {
            line.len() as int
        } else {
            start - 1 + count
        };
        let v = line.subrange(start - 1, e);
        if trim {
            trim_end_seq(v)
        } else {
            v
        }
    }
}

/// The fields that the specifications take from a line.
pub open spec fn fixed_row(line: Seq<char>, specs: Seq<(usize, usize)>, trim: bool) -> Seq<Seq<char>> {
    specs.map_values(|s: (usize, usize)| fixed_field(line, s, trim))
}

/// Cuts each line into fields by position: `specs` holds 1-based
/// `(start, count)` pairs; trailing whitespace is removed unless `keep`.
pub fn run_read_fixed(specs: &Vec<(usize, usize)>, keep: bool, lines: &Vec<String>) -> (out: Vec<
    Vec<String>,
>)
    requires
        forall|k: int| 0 <= k < specs@.len() ==> 1 <= (#[trigger] specs@[k]).0 && specs@[k].0 - 1 + specs@[k].1 <= usize::MAX,
    ensures
        out@.len() == lines@.len(),
        forall|i: int|
            0 <= i < lines@.len() ==> sview(#[trigger] out@[i]@) == fixed_row(lines@[i]@, specs@, !keep),
{
    let trim = !keep;
    let mut out: Vec<Vec<String>> = Vec::new();
    let mut i: usize = 0;
    while i < lines.len()
        invariant
            i <= lines@.len(),
            trim == !keep,
            out@.len() == i,
            forall|k: int| 0 <= k < specs@.len() ==> 1 <= (#[trigger] specs@[k]).0 && specs@[k].0 - 1 + specs@[k].1 <= usize::MAX,
            forall|j: int| 0 <= j < i ==> sview(#[trigger] out@[j]@) == fixed_row(lines@[j]@, specs@, trim),
        decreases lines@.len() - i,
    {
        let chars = chars_of(lines[i].as_str());
        let len = chars.len();
        let mut row: Vec<String> = Vec::new();
        let mut k: usize = 0;
        while k < specs.len()
            invariant
                k <= specs@.len(),
                chars@ == lines@[i as int]@,
                len == chars@.len(),
                row@.len() == k,
                forall|q: int| 0 <= q < specs@.len() ==> 1 <= (#[trigger] specs@[q]).0 && specs@[q].0 - 1 + specs@[q].1 <= usize::MAX,
                forall|q: int|
                    0 <= q < k ==> (#[trigger] row@[q])@ == fixed_field(chars@, specs@[q], trim),
            decreases specs@.len() - k,
        {
            let (start_pos, count) = specs[k];
            assert(specs@[k as int] == (start_pos, count));
            if start_pos > len {
                row.push(String::new());
            } else {
                let end_pos = if len < start_pos - 1 + count {
                    len
                } else {
                    start_pos - 1 + count
                };
                let mut v = String::new();
                push_chars(&mut v, &chars, start_pos - 1, end_pos);
                if trim {
                    row.push(trim_end(v.as_str()));
                } else {
                    row.push(v);
                }
            }
            k += 1;
        }
        assert(sview(row@) =~= fixed_row(lines@[i as int]@, specs@, trim));
        out.push(row);
        i += 1;
    }
    out
}

/// What the field list of the side-by-side merge gives: pairs of input
/// (0 for `L`, 1 for `R`) and 0-based field, or the error.
pub open spec fn inter_item(item: Seq<char>) -> Result<(usize, usize), Seq<char>> {
    if vstd::utf8::encode_utf8(item).len() < 2 {
        Err("Invalid field spec "@ + item)
    } else if !(item[0] == 'L' || item[0] == 'l' || item[0] == 'R' || item[0] == 'r') {
        Err("Invalid source spec in field spec "@ + item)
    } else {
        match spec_parse_usize(item.drop_first()) {
            None => Err("Field index not integer in field "@ + item),
            Some(f) => if f == 0 {
                Err("Field index must be 1 or greater in field "@ + item)
            } else {
                Ok((if item[0] == 'L' || item[0] == 'l' {
                    0usize
                } else {
                    1usize
                }, (f - 1) as usize))
            },
        }
    }
}

/// The pairs of a list of items, or the first error.
pub open spec fn inter_items(items: Seq<Seq<char>>) -> Result<Seq<(usize, usize)>, Seq<char>>
    decreases items.len(),
{
    if items.len() == 0 {
        Ok(seq![])
    } else {
        match inter_items(items.drop_last()) {
            Err(e) => Err(e),
            Ok(v) => match inter_item(items.last()) {
                Err(e) => Err(e),
                Ok(p) => Ok(v.push(p)),
            },
        }
    }
}

proof fn lemma_inter_err_prefix(ps: Seq<Seq<char>>, k: int)
    requires
        0 <= k <= ps.len(),
        inter_items(ps.take(k)) is Err,
    ensures
        inter_items(ps) == inter_items(ps.take(k)),
    decreases ps.len() - k,
{
    if k == ps.len() {
        assert(ps.take(k) =~= ps);
    } else {
        assert(ps.take(k + 1).drop_last() =~= ps.take(k));
        lemma_inter_err_prefix(ps, k + 1);
    }
}

/// What the options of the side-by-side merge give.
pub open spec fn spec_inter_setup(fields: Option<Seq<char>>, n_paths: nat) -> Result<Seq<(usize, usize)>, Seq<char>> {
    if n_paths != 2 {
        Err("Command requires exactly two input streams"@)
    } else {
        match fields {
            None => Ok(seq![]),
            Some(f) => inter_items(split_seq(f, ',')),
        }
    }
}

fn inter_one(item: &str) -> (r: Result<(usize, usize), String>)
    ensures
        match inter_item(item@) {
            Ok(p) => r == Ok::<(usize, usize), String>(p),
            Err(e) => r matches Err(m) && m@ == e,
        },
{
    if item.as_bytes().len() < 2 {
        let mut m = lit("Invalid field spec ");
        push_str(&mut m, item);
        return Err(m);
    }
    let cs = chars_of(item);
    proof {
        if cs@.len() == 0 {
            assert(vstd::utf8::encode_utf8(item@).len() == 0);
        }
    }
    let c = cs[0];
    if !(c == 'L' || c == 'l' || c == 'R' || c == 'r') {
        let mut m = lit("Invalid source spec in field spec ");
        push_str(&mut m, item);
        return Err(m);
    }
    let mut rest = String::new();
    push_chars(&mut rest, &cs, 1, cs.len());
    assert(rest@ =~= item@.drop_first());
    match parse_usize(rest.as_str()) {
        None => {
            let mut m = lit("Field index not integer in field ");
            push_str(&mut m, item);
            Err(m)
        },
        Some(f) => {
            if f == 0 {
                let mut m = lit("Field index must be 1 or greater in field ");
                push_str(&mut m, item);
                Err(m)
            } else {
                Ok((if c == 'L' || c == 'l' {
                    0
                } else {
                    1
                }, f - 1))
            }
        },
    }
}

/// Checks the options of the side-by-side merge: two inputs, and a field
/// list such as `L1,R2` (input `L` or `R`, then a 1-based field).
pub fn inter_setup(fields: Option<&str>, n_paths: usize) -> (r: Result<Vec<(usize, usize)>, String>)
    ensures
        match spec_inter_setup(match fields { Some(f) => Some(f@), None => None }, n_paths as nat) {
            Ok(v) => r matches Ok(w) && w@ == v,
            Err(e) => r matches Err(m) && m@ == e,
        },
{
    if n_paths != 2 {
        return Err(lit("Command requires exactly two input streams"));
    }
    let mut specs: Vec<(usize, usize)> = Vec::new();
    match fields {
        None => Ok(specs),
        Some(f) => {
            let items = split_str(f, ',');
            let ghost ps = sview(items@);
            let mut i: usize = 0;
            while i < items.len()
                invariant
                    i <= items@.len(),
                    ps == sview(items@),
                    ps == split_seq(f@, ','),
                    ps.len() == items@.len(),
                    n_paths == 2,
                    fields == Some(f),
                    inter_items(ps.take(i as int)) == Ok::<Seq<(usize, usize)>, Seq<char>>(specs@),
                decreases items@.len() - i,
            {
                proof {
                    assert(ps.take(i + 1).drop_last() =~= ps.take(i as int));
                    assert(ps.take(i + 1).last() == items@[i as int]@);
                }
                match inter_one(items[i].as_str()) {
                    Ok(p) => {
                        specs.push(p);
                    },
                    Err(m) => {
                        proof {
                            assert(inter_items(ps.take(i + 1)) == Err::<Seq<(usize, usize)>, Seq<char>>(m@));
                            lemma_inter_err_prefix(ps, i + 1);
                            assert(inter_items(ps) == Err::<Seq<(usize, usize)>, Seq<char>>(m@));
                            assert(spec_inter_setup(Some(f@), n_paths as nat) == Err::<Seq<(usize, usize)>, Seq<char>>(m@));
                        }
                        return Err(m);
                    },
                }
                i += 1;
            }
            assert(ps.take(items.len() as int) =~= ps);
            Ok(specs)
        },
    }
}

/// The row of the second input that goes with row `i` of the first: the
/// same row, or none once the second input has ended.
pub open spec fn partner(rows1: Seq<Seq<Seq<char>>>, i: int) -> Seq<Seq<char>> {
    if i < rows1.len() {
        rows1[i]
    } else {
        seq![]
    }
}

/// Field `f` of a row, or empty.
pub open spec fn field_or_empty(row: Seq<Seq<char>>, f: int) -> Seq<char> {
    if 0 <= f < row.len() {
        row[f]
    } else {
        seq![]
    }
}

/// The merged row: both rows side by side, or the listed fields.
pub open spec fn inter_row(specs: Seq<(usize, usize)>, r0: Seq<Seq<char>>, r1: Seq<Seq<char>>) -> Seq<Seq<char>> {
    if specs.len() == 0 {
        r0 + r1
    } else {
        specs.map_values(
            |s: (usize, usize)|
                field_or_empty(
                    if s.0 == 0 {
                        r0
                    } else {
                        r1
                    },
                    s.1 as int,
                ),
        )
    }
}

/// Without a field list, each row of the first input is followed by the
/// fields of the row at the same place in the second input, or by nothing
/// past the second input's end; with one, the row is the listed fields of
/// the two rows, each empty where its row has no such field.
pub proof fn lemma_inter_rows(
    fields: Option<Seq<char>>,
    rows0: Seq<Seq<Seq<char>>>,
    rows1: Seq<Seq<Seq<char>>>,
    i: int,
)
    requires
        spec_inter_setup(fields, 2) is Ok,
        0 <= i < rows0.len(),
    ensures
        fields is None ==> inter_row(spec_inter_setup(fields, 2)->Ok_0, rows0[i], partner(rows1, i)) == rows0[i]
            + (if i < rows1.len() {
            rows1[i]
        } else {
            seq![]
        }),
        ({
            let specs = spec_inter_setup(fields, 2)->Ok_0;
            let r = inter_row(specs, rows0[i], partner(rows1, i));
            specs.len() > 0 ==> r.len() == specs.len() && forall|k: int|
                0 <= k < specs.len() ==> #[trigger] r[k] == field_or_empty(
                    if specs[k].0 == 0 {
                        rows0[i]
                    } else {
                        partner(rows1, i)
                    },
                    specs[k].1 as int,
                )
        }),
{
}

/// Merges two inputs row by row.
pub fn run_inter(specs: &Vec<(usize, usize)>, rows0: &Vec<Vec<String>>, rows1: &Vec<Vec<String>>) -> (out: Vec<
    Vec<String>,
>)
    ensures
        out@.len() == rows0@.len(),
        forall|i: int|
            0 <= i < rows0@.len() ==> sview(#[trigger] out@[i]@) == inter_row(
                specs@,
                sview(rows0@[i]@),
                partner(rows_view(rows1@), i),
            ),
{
    let mut out: Vec<Vec<String>> = Vec::new();
    let empty: Vec<String> = Vec::new();
    let mut i: usize = 0;
    while i < rows0.len()
        invariant
            i <= rows0@.len(),
            empty@.len() == 0,
            out@.len() == i,
            forall|j: int|
                0 <= j < i ==> sview(#[trigger] out@[j]@) == inter_row(
                    specs@,
                    sview(rows0@[j]@),
                    partner(rows_view(rows1@), j),
                ),
        decreases rows0@.len() - i,
    {
        let r0 = &rows0[i];
        let r1 = if i < rows1.len() {
            &rows1[i]
        } else {
            &empty
        };
        proof {
            if i < rows1@.len() {
                assert(rows_view(rows1@)[i as int] == sview(rows1@[i as int]@));
            } else {
                assert(sview(empty@) =~= Seq::<Seq<char>>::empty());
            }
        }
        let mut row: Vec<String> = Vec::new();
        if specs.len() == 0 {
            let mut k: usize = 0;
            while k < r0.len()
                invariant
                    k <= r0@.len(),
                    sview(row@) == sview(r0@).take(k as int),
                decreases r0@.len() - k,
            {
                let ghost b = row@;
                row.push(r0[k].clone());
                assert(sview(row@) =~= sview(r0@).take(k + 1)) by {
                    assert(sview(b).len() == b.len());
                }
                k += 1;
            }
            let mut k: usize = 0;
            while k < r1.len()
                invariant
                    k <= r1@.len(),
                    sview(row@) == sview(r0@) + sview(r1@).take(k as int),
                decreases r1@.len() - k,
            {
                let ghost b = row@;
                row.push(r1[k].clone());
                assert(sview(row@) =~= sview(r0@) + sview(r1@).take(k + 1)) by {
                    assert(sview(b).len() == b.len());
                    assert(sview(r1@)[k as int] == r1@[k as int]@);
                    assert(sview(r1@).take(k + 1) =~= sview(r1@).take(k as int).push(r1@[k as int]@));
                    assert(sview(row@) =~= sview(b).push(r1@[k as int]@));
                }
                k += 1;
            }
            assert(sview(r0@).take(r0@.len() as int) =~= sview(r0@));
            assert(sview(r1@).take(r1@.len() as int) =~= sview(r1@));
        } else {
            let mut k: usize = 0;
            while k < specs.len()
                invariant
                    k <= specs@.len(),
                    row@.len() == k,
                    forall|q: int|
                        0 <= q < k ==> (#[trigger] row@[q])@ == field_or_empty(
                            if specs@[q].0 == 0 {
                                sview(r0@)
                            } else {
                                sview(r1@)
                            },
                            specs@[q].1 as int,
                        ),
                decreases specs@.len() - k,
            {
                let (src, f) = specs[k];
                let r = if src == 0 {
                    r0
                } else {
                    r1
                };
                if f < r.len() {
                    row.push(r[f].clone());
                } else {
                    row.push(String::new());
                }
                k += 1;
            }
            assert(sview(row@) =~= inter_row(specs@, sview(r0@), sview(r1@)));
        }
        out.push(row);
        i += 1;
    }
    out
}


/// The offset, in characters, at which field `k` of a fixed-width record
/// starts when the fields have the given widths.
pub open spec fn fixed_offset(widths: Seq<usize>, k: int) -> int
    decreases k,
{
    if k <= 0 {
        0
    } else {
        fixed_offset(widths, k - 1) + widths[k - 1]
    }
}

/// The `field:width` specifications that write fields 1, 2, ... with the
/// given widths.
pub open spec fn write_specs(widths: Seq<usize>) -> Seq<(usize, usize)> {
    Seq::new(widths.len(), |i: int| ((i + 1) as usize, widths[i]))
}

/// The `start:count` specifications that read back the fields of a record
/// written with the given widths.
pub open spec fn read_specs(widths: Seq<usize>) -> Seq<(usize, usize)> {
    Seq::new(widths.len(), |i: int| ((fixed_offset(widths, i) + 1) as usize, widths[i]))
}

proof fn lemma_offset_mono(widths: Seq<usize>, i: int, j: int)
    requires
        0 <= i <= j <= widths.len(),
    ensures
        fixed_offset(widths, i) <= fixed_offset(widths, j),
    decreases j - i,
{
    if i < j {
        lemma_offset_mono(widths, i, j - 1);
    }
}

proof fn lemma_trim_spaces(s: Seq<char>, k: int)
    requires
        k >= 0,
    ensures
        trim_end_seq(s + spaces(k)) == trim_end_seq(s),
    decreases k,
{
    if k == 0 {
        assert(s + spaces(k) =~= s);
    } else {
        let t = s + spaces(k);
        assert(t.last() == ' ');
        assert(t.drop_last() =~= s + spaces(k - 1));
        lemma_trim_spaces(s, k - 1);
    }
}

proof fn lemma_ascii_padded(s: Seq<char>, w: int)
    requires
        is_ascii_chars(s),
        s.len() <= w,
    ensures
        right_padded(s, w) == s + spaces(w - s.len()),
{
    is_ascii_chars_encode_utf8(s);
    assert(byte_len(s) == s.len());
    if s.len() == w {
        encode_utf8_decode_utf8(s);
        assert(encode_utf8(s).take(w) =~= encode_utf8(s));
        assert(byte_prefix(s, w) == s);
        assert(s + spaces(0) =~= s);
    }
}

proof fn lemma_fixed_line_parts(fs: Seq<Seq<char>>, widths: Seq<usize>, k: int)
    requires
        fs.len() == widths.len(),
        widths.len() <= usize::MAX,
        0 <= k <= widths.len(),
        forall|i: int| 0 <= i < fs.len() ==> is_ascii_chars(#[trigger] fs[i]) && fs[i].len() <= widths[i],
    ensures
        fixed_line(fs, write_specs(widths).take(k)).len() == fixed_offset(widths, k),
        forall|i: int|
            0 <= i < k ==> fixed_line(fs, write_specs(widths).take(k)).subrange(
                fixed_offset(widths, i),
                fixed_offset(widths, i) + widths[i],
            ) == #[trigger] fs[i] + spaces(widths[i] - fs[i].len()),
    decreases k,
{
    let ws = write_specs(widths);
    if k == 0 {
        assert(ws.take(0) =~= Seq::<(usize, usize)>::empty());
    } else {
        lemma_fixed_line_parts(fs, widths, k - 1);
        let prev = fixed_line(fs, ws.take(k - 1));
        assert(ws.take(k).drop_last() =~= ws.take(k - 1));
        assert(ws.take(k).last() == (k as usize, widths[k - 1]));
        assert((k as usize) as int == k);
        assert(cell(fs, k - 1) == fs[k - 1]);
        lemma_ascii_padded(fs[k - 1], widths[k - 1] as int);
        let pad = fs[k - 1] + spaces(widths[k - 1] - fs[k - 1].len());
        let line = fixed_line(fs, ws.take(k));
        assert(line == prev + pad);
        assert forall|i: int| 0 <= i < k implies line.subrange(
            fixed_offset(widths, i),
            fixed_offset(widths, i) + widths[i],
        ) == #[trigger] fs[i] + spaces(widths[i] - fs[i].len()) by {
            lemma_offset_mono(widths, 0, i);
            if i < k - 1 {
                lemma_offset_mono(widths, i + 1, k - 1);
                assert(line.subrange(fixed_offset(widths, i), fixed_offset(widths, i) + widths[i])
                    =~= prev.subrange(fixed_offset(widths, i), fixed_offset(widths, i) + widths[i]));
            } else {
                assert(line.subrange(fixed_offset(widths, i), fixed_offset(widths, i) + widths[i])
                    =~= pad);
            }
        }
    }
}

/// Reading back a written fixed-width record: ASCII fields without
/// trailing whitespace, each no longer than its width, written as fields
/// 1, 2, ... with those widths by [`write_fixed_line`], and read back by
/// [`run_read_fixed`] with the matching `start:count` specifications and
/// trimming, come back unchanged.
///
/// [`write_fixed_line`]: crate::table::write_fixed_line
pub proof fn lemma_fixed_roundtrip(fs: Seq<Seq<char>>, widths: Seq<usize>)
    requires
        fs.len() == widths.len(),
        widths.len() <= usize::MAX,
        fixed_offset(widths, widths.len() as int) < usize::MAX,
        forall|i: int|
            0 <= i < fs.len() ==> is_ascii_chars(#[trigger] fs[i]) && fs[i].len() <= widths[i]
                && trim_end_seq(fs[i]) == fs[i],
    ensures
        fixed_row(fixed_line(fs, write_specs(widths)), read_specs(widths), true) == fs,
{
    let n = widths.len() as int;
    let ws = write_specs(widths);
    assert(ws.take(n) =~= ws);
    lemma_fixed_line_parts(fs, widths, n);
    let line = fixed_line(fs, ws);
    let rs = read_specs(widths);
    let out = fixed_row(line, rs, true);
    assert forall|i: int| 0 <= i < n implies out[i] == fs[i] by {
        lemma_offset_mono(widths, 0, i);
        lemma_offset_mono(widths, i, n);
        lemma_offset_mono(widths, i + 1, n);
        let off = fixed_offset(widths, i);
        assert(rs[i] == ((off + 1) as usize, widths[i]));
        assert(((off + 1) as usize) as int == off + 1);
        if off + 1 > line.len() {
            assert(widths[i] == 0);
            assert(fs[i].len() == 0);
        } else {
            assert(line.subrange(off, off + widths[i]) == fs[i] + spaces(widths[i] - fs[i].len()));
            lemma_trim_spaces(fs[i], widths[i] - fs[i].len());
        }
    }
    assert(out =~= fs);
}

} // verus!
