//! The row selection of the find and remove commands: its options, the
//! patterns it searches for, and the decision for one row.
use vstd::prelude::*;
use crate::join::{text_less, text_lt};
use crate::num::{parse_i32, spec_parse_i32};
use crate::pattern::{Pattern, regex_build_error, regex_escaped, regex_finds, regex_is_match};
use crate::rows::contains_index;
use crate::table::byte_len;
use crate::text::{lit, push_str, split_seq, split_str, sview};

verus! {

/// The byte-length range of a `-l` option `n` or `n1:n2`, or its error.
pub open spec fn length_item(l: Seq<char>) -> Result<(usize, usize), Seq<char>> {
    let parts = split_seq(l, ':');
    let bad = "Invalid range: "@ + l;
    let nums: Option<(i32, i32)> = if parts.len() == 1 {
        match spec_parse_i32(parts[0]) {
            Some(n) => Some((n, n)),
            None => None,
        }
    } else if parts.len() == 2 {
        match (spec_parse_i32(parts[0]), spec_parse_i32(parts[1])) {
            (Some(a), Some(b)) => Some((a, b)),
            _ => None,
        }
    } else {
        None
    };
    match nums {
        None => Err(bad),
        Some((a, b)) => if a < 0 || b < 0 || a > b {
            Err(bad)
        } else {
            Ok((a as usize, b as usize))
        },
    }
}

/// The ranges of a list of `-l` options, or the first error.
pub open spec fn length_items(ls: Seq<Seq<char>>) -> Result<Seq<(usize, usize)>, Seq<char>>
    decreases ls.len(),
{
    if ls.len() == 0 {
        Ok(seq![])
    } else {
        match length_items(ls.drop_last()) {
            Err(e) => Err(e),
            Ok(v) => match length_item(ls.last()) {
                Err(e) => Err(e),
                Ok(p) => Ok(v.push(p)),
            },
        }
    }
}

proof fn lemma_length_err_prefix(ls: Seq<Seq<char>>, k: int)
    requires
        0 <= k <= ls.len(),
        length_items(ls.take(k)) is Err,
    ensures
        length_items(ls) == length_items(ls.take(k)),
    decreases ls.len() - k,
{
    if k == ls.len() {
        assert(ls.take(k) =~= ls);
    } else {
        assert(ls.take(k + 1).drop_last() =~= ls.take(k));
        lemma_length_err_prefix(ls, k + 1);
    }
}

/// Parses one `-l` option (see [`length_item`]).
fn parse_length(l: &str) -> (r: Result<(usize, usize), String>)
    ensures
        match length_item(l@) {
            Ok(p) => r == Ok::<(usize, usize), String>(p),
            Err(e) => r matches Err(m) && m@ == e,
        },
{
    let parts = split_str(l, ':');
    assert(sview(parts@).len() == parts@.len());
    let mut nums: Option<(i32, i32)> = None;
    if parts.len() == 1 {
        assert(sview(parts@)[0] == parts@[0]@);
        if let Some(n) = parse_i32(parts[0].as_str()) {
            nums = Some((n, n));
        }
    } else if parts.len() == 2 {
        assert(sview(parts@)[0] == parts@[0]@);
        assert(sview(parts@)[1] == parts@[1]@);
        let a = parse_i32(parts[0].as_str());
        let b = parse_i32(parts[1].as_str());
        if let (Some(x), Some(y)) = (a, b) {
            nums = Some((x, y));
        }
    }
    match nums {
        Some((a, b)) => {
            if a >= 0 && b >= 0 && a <= b {
                return Ok((a as usize, b as usize));
            }
        },
        None => {},
    }
    let mut m = lit("Invalid range: ");
    push_str(&mut m, l);
    Err(m)
}

/// Parses the `-l` options: each `n` or `n1:n2`, non-negative with
/// `n1 <= n2`, a range of byte lengths.
pub fn parse_lengths(ls: &Vec<String>) -> (r: Result<Vec<(usize, usize)>, String>)
    ensures
        match length_items(sview(ls@)) {
            Ok(v) => r matches Ok(w) && w@ == v,
            Err(e) => r matches Err(m) && m@ == e,
        },
{
    let ghost ps = sview(ls@);
    let mut out: Vec<(usize, usize)> = Vec::new();
    let mut i: usize = 0;
    while i < ls.len()
        invariant
            i <= ls@.len(),
            ps == sview(ls@),
            length_items(ps.take(i as int)) == Ok::<Seq<(usize, usize)>, Seq<char>>(out@),
        decreases ls@.len() - i,
    {
        proof {
            assert(ps.take(i + 1).drop_last() =~= ps.take(i as int));
            assert(ps.take(i + 1).last() == ls@[i as int]@);
        }
        match parse_length(ls[i].as_str()) {
            Ok(p) => {
                out.push(p);
            },
            Err(e) => {
                proof {
                    lemma_length_err_prefix(ps, i + 1);
                }
                return Err(e);
            },
        }
        i += 1;
    }
    assert(ps.take(ls@.len() as int) =~= ps);
    Ok(out)
}

/// A bound of a `-fc` option: empty for `dflt`, else an integer.
pub open spec fn fc_bound(s: Seq<char>, dflt: i32) -> Option<i32> {
    if s.len() == 0 {
        Some(dflt)
    } else {
        spec_parse_i32(s)
    }
}

/// The field-count range of a `-fc` option `n`, `lo:hi`, `lo:` or `:hi`,
/// or its error.
pub open spec fn spec_parse_fcount(fc: Seq<char>) -> Result<(i32, i32), Seq<char>> {
    let parts = split_seq(fc, ':');
    let not_int = "Field counts must be integers for -fc"@;
    if parts.len() == 1 {
        match spec_parse_i32(parts[0]) {
            None => Err(not_int),
            Some(n) => Ok((n, n)),
        }
    } else if parts.len() == 2 {
        match (fc_bound(parts[0], 0), fc_bound(parts[1], i32::MAX)) {
            (Some(lo), Some(hi)) => if lo > hi {
                Err("invalid field count specified by -fc"@)
            } else {
                Ok((lo, hi))
            },
            _ => Err(not_int),
        }
    } else {
        Err("Invalid field count for -fc flag"@)
    }
}

/// Parses a `-fc` option (see [`spec_parse_fcount`]).
pub fn parse_fcount(fc: &str) -> (r: Result<(i32, i32), String>)
    ensures
        match spec_parse_fcount(fc@) {
            Ok(p) => r == Ok::<(i32, i32), String>(p),
            Err(e) => r matches Err(m) && m@ == e,
        },
{
    let parts = split_str(fc, ':');
    assert(sview(parts@).len() == parts@.len());
    if parts.len() == 1 {
        assert(sview(parts@)[0] == parts@[0]@);
        match parse_i32(parts[0].as_str()) {
            None => Err(lit("Field counts must be integers for -fc")),
            Some(n) => Ok((n, n)),
        }
    } else if parts.len() == 2 {
        assert(sview(parts@)[0] == parts@[0]@);
        assert(sview(parts@)[1] == parts@[1]@);
        let lo = if parts[0].as_str().is_empty() {
            Some(0i32)
        } else {
            parse_i32(parts[0].as_str())
        };
        let hi = if parts[1].as_str().is_empty() {
            Some(i32::MAX)
        } else {
            parse_i32(parts[1].as_str())
        };
        match (lo, hi) {
            (Some(a), Some(b)) => if a > b {
                Err(lit("invalid field count specified by -fc"))
            } else {
                Ok((a, b))
            },
            _ => Err(lit("Field counts must be integers for -fc")),
        }
    } else {
        Err(lit("Invalid field count for -fc flag"))
    }
}

/// The search items of a list of texts: `(text, literal, case-insensitive)`.
pub open spec fn tagged(ts: Seq<Seq<char>>, literal: bool, ic: bool) -> Seq<(Seq<char>, bool, bool)> {
    ts.map_values(|t: Seq<char>| (t, literal, ic))
}

/// The search items of the options, in the order the patterns are built:
/// regexes, case-insensitive regexes, then literal strings of `-s` and of
/// `-si` (both compiled case-sensitively).
pub open spec fn find_items(
    exprs: Seq<Seq<char>>,
    exprs_ic: Seq<Seq<char>>,
    strings: Seq<Seq<char>>,
    strings_ic: Seq<Seq<char>>,
) -> Seq<(Seq<char>, bool, bool)> {
    tagged(exprs, false, false) + tagged(exprs_ic, false, true) + tagged(strings, true, false)
        + tagged(strings_ic, true, false)
}

/// The pattern text of a search item: a literal is escaped.
pub open spec fn item_pattern(t: Seq<char>, literal: bool) -> Seq<char> {
    if literal {
        regex_escaped(t)
    } else {
        t
    }
}

/// The compiled patterns `(pattern, case-insensitive)` of the search
/// items, or the error of the first that does not compile.
pub open spec fn compiled_patterns(items: Seq<(Seq<char>, bool, bool)>) -> Result<
    Seq<(Seq<char>, bool)>,
    Seq<char>,
>
    decreases items.len(),
{
    if items.len() == 0 {
        Ok(seq![])
    } else {
        match compiled_patterns(items.drop_last()) {
            Err(e) => Err(e),
            Ok(v) => {
                let (t, literal, ic) = items.last();
                let pat = item_pattern(t, literal);
                match regex_build_error(pat, ic) {
                    Some(e) => Err("Invalid regex: "@ + t + ": "@ + e),
                    None => Ok(v.push((pat, ic))),
                }
            },
        }
    }
}

proof fn lemma_compiled_err_prefix(items: Seq<(Seq<char>, bool, bool)>, k: int)
    requires
        0 <= k <= items.len(),
        compiled_patterns(items.take(k)) is Err,
    ensures
        compiled_patterns(items) == compiled_patterns(items.take(k)),
    decreases items.len() - k,
{
    if k == items.len() {
        assert(items.take(k) =~= items);
    } else {
        assert(items.take(k + 1).drop_last() =~= items.take(k));
        lemma_compiled_err_prefix(items, k + 1);
    }
}

/// The views `(pattern, case-insensitive)` of compiled patterns.
pub open spec fn pattern_views(ps: Seq<Pattern>) -> Seq<(Seq<char>, bool)> {
    ps.map_values(|p: Pattern| p@)
}

/// Compiles the texts of `list` as search items tagged `literal` and `ic`,
/// after the items `prev` whose patterns `out` holds.
fn compile_list(
    out: &mut Vec<Pattern>,
    list: &Vec<String>,
    literal: bool,
    ic: bool,
    Ghost(prev): Ghost<Seq<(Seq<char>, bool, bool)>>,
) -> (r: Result<(), String>)
    requires
        compiled_patterns(prev) == Ok::<Seq<(Seq<char>, bool)>, Seq<char>>(pattern_views(old(out)@)),
    ensures
        match compiled_patterns(prev + tagged(sview(list@), literal, ic)) {
            Ok(v) => r is Ok && pattern_views(final(out)@) == v,
            Err(e) => r matches Err(m) && m@ == e,
        },
{
    let ghost t = tagged(sview(list@), literal, ic);
    let mut j: usize = 0;
    assert(prev + t.take(0) =~= prev);
    while j < list.len()
        invariant
            j <= list@.len(),
            t == tagged(sview(list@), literal, ic),
            t.len() == list@.len(),
            compiled_patterns(prev + t.take(j as int)) == Ok::<Seq<(Seq<char>, bool)>, Seq<char>>(
                pattern_views(out@),
            ),
        decreases list@.len() - j,
    {
        let ghost s1 = prev + t.take(j + 1);
        proof {
            assert(s1.drop_last() =~= prev + t.take(j as int));
            assert(sview(list@)[j as int] == list@[j as int]@);
            assert(s1.last() == (list@[j as int]@, literal, ic));
        }
        let built = if literal {
            Pattern::literal(list[j].as_str(), ic)
        } else {
            Pattern::new(list[j].as_str(), ic)
        };
        match built {
            Ok(p) => {
                let ghost before = out@;
                out.push(p);
                assert(pattern_views(out@) =~= pattern_views(before).push(p@));
            },
            Err(e) => {
                let mut m = lit("Invalid regex: ");
                push_str(&mut m, list[j].as_str());
                push_str(&mut m, ": ");
                push_str(&mut m, e.as_str());
                proof {
                    let whole = prev + t;
                    assert(whole.take(prev.len() + j + 1) =~= s1);
                    lemma_compiled_err_prefix(whole, prev.len() + j + 1);
                }
                return Err(m);
            },
        }
        j += 1;
    }
    assert(t.take(list@.len() as int) =~= t);
    Ok(())
}

/// Compiles the search patterns of the options in order: regexes,
/// case-insensitive regexes, then the literal strings of `strings` and of
/// `strings_ic` (both compiled case-sensitively); the first pattern that
/// does not compile gives the error.
pub fn compile_find_patterns(
    exprs: &Vec<String>,
    exprs_ic: &Vec<String>,
    strings: &Vec<String>,
    strings_ic: &Vec<String>,
) -> (r: Result<Vec<Pattern>, String>)
    ensures
        match compiled_patterns(
            find_items(sview(exprs@), sview(exprs_ic@), sview(strings@), sview(strings_ic@)),
        ) {
            Ok(v) => r matches Ok(ps) && pattern_views(ps@) == v,
            Err(e) => r matches Err(m) && m@ == e,
        },
{
    let ghost a = tagged(sview(exprs@), false, false);
    let ghost b = tagged(sview(exprs_ic@), false, true);
    let ghost c = tagged(sview(strings@), true, false);
    let ghost d = tagged(sview(strings_ic@), true, false);
    let ghost all = a + b + c + d;
    let mut out: Vec<Pattern> = Vec::new();
    assert(pattern_views(out@) =~= seq![]);
    assert(Seq::<(Seq<char>, bool, bool)>::empty() + a =~= a);
    let r1 = compile_list(&mut out, exprs, false, false, Ghost(Seq::empty()));
    if r1.is_err() {
        proof {
            assert(all.take(a.len() as int) =~= a);
            lemma_compiled_err_prefix(all, a.len() as int);
        }
        return match r1 {
            Err(e) => Err(e),
            Ok(_) => Ok(out),
        };
    }
    let r2 = compile_list(&mut out, exprs_ic, false, true, Ghost(a));
    if r2.is_err() {
        proof {
            assert(all.take((a + b).len() as int) =~= a + b);
            lemma_compiled_err_prefix(all, (a + b).len() as int);
        }
        return match r2 {
            Err(e) => Err(e),
            Ok(_) => Ok(out),
        };
    }
    let r3 = compile_list(&mut out, strings, true, false, Ghost(a + b));
    if r3.is_err() {
        proof {
            assert(all.take((a + b + c).len() as int) =~= a + b + c);
            lemma_compiled_err_prefix(all, (a + b + c).len() as int);
        }
        return match r3 {
            Err(e) => Err(e),
            Ok(_) => Ok(out),
        };
    }
    let r4 = compile_list(&mut out, strings_ic, true, false, Ghost(a + b + c));
    match r4 {
        Err(e) => Err(e),
        Ok(_) => Ok(out),
    }
}

/// Whether `val` lies between `low` and `high` in the order of strings.
pub open spec fn text_in_range(val: Seq<char>, low: Seq<char>, high: Seq<char>) -> bool {
    !text_less(val, low) && !text_less(high, val)
}

/// Whether `val` lies between `low` and `high` in the order of strings (a
/// range whose bounds are not both numbers).
pub fn in_text_range(val: &str, low: &str, high: &str) -> (b: bool)
    ensures
        b == text_in_range(val@, low@, high@),
{
    !text_lt(val, low) && !text_lt(high, val)
}

/// Whether a field is found: one of the patterns matches it, the caller's
/// range test `range_hit` holds for it, or its byte length lies in one of
/// the length ranges.
pub open spec fn field_found(
    val: Seq<char>,
    pats: Seq<(Seq<char>, bool)>,
    range_hit: bool,
    lengths: Seq<(usize, usize)>,
) -> bool {
    ||| exists|k: int| 0 <= k < pats.len() && regex_finds(pats[k].0, pats[k].1, val)
    ||| range_hit
    ||| exists|k: int|
        0 <= k < lengths.len() && (#[trigger] lengths[k]).0 <= byte_len(val) <= lengths[k].1
}

/// Whether a field of the searched columns (every column when `cols` is
/// empty) is found.
pub open spec fn row_found(
    row: Seq<Seq<char>>,
    cols: Seq<usize>,
    pats: Seq<(Seq<char>, bool)>,
    hits: Seq<bool>,
    lengths: Seq<(usize, usize)>,
) -> bool {
    exists|i: int|
        0 <= i < row.len() && (cols.len() == 0 || cols.contains(i as usize)) && field_found(
            #[trigger] row[i],
            pats,
            hits[i],
            lengths,
        )
}

/// What the find and remove commands test of a row, once it has passed the
/// `-if` expression.
pub struct FindSpec {
    pub remove: bool,
    pub cols: Vec<usize>,
    pub patterns: Vec<Pattern>,
    pub n_ranges: usize,
    pub lengths: Vec<(usize, usize)>,
    pub fcount: Option<(i32, i32)>,
}

/// Whether the command writes a row: a row for which the `-if` expression
/// (`if_true`, when given) is false is dropped by find, and one for which
/// it is true by remove; a row whose field count is outside the `-fc`
/// range is dropped by find and kept by remove (and the reverse inside
/// it); then, when there is something to search for, find keeps the rows
/// where it is found and remove the others; with nothing to search for,
/// find keeps every row and remove drops it.
pub open spec fn find_keeps(
    remove: bool,
    cols: Seq<usize>,
    pats: Seq<(Seq<char>, bool)>,
    n_ranges: int,
    lengths: Seq<(usize, usize)>,
    fcount: Option<(i32, i32)>,
    if_true: Option<bool>,
    row: Seq<Seq<char>>,
    hits: Seq<bool>,
) -> bool {
    let if_drop = match if_true {
        Some(es) => es == remove,
        None => false,
    };
    let n = row.len() as i32;
    let fc_drop = match fcount {
        Some((lo, hi)) => {
            let ok = lo <= n && n <= hi;
            (remove && ok) || (!remove && !ok)
        },
        None => false,
    };
    let have = pats.len() > 0 || n_ranges > 0 || lengths.len() > 0;
    let matched = if have {
        row_found(row, cols, pats, hits, lengths)
    } else {
        !remove
    };
    !if_drop && !fc_drop && (remove != matched)
}

impl FindSpec {
    /// The options of a find or remove command; it refuses options that
    /// give nothing to test (`has_if` tells that there is an `-if`
    /// expression).
    pub fn new(
        remove: bool,
        cols: Vec<usize>,
        patterns: Vec<Pattern>,
        n_ranges: usize,
        lengths: Vec<(usize, usize)>,
        fcount: Option<(i32, i32)>,
        has_if: bool,
    ) -> (r: Result<FindSpec, String>)
        ensures
            (patterns@.len() == 0 && n_ranges == 0 && lengths@.len() == 0 && fcount is None
                && !has_if) ==> (r matches Err(m) && m@
                == "Need at least one -e, -r, -l, -fc, -if or -ei flag"@),
            !(patterns@.len() == 0 && n_ranges == 0 && lengths@.len() == 0 && fcount is None
                && !has_if) ==> (r matches Ok(f) && f.remove == remove && f.cols@ == cols@
                && pattern_views(f.patterns@) == pattern_views(patterns@) && f.n_ranges == n_ranges
                && f.lengths@ == lengths@ && f.fcount == fcount),
    {
        if patterns.len() == 0 && n_ranges == 0 && lengths.len() == 0 && fcount.is_none()
            && !has_if {
            return Err(lit("Need at least one -e, -r, -l, -fc, -if or -ei flag"));
        }
        Ok(FindSpec { remove, cols, patterns, n_ranges, lengths, fcount })
    }

    /// Whether one of the patterns matches `val`.
    fn any_pattern(&self, val: &str) -> (b: bool)
        ensures
            b == exists|k: int|
                0 <= k < self.patterns@.len() && regex_finds(
                    pattern_views(self.patterns@)[k].0,
                    pattern_views(self.patterns@)[k].1,
                    val@,
                ),
    {
        let ghost pv = pattern_views(self.patterns@);
        let mut k: usize = 0;
        while k < self.patterns.len()
            invariant
                k <= self.patterns@.len(),
                pv == pattern_views(self.patterns@),
                forall|j: int| 0 <= j < k ==> !regex_finds(pv[j].0, pv[j].1, val@),
            decreases self.patterns@.len() - k,
        {
            assert(pv[k as int] == self.patterns@[k as int]@);
            if regex_is_match(&self.patterns[k], val) {
                return true;
            }
            k += 1;
        }
        false
    }

    /// Whether the byte length of `val` lies in one of the length ranges.
    fn any_length(&self, val: &str) -> (b: bool)
        ensures
            b == exists|k: int|
                0 <= k < self.lengths@.len() && (#[trigger] self.lengths@[k]).0 <= byte_len(val@)
                    <= self.lengths@[k].1,
    {
        let n = val.as_bytes().len();
        let mut k: usize = 0;
        while k < self.lengths.len()
            invariant
                k <= self.lengths@.len(),
                n == byte_len(val@),
                forall|j: int|
                    0 <= j < k ==> !((#[trigger] self.lengths@[j]).0 <= byte_len(val@)
                        <= self.lengths@[j].1),
            decreases self.lengths@.len() - k,
        {
            let (lo, hi) = self.lengths[k];
            if n >= lo && n <= hi {
                return true;
            }
            k += 1;
        }
        false
    }

    /// Whether the command writes `row`; `range_hits[i]` tells whether
    /// field `i` lies in one of the `-r` ranges, and `if_true` whether the
    /// `-if` expression, when there is one, holds of the row.
    pub fn keeps(&self, row: &Vec<String>, range_hits: &Vec<bool>, if_true: Option<bool>) -> (b: bool)
        requires
            range_hits@.len() >= row@.len(),
        ensures
            b == find_keeps(
                self.remove,
                self.cols@,
                pattern_views(self.patterns@),
                self.n_ranges as int,
                self.lengths@,
                self.fcount,
                if_true,
                sview(row@),
                range_hits@,
            ),
    {
        let ghost rv = sview(row@);
        let ghost pv = pattern_views(self.patterns@);
        if let Some(es) = if_true {
            if es == self.remove {
                return false;
            }
        }
        if let Some((lo, hi)) = self.fcount {
            #[verifier::truncate]
            let n = row.len() as i32;
            assert(rv.len() == row@.len());
            assert(n == rv.len() as i32);
            let ok = lo <= n && n <= hi;
            if (self.remove && ok) || (!self.remove && !ok) {
                return false;
            }
        }
        let have = self.patterns.len() > 0 || self.n_ranges > 0 || self.lengths.len() > 0;
        let mut matched = !self.remove;
        if have {
            matched = false;
            let mut i: usize = 0;
            while i < row.len()
                invariant
                    i <= row@.len(),
                    rv == sview(row@),
                    pv == pattern_views(self.patterns@),
                    range_hits@.len() >= row@.len(),
                    !matched,
                    self.patterns@.len() > 0 || self.n_ranges > 0 || self.lengths@.len() > 0,
                    match if_true {
                        Some(es) => es != self.remove,
                        None => true,
                    },
                    match self.fcount {
                        Some((lo, hi)) => {
                            let n = rv.len() as i32;
                            let ok = lo <= n && n <= hi;
                            !((self.remove && ok) || (!self.remove && !ok))
                        },
                        None => true,
                    },
                    forall|j: int|
                        0 <= j < i ==> !((self.cols@.len() == 0 || self.cols@.contains(j as usize))
                            && field_found(#[trigger] rv[j], pv, range_hits@[j], self.lengths@)),
                decreases row@.len() - i,
            {
                assert(rv[i as int] == row@[i as int]@);
                if self.cols.len() == 0 || contains_index(&self.cols, i) {
                    let val = row[i].as_str();
                    if self.any_pattern(val) || range_hits[i] || self.any_length(val) {
                        proof {
                            assert(field_found(rv[i as int], pv, range_hits@[i as int], self.lengths@));
                            assert(row_found(rv, self.cols@, pv, range_hits@, self.lengths@));
                        }
                        return !self.remove;
                    }
                }
                i += 1;
            }
        }
        self.remove != matched
    }
}


/// Find and remove split the rows when one kind of test is given (a
/// search, a field-count range, or an `-if` expression): a row that one of
/// them writes the other drops.
pub proof fn lemma_find_remove_split(
    cols: Seq<usize>,
    pats: Seq<(Seq<char>, bool)>,
    n_ranges: int,
    lengths: Seq<(usize, usize)>,
    fcount: Option<(i32, i32)>,
    if_true: Option<bool>,
    row: Seq<Seq<char>>,
    hits: Seq<bool>,
)
    requires
        ({
            let search = pats.len() > 0 || n_ranges > 0 || lengths.len() > 0;
            ||| search && fcount is None && if_true is None
            ||| !search && fcount is Some && if_true is None
            ||| !search && fcount is None && if_true is Some
        }),
    ensures
        find_keeps(false, cols, pats, n_ranges, lengths, fcount, if_true, row, hits) != find_keeps(
            true,
            cols,
            pats,
            n_ranges,
            lengths,
            fcount,
            if_true,
            row,
            hits,
        ),
        (pats.len() > 0 || n_ranges > 0 || lengths.len() > 0) ==> find_keeps(
            false,
            cols,
            pats,
            n_ranges,
            lengths,
            fcount,
            if_true,
            row,
            hits,
        ) == row_found(row, cols, pats, hits, lengths),
{
}

} // verus!
