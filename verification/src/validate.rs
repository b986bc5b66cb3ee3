//! Validating rows against rules read from a rules file: required and
//! non-empty fields, field counts, allowed values, lengths, lookups in
//! another file, and dates.
use vstd::prelude::*;
use crate::dates::{Date, MaskedDateReader};
use crate::datefmt::{parse_iso_date, spec_parse_iso};
use crate::num::{dec_string, spec_parse_i32, spec_parse_usize, parse_i32, parse_usize};

use crate::text::{
    chars_of, is_whitespace, is_ws, lit, push_str, push_chars, split_seq, split_str, string_push, sview,
    trim, trim_seq,
};

verus! {

/// The outcome of one check on a row: a failure names its 1-based field
/// (0 for none) and says what is wrong.
#[derive(Debug)]
pub struct ValidationResult {
    pub ok: bool,
    pub field: usize,
    pub msg: String,
}

impl ValidationResult {
    /// A passed check.
    pub fn ok() -> (r: Self)
        ensures
            r.ok && r.field == 0 && r.msg@ == Seq::<char>::empty(),
    {
        ValidationResult { ok: true, field: 0, msg: String::new() }
    }

    /// A failed check of field `field` with the message `msg`.
    pub fn err(field: usize, msg: String) -> (r: Self)
        ensures
            !r.ok && r.field == field && r.msg@ == msg@,
    {
        ValidationResult { ok: false, field, msg }
    }
}

/// A result as a failure flag, a field and a message.
pub open spec fn result_view(r: ValidationResult) -> (bool, usize, Seq<char>) {
    (r.ok, r.field, r.msg@)
}

/// The results as views.
pub open spec fn results_view(v: Seq<ValidationResult>) -> Seq<(bool, usize, Seq<char>)> {
    v.map_values(|r: ValidationResult| result_view(r))
}

/// A failure of field `field`.
pub open spec fn failure(field: int, msg: Seq<char>) -> (bool, usize, Seq<char>) {
    (false, field as usize, msg)
}

/// A rule of a rules file, other than the numeric one.
pub enum Rule {
    /// The fields must exist.
    Required { fields: Vec<usize> },
    /// The fields, where they exist, must not be blank.
    NotEmpty { fields: Vec<usize> },
    /// The row must have `min` to `max` fields.
    Fields { min: usize, max: usize },
    /// The fields must be (or, with `not_values`, must not be) in `list`.
    Values { fields: Vec<usize>, not_values: bool, list: Vec<String> },
    /// The fields must be `min` to `max` bytes long.
    Length { fields: Vec<usize>, min: usize, max: usize },
    /// The key of the row (fields `joins[i].0`) must be among `join_vals`,
    /// the keys of the rows of `lookup_file`.
    Lookup { joins: Vec<(usize, usize)>, lookup_file: String, join_vals: Vec<String> },
    /// The fields must be dates by the reader's mask, in `range` if given.
    Date { fields: Vec<usize>, mask: String, range: Option<(Date, Date)>, reader: MaskedDateReader },
}

/// Date `a` comes before date `b`.
pub open spec fn date_before(a: Date, b: Date) -> bool {
    ||| a.year < b.year
    ||| a.year == b.year && a.month < b.month
    ||| a.year == b.year && a.month == b.month && a.day < b.day
}

/// A lookup key as shown to the user: each NUL but a last one becomes `|`,
/// a last NUL is dropped.
pub open spec fn key_text(key: Seq<char>) -> Seq<char>
    decreases key.len(),
{
    if key.len() == 0 {
        seq![]
    } else if key.len() == 1 {
        if key[0] == '\0' {
            seq![]
        } else {
            seq![key[0]]
        }
    } else {
        (if key[0] == '\0' {
            seq!['|']
        } else {
            seq![key[0]]
        }) + key_text(key.drop_first())
    }
}

/// The lookup key of a row: each joined field (nothing past the row's
/// end) followed by a NUL.
pub open spec fn lookup_key(row: Seq<Seq<char>>, cols: Seq<usize>) -> Seq<char>
    decreases cols.len(),
{
    if cols.len() == 0 {
        seq![]
    } else {
        let c = cols.last();
        lookup_key(row, cols.drop_last()) + (if c < row.len() {
            row[c as int]
        } else {
            seq![]
        }) + seq!['\0']
    }
}

/// The first or second column of each join pair.
pub open spec fn join_side(joins: Seq<(usize, usize)>, second: bool) -> Seq<usize> {
    joins.map_values(|p: (usize, usize)| if second { p.1 } else { p.0 })
}

impl Rule {
    /// The field indices are below the largest index, so that their
    /// 1-based numbers can be written.
    pub open spec fn wf(&self) -> bool {
        match self {
            Rule::Required { fields } => forall|k: int| 0 <= k < fields@.len() ==> #[trigger] fields@[k] < usize::MAX,
            Rule::NotEmpty { fields } => forall|k: int| 0 <= k < fields@.len() ==> #[trigger] fields@[k] < usize::MAX,
            Rule::Values { fields, .. } => forall|k: int| 0 <= k < fields@.len() ==> #[trigger] fields@[k] < usize::MAX,
            Rule::Length { fields, .. } => forall|k: int| 0 <= k < fields@.len() ==> #[trigger] fields@[k] < usize::MAX,
            Rule::Date { fields, reader, .. } => reader.wf() && forall|k: int|
                0 <= k < fields@.len() ==> #[trigger] fields@[k] < usize::MAX,
            _ => true,
        }
    }

    /// Checking `row` would slice a month name inside a character.
    pub open spec fn apply_panics(&self, row: Seq<Seq<char>>) -> bool {
        match self {
            Rule::Date { fields, reader, .. } => exists|k: int|
                0 <= k < fields@.len() && fields@[k] < row.len() && #[trigger] reader.read_panics(
                    row[fields@[k] as int],
                ),
            _ => false,
        }
    }

    /// What the rule says of field `idx` of `row`: no failure or one.
    pub open spec fn field_check(&self, row: Seq<Seq<char>>, idx: usize) -> Seq<(bool, usize, Seq<char>)> {
        let n = idx + 1;
        match self {
            Rule::Required { .. } => if idx >= row.len() {
                seq![failure(n, "required field missing"@)]
            } else {
                seq![]
            },
            Rule::NotEmpty { .. } => if idx < row.len() && trim_seq(row[idx as int]).len() == 0 {
                seq![failure(n, "field is empty"@)]
            } else {
                seq![]
            },
            Rule::Values { not_values, list, .. } => if idx < row.len() {
                let v = row[idx as int];
                let found = sview(list@).contains(v);
                if (if *not_values {
                    found
                } else {
                    !found
                }) {
                    seq![failure(n, seq!['"'] + v + "\" is invalid value"@)]
                } else {
                    seq![]
                }
            } else {
                seq![]
            },
            Rule::Length { min, max, .. } => if idx < row.len() {
                let v = row[idx as int];
                let len = vstd::utf8::encode_utf8(v).len();
                if len < *min {
                    seq![failure(n, seq!['"'] + v + "\" is too short"@)]
                } else if len > *max {
                    seq![failure(n, seq!['"'] + v + "\" is too long"@)]
                } else {
                    seq![]
                }
            } else {
                seq![]
            },
            Rule::Date { range, reader, .. } => if idx < row.len() {
                let v = row[idx as int];
                match reader.spec_read(v) {
                    Some(d) => match range {
                        Some(r) => if date_before(d, r.0) || date_before(r.1, d) {
                            seq![failure(n, "Date '"@ + v + "' is out of range"@)]
                        } else {
                            seq![]
                        },
                        None => seq![],
                    },
                    None => seq![failure(n, "Invalid date '"@ + v + "'"@)],
                }
            } else {
                seq![]
            },
            _ => seq![],
        }
    }

    /// What the rule says of the fields `fields` of `row`, in order.
    pub open spec fn fields_check(&self, row: Seq<Seq<char>>, fields: Seq<usize>) -> Seq<
        (bool, usize, Seq<char>),
    >
        decreases fields.len(),
    {
        if fields.len() == 0 {
            seq![]
        } else {
            self.fields_check(row, fields.drop_last()) + self.field_check(row, fields.last())
        }
    }

    /// The failures of `row` under this rule.
    pub open spec fn spec_apply(&self, row: Seq<Seq<char>>) -> Seq<(bool, usize, Seq<char>)> {
        match self {
            Rule::Required { fields } => self.fields_check(row, fields@),
            Rule::NotEmpty { fields } => self.fields_check(row, fields@),
            Rule::Values { fields, .. } => self.fields_check(row, fields@),
            Rule::Length { fields, .. } => self.fields_check(row, fields@),
            Rule::Date { fields, .. } => self.fields_check(row, fields@),
            Rule::Fields { min, max } => if row.len() < *min {
                seq![failure(1, "Not enough fields"@)]
            } else if row.len() > *max {
                seq![failure(1, "Too many fields"@)]
            } else {
                seq![]
            },
            Rule::Lookup { joins, lookup_file, join_vals } => {
                let key = lookup_key(row, join_side(joins@, false));
                if sview(join_vals@).contains(key) {
                    seq![]
                } else {
                    seq![
                        failure(
                            0,
                            "lookup of '"@ + key_text(key) + "' in "@ + lookup_file@ + " failed"@,
                        ),
                    ]
                }
            },
        }
    }

    fn check_field(&self, row: &Vec<String>, idx: usize, r: &mut Vec<ValidationResult>)
        requires
            self.wf(),
            idx < usize::MAX,
            match self {
                Rule::Date { reader, .. } => idx < row@.len() ==> !reader.read_panics(row@[idx as int]@),
                _ => true,
            },
        ensures
            results_view(final(r)@) == results_view(old(r)@) + self.field_check(sview(row@), idx),
    {
        let ghost r0 = r@;
        let n = idx + 1;
        assert(sview(row@).len() == row@.len());
        if idx < row.len() {
            assert(sview(row@)[idx as int] == row@[idx as int]@);
        }
        match self {
            Rule::Required { .. } => {
                if idx >= row.len() {
                    r.push(ValidationResult::err(n, lit("required field missing")));
                }
            },
            Rule::NotEmpty { .. } => {
                if idx < row.len() {
                    let t = trim(row[idx].as_str());
                    if t.as_str().is_empty() {
                        r.push(ValidationResult::err(n, lit("field is empty")));
                    }
                }
            },
            Rule::Values { not_values, list, .. } => {
                if idx < row.len() {
                    let v = &row[idx];
                    let mut found = false;
                    let mut k: usize = 0;
                    while k < list.len()
                        invariant
                            k <= list@.len(),
                            found == exists|j: int| 0 <= j < k && (#[trigger] list@[j])@ == v@,
                        decreases list@.len() - k,
                    {
                        if list[k] == *v {
                            found = true;
                        }
                        k += 1;
                    }
                    proof {
                        if found {
                            let j = choose|j: int| 0 <= j < list@.len() && (#[trigger] list@[j])@ == v@;
                            assert(sview(list@)[j] == v@);
                        } else {
                            assert forall|j: int| 0 <= j < sview(list@).len() implies sview(list@)[j] != v@ by {
                                assert(sview(list@)[j] == list@[j]@);
                            }
                        }
                    }
                    let bad = if *not_values {
                        found
                    } else {
                        !found
                    };
                    if bad {
                        let mut m = String::new();
                        string_push(&mut m, '"');
                        push_str(&mut m, v.as_str());
                        push_str(&mut m, "\" is invalid value");
                        r.push(ValidationResult::err(n, m));
                    }
                }
            },
            Rule::Length { min, max, .. } => {
                if idx < row.len() {
                    let v = &row[idx];
                    let len = v.as_str().as_bytes().len();
                    if len < *min {
                        let mut m = String::new();
                        string_push(&mut m, '"');
                        push_str(&mut m, v.as_str());
                        push_str(&mut m, "\" is too short");
                        r.push(ValidationResult::err(n, m));
                    } else if len > *max {
                        let mut m = String::new();
                        string_push(&mut m, '"');
                        push_str(&mut m, v.as_str());
                        push_str(&mut m, "\" is too long");
                        r.push(ValidationResult::err(n, m));
                    }
                }
            },
            Rule::Date { range, reader, .. } => {
                if idx < row.len() {
                    let v = &row[idx];
                    match reader.read(v.as_str()) {
                        Some(d) => {
                            match range {
                                Some(rg) => {
                                    let (lo, hi) = *rg;
                                    if before(&d, &lo) || before(&hi, &d) {
                                        let mut m = lit("Date '");
                                        push_str(&mut m, v.as_str());
                                        push_str(&mut m, "' is out of range");
                                        r.push(ValidationResult::err(n, m));
                                    }
                                },
                                None => {},
                            }
                        },
                        None => {
                            let mut m = lit("Invalid date '");
                            push_str(&mut m, v.as_str());
                            push_str(&mut m, "'");
                            r.push(ValidationResult::err(n, m));
                        },
                    }
                }
            },
            _ => {},
        }
        proof {
            if r@.len() == r0.len() + 1 {
                assert(results_view(r@) =~= results_view(r0).push(result_view(r@[r0.len() as int])));
            } else {
                assert(r@ == r0);
            }
        }
    }

    /// Checks `row` against the rule: the failures, in field order.
    pub fn apply(&self, row: &Vec<String>) -> (r: Vec<ValidationResult>)
        requires
            self.wf(),
            !self.apply_panics(sview(row@)),
        ensures
            results_view(r@) == self.spec_apply(sview(row@)),
    {
        assert(sview(row@).len() == row@.len());
        match self {
            Rule::Fields { min, max } => {
                let mut r: Vec<ValidationResult> = Vec::new();
                if row.len() < *min {
                    r.push(ValidationResult::err(1, lit("Not enough fields")));
                    assert(results_view(r@) =~= seq![result_view(r@[0])]);
                } else if row.len() > *max {
                    r.push(ValidationResult::err(1, lit("Too many fields")));
                    assert(results_view(r@) =~= seq![result_view(r@[0])]);
                } else {
                    assert(results_view(r@) =~= Seq::<(bool, usize, Seq<char>)>::empty());
                }
                r
            },
            Rule::Lookup { joins, lookup_file, join_vals } => {
                let mut key = String::new();
                let mut k: usize = 0;
                let ghost cols = join_side(joins@, false);
                while k < joins.len()
                    invariant
                        k <= joins@.len(),
                        cols == join_side(joins@, false),
                        cols.len() == joins@.len(),
                        sview(row@).len() == row@.len(),
                        key@ == lookup_key(sview(row@), cols.take(k as int)),
                    decreases joins@.len() - k,
                {
                    let (fi, _) = joins[k];
                    proof {
                        assert(cols.take(k + 1).drop_last() =~= cols.take(k as int));
                        assert(cols.take(k + 1).last() == fi);
                    }
                    if fi < row.len() {
                        assert(sview(row@)[fi as int] == row@[fi as int]@);
                        push_str(&mut key, row[fi].as_str());
                    }
                    string_push(&mut key, '\0');
                    k += 1;
                }
                assert(cols.take(joins.len() as int) =~= cols);
                let mut found = false;
                let mut q: usize = 0;
                while q < join_vals.len()
                    invariant
                        q <= join_vals@.len(),
                        found == exists|j: int| 0 <= j < q && (#[trigger] join_vals@[j])@ == key@,
                    decreases join_vals@.len() - q,
                {
                    if join_vals[q] == key {
                        found = true;
                    }
                    q += 1;
                }
                proof {
                    if found {
                        let j = choose|j: int| 0 <= j < join_vals@.len() && (#[trigger] join_vals@[j])@ == key@;
                        assert(sview(join_vals@)[j] == key@);
                    } else {
                        assert forall|j: int| 0 <= j < sview(join_vals@).len() implies sview(join_vals@)[j] != key@ by {
                            assert(sview(join_vals@)[j] == join_vals@[j]@);
                        }
                    }
                }
                let mut r: Vec<ValidationResult> = Vec::new();
                if !found {
                    let d = show_key(key.as_str());
                    let mut m = lit("lookup of '");
                    push_str(&mut m, d.as_str());
                    push_str(&mut m, "' in ");
                    push_str(&mut m, lookup_file.as_str());
                    push_str(&mut m, " failed");
                    r.push(ValidationResult::err(0, m));
                    assert(results_view(r@) =~= seq![result_view(r@[0])]);
                } else {
                    assert(results_view(r@) =~= Seq::<(bool, usize, Seq<char>)>::empty());
                }
                r
            },
            Rule::Required { fields } => self.check_fields(row, fields),
            Rule::NotEmpty { fields } => self.check_fields(row, fields),
            Rule::Values { fields, .. } => self.check_fields(row, fields),
            Rule::Length { fields, .. } => self.check_fields(row, fields),
            Rule::Date { fields, .. } => self.check_fields(row, fields),
        }
    }

    /// Whether checking `row` would slice a month name inside a character.
    pub fn would_panic(&self, row: &Vec<String>) -> (b: bool)
        requires
            self.wf(),
        ensures
            b == self.apply_panics(sview(row@)),
    {
        match self {
            Rule::Date { fields, reader, .. } => {
                assert(sview(row@).len() == row@.len());
                let mut k: usize = 0;
                while k < fields.len()
                    invariant
                        k <= fields@.len(),
                        reader.wf(),
                        self is Date,
                        self->Date_fields == *fields,
                        self->Date_reader == *reader,
                        sview(row@).len() == row@.len(),
                        forall|j: int|
                            0 <= j < k ==> !(fields@[j] < row@.len() && #[trigger] reader.read_panics(
                                sview(row@)[fields@[j] as int],
                            )),
                    decreases fields@.len() - k,
                {
                    let f = fields[k];
                    if f < row.len() {
                        assert(sview(row@)[f as int] == row@[f as int]@);
                        if reader.read_would_panic(row[f].as_str()) {
                            assert(fields@[k as int] == f);
                            assert(reader.read_panics(sview(row@)[fields@[k as int] as int]));
                            assert(0 <= k < fields@.len() && fields@[k as int] < sview(row@).len());
                            assert(exists|j: int|
                                0 <= j < fields@.len() && fields@[j] < sview(row@).len()
                                    && #[trigger] reader.read_panics(sview(row@)[fields@[j] as int]));
                            return true;
                        }
                    }
                    k += 1;
                }
                false
            },
            _ => false,
        }
    }

    fn check_fields(&self, row: &Vec<String>, fields: &Vec<usize>) -> (r: Vec<ValidationResult>)
        requires
            self.wf(),
            !self.apply_panics(sview(row@)),
            match self {
                Rule::Required { fields: f } => *f == *fields,
                Rule::NotEmpty { fields: f } => *f == *fields,
                Rule::Values { fields: f, .. } => *f == *fields,
                Rule::Length { fields: f, .. } => *f == *fields,
                Rule::Date { fields: f, .. } => *f == *fields,
                _ => false,
            },
        ensures
            results_view(r@) == self.fields_check(sview(row@), fields@),
    {
        let mut r: Vec<ValidationResult> = Vec::new();
        let mut k: usize = 0;
        assert(results_view(r@) =~= Seq::<(bool, usize, Seq<char>)>::empty());
        while k < fields.len()
            invariant
                k <= fields@.len(),
                self.wf(),
                !self.apply_panics(sview(row@)),
                match self {
                    Rule::Required { fields: f } => *f == *fields,
                    Rule::NotEmpty { fields: f } => *f == *fields,
                    Rule::Values { fields: f, .. } => *f == *fields,
                    Rule::Length { fields: f, .. } => *f == *fields,
                    Rule::Date { fields: f, .. } => *f == *fields,
                    _ => false,
                },
                results_view(r@) == self.fields_check(sview(row@), fields@.take(k as int)),
            decreases fields@.len() - k,
        {
            let idx = fields[k];
            proof {
                assert(fields@.take(k + 1).drop_last() =~= fields@.take(k as int));
                assert(fields@.take(k + 1).last() == idx);
                assert(sview(row@).len() == row@.len());
                match self {
                    Rule::Date { reader, .. } => {
                        if idx < row@.len() {
                            assert(sview(row@)[idx as int] == row@[idx as int]@);
                            if reader.read_panics(row@[idx as int]@) {
                                assert(self.apply_panics(sview(row@)));
                            }
                        }
                    },
                    _ => {},
                }
            }
            self.check_field(row, idx, &mut r);
            k += 1;
        }
        assert(fields@.take(fields.len() as int) =~= fields@);
        r
    }
}

fn before(a: &Date, b: &Date) -> (r: bool)
    ensures
        r == date_before(*a, *b),
{
    a.year < b.year || (a.year == b.year && a.month < b.month) || (a.year == b.year && a.month
        == b.month && a.day < b.day)
}

fn show_key(key: &str) -> (d: String)
    ensures
        d@ == key_text(key@),
{
    let cs = chars_of(key);
    let mut d = String::new();
    let mut i: usize = 0;
    assert(cs@.skip(0) =~= cs@);
    while i < cs.len()
        invariant
            i <= cs@.len(),
            cs@ == key@,
            d@ + key_text(cs@.skip(i as int)) == key_text(cs@),
        decreases cs@.len() - i,
    {
        let c = cs[i];
        proof {
            assert(cs@.skip(i as int)[0] == c);
            assert(cs@.skip(i as int).drop_first() =~= cs@.skip(i + 1));
        }
        if c == '\0' {
            if i != cs.len() - 1 {
                string_push(&mut d, '|');
            }
        } else {
            string_push(&mut d, c);
        }
        proof {
            if i + 1 == cs@.len() {
                assert(cs@.skip(i + 1).len() == 0);
            }
        }
        i += 1;
    }
    assert(cs@.skip(cs.len() as int).len() == 0);
    d
}

/// The end of the run of non-whitespace characters from `p`.
pub open spec fn word_end(cs: Seq<char>, p: int) -> int
    decreases cs.len() - p,
{
    if 0 <= p < cs.len() && !is_ws(cs[p]) {
        word_end(cs, p + 1)
    } else {
        p
    }
}

/// The parameters of a rule line from position `p`: words separated by
/// whitespace, or quoted values (`'` or `"`, without escapes). `mode` is 0
/// between values, 1 inside a word, 2 inside quotes opened by `q` at
/// `start`; `cur` is the value being read and `acc` those read.
pub open spec fn param_run(
    cs: Seq<char>,
    p: int,
    mode: int,
    q: char,
    start: int,
    cur: Seq<char>,
    acc: Seq<Seq<char>>,
) -> Result<Seq<Seq<char>>, Seq<char>>
    decreases cs.len() - p,
{
    if p < 0 || p >= cs.len() {
        if mode == 0 {
            Ok(acc)
        } else if mode == 1 {
            Ok(acc.push(cur))
        } else {
            Err("Unterminated quoted value: "@ + cs.subrange(start, cs.len() as int))
        }
    } else {
        let c = cs[p];
        if mode == 0 {
            if is_ws(c) {
                param_run(cs, p + 1, 0, q, start, cur, acc)
            } else if c == '\'' || c == '"' {
                param_run(cs, p + 1, 2, c, p, seq![], acc)
            } else {
                param_run(cs, p + 1, 1, q, start, seq![c], acc)
            }
        } else if mode == 1 {
            if is_ws(c) {
                param_run(cs, p + 1, 0, q, start, seq![], acc.push(cur))
            } else {
                param_run(cs, p + 1, 1, q, start, cur.push(c), acc)
            }
        } else if c == q {
            param_run(cs, p + 1, 0, q, start, seq![], acc.push(cur))
        } else {
            param_run(cs, p + 1, 2, q, start, cur.push(c), acc)
        }
    }
}

/// A field list of a rule line: `*` or nothing for none, else 1-based
/// numbers separated by commas.
pub open spec fn rule_fields(items: Seq<Seq<char>>, whole: Seq<char>) -> Result<Seq<usize>, Seq<char>>
    decreases items.len(),
{
    if items.len() == 0 {
        Ok(seq![])
    } else {
        match rule_fields(items.drop_last(), whole) {
            Err(e) => Err(e),
            Ok(v) => match spec_parse_i32(items.last()) {
                Some(n) => if n <= 0 {
                    Err("Invalid field list: "@ + whole)
                } else {
                    Ok(v.push((n - 1) as usize))
                },
                None => Err("Invalid field list: "@ + whole),
            },
        }
    }
}

/// What a line of a rules file holds: nothing for a blank or `#` line,
/// else the rule name, its fields and its parameters; or the error.
pub open spec fn spec_validation_line(line: Seq<char>) -> Result<
    Option<(Seq<char>, Seq<usize>, Seq<Seq<char>>)>,
    Seq<char>,
> {
    let t = trim_seq(line);
    if t.len() == 0 || t[0] == '#' {
        Ok(None)
    } else {
        let p0 = crate::lexer::ws_end(line, 0);
        let w0 = word_end(line, p0);
        let name = line.subrange(p0, w0);
        if name.len() == 0 {
            Ok(None)
        } else {
            let p1 = crate::lexer::ws_end(line, w0);
            let w1 = word_end(line, p1);
            let fstr = line.subrange(p1, w1);
            let fields = if fstr.len() == 0 || fstr == seq!['*'] {
                Ok(seq![])
            } else {
                rule_fields(split_seq(fstr, ','), fstr)
            };
            match fields {
                Err(e) => Err(e),
                Ok(f) => match param_run(line, w1, 0, '\0', 0, seq![], seq![]) {
                    Err(e) => Err(e),
                    Ok(ps) => Ok(Some((name, f, ps))),
                },
            }
        }
    }
}

proof fn lemma_rule_fields_err(ps: Seq<Seq<char>>, whole: Seq<char>, k: int)
    requires
        0 <= k <= ps.len(),
        rule_fields(ps.take(k), whole) is Err,
    ensures
        rule_fields(ps, whole) == rule_fields(ps.take(k), whole),
    decreases ps.len() - k,
{
    if k == ps.len() {
        assert(ps.take(k) =~= ps);
    } else {
        assert(ps.take(k + 1).drop_last() =~= ps.take(k));
        lemma_rule_fields_err(ps, whole, k + 1);
    }
}

fn field_list(fstr: &String) -> (r: Result<Vec<usize>, String>)
    ensures
        match (if fstr@.len() == 0 || fstr@ == seq!['*'] {
            Ok(seq![])
        } else {
            rule_fields(split_seq(fstr@, ','), fstr@)
        }) {
            Ok(v) => r matches Ok(w) && w@ == v,
            Err(e) => r matches Err(m) && m@ == e,
        },
{
    let mut fields: Vec<usize> = Vec::new();
    let fc = chars_of(fstr.as_str());
    let is_star = fc.len() == 1 && fc[0] == '*';
    proof {
        if is_star {
            assert(fstr@ =~= seq!['*']);
        }
        if fstr@ == seq!['*'] {
            assert(fc@[0] == '*');
        }
    }
    if fstr.as_str().is_empty() || is_star {
        return Ok(fields);
    }
    let items = split_str(fstr.as_str(), ',');
    let ghost ps = sview(items@);
    let mut i: usize = 0;
    while i < items.len()
        invariant
            i <= items@.len(),
            ps == sview(items@),
            ps == split_seq(fstr@, ','),
            ps.len() == items@.len(),
            !(fstr@.len() == 0 || fstr@ == seq!['*']),
            rule_fields(ps.take(i as int), fstr@) == Ok::<Seq<usize>, Seq<char>>(fields@),
        decreases items@.len() - i,
    {
        proof {
            assert(ps.take(i + 1).drop_last() =~= ps.take(i as int));
            assert(ps.take(i + 1).last() == items@[i as int]@);
        }
        match parse_i32(items[i].as_str()) {
            Some(n) => {
                if n <= 0 {
                    let mut m = lit("Invalid field list: ");
                    push_str(&mut m, fstr.as_str());
                    proof {
                        lemma_rule_fields_err(ps, fstr@, i + 1);
                    }
                    return Err(m);
                }
                fields.push((n - 1) as usize);
            },
            None => {
                let mut m = lit("Invalid field list: ");
                push_str(&mut m, fstr.as_str());
                proof {
                    lemma_rule_fields_err(ps, fstr@, i + 1);
                }
                return Err(m);
            },
        }
        i += 1;
    }
    assert(ps.take(items.len() as int) =~= ps);
    Ok(fields)
}

/// Reads a line of a rules file: `None` for a blank or comment line, else
/// the rule name, its 0-based fields and its parameters.
pub fn parse_validation_line(line: &str) -> (r: Result<Option<(String, Vec<usize>, Vec<String>)>, String>)
    ensures
        match spec_validation_line(line@) {
            Ok(None) => r matches Ok(None),
            Ok(Some((name, f, ps))) => r matches Ok(Some((n, g, qs))) && n@ == name && g@ == f
                && sview(qs@) == ps,
            Err(e) => r matches Err(m) && m@ == e,
        },
{
    let t = trim(line);
    let tc = chars_of(t.as_str());
    if tc.len() == 0 || tc[0] == '#' {
        return Ok(None);
    }
    let chars = chars_of(line);
    let ghost cs = chars@;
    let n = chars.len();
    let mut pos: usize = 0;
    while pos < n && is_whitespace(chars[pos])
        invariant
            pos <= n == cs.len(),
            cs == chars@,
            crate::lexer::ws_end(cs, 0) == crate::lexer::ws_end(cs, pos as int),
        decreases n - pos,
    {
        pos += 1;
    }
    let p0 = pos;
    let mut name = String::new();
    while pos < n && !is_whitespace(chars[pos])
        invariant
            p0 <= pos <= n == cs.len(),
            cs == chars@,
            word_end(cs, p0 as int) == word_end(cs, pos as int),
            name@ == cs.subrange(p0 as int, pos as int),
        decreases n - pos,
    {
        string_push(&mut name, chars[pos]);
        assert(cs.subrange(p0 as int, pos + 1) =~= cs.subrange(p0 as int, pos as int).push(cs[pos as int]));
        pos += 1;
    }
    if name.as_str().is_empty() {
        return Ok(None);
    }
    let w0 = pos;
    while pos < n && is_whitespace(chars[pos])
        invariant
            w0 <= pos <= n == cs.len(),
            cs == chars@,
            crate::lexer::ws_end(cs, w0 as int) == crate::lexer::ws_end(cs, pos as int),
        decreases n - pos,
    {
        pos += 1;
    }
    let p1 = pos;
    let mut fstr = String::new();
    while pos < n && !is_whitespace(chars[pos])
        invariant
            p1 <= pos <= n == cs.len(),
            cs == chars@,
            word_end(cs, p1 as int) == word_end(cs, pos as int),
            fstr@ == cs.subrange(p1 as int, pos as int),
        decreases n - pos,
    {
        string_push(&mut fstr, chars[pos]);
        assert(cs.subrange(p1 as int, pos + 1) =~= cs.subrange(p1 as int, pos as int).push(cs[pos as int]));
        pos += 1;
    }
    let fields = match field_list(&fstr) {
        Ok(f) => f,
        Err(e) => return Err(e),
    };
    let w1 = pos;
    let mut params: Vec<String> = Vec::new();
    let mut cur = String::new();
    let mut mode: u8 = 0;
    let mut q: char = '\0';
    let mut start: usize = 0;
    assert(sview(params@) =~= Seq::<Seq<char>>::empty());
    while pos < n
        invariant
            w1 <= pos <= n == cs.len(),
            cs == chars@,
            mode <= 2,
            start <= n,
            param_run(cs, w1 as int, 0, '\0', 0, seq![], seq![]) == param_run(
                cs,
                pos as int,
                mode as int,
                q,
                start as int,
                cur@,
                sview(params@),
            ),
        decreases n - pos,
    {
        let c = chars[pos];
        let ghost pv = sview(params@);
        if mode == 0 {
            if is_whitespace(c) {
            } else if c == '\'' || c == '"' {
                mode = 2;
                q = c;
                start = pos;
                cur = String::new();
            } else {
                mode = 1;
                cur = String::new();
                string_push(&mut cur, c);
                assert(cur@ =~= seq![c]);
            }
        } else if mode == 1 {
            if is_whitespace(c) {
                params.push(cur);
                assert(sview(params@) =~= pv.push(cur@));
                cur = String::new();
                mode = 0;
            } else {
                string_push(&mut cur, c);
            }
        } else {
            if c == q {
                params.push(cur);
                assert(sview(params@) =~= pv.push(cur@));
                cur = String::new();
                mode = 0;
            } else {
                string_push(&mut cur, c);
            }
        }
        pos += 1;
    }
    if mode == 2 {
        let mut m = lit("Unterminated quoted value: ");
        push_chars(&mut m, &chars, start, n);
        return Err(m);
    } else if mode == 1 {
        let ghost pv = sview(params@);
        params.push(cur);
        assert(sview(params@) =~= pv.push(cur@));
    }
    Ok(Some((name, fields, params)))
}

/// A rule as read from a rules file: ready to use, or still needing
/// what the library does not compute itself.
pub enum CompiledRule {
    Ready(Rule),
    /// A numeric rule: its fields and its `min:max` ranges, read as
    /// numbers by the caller.
    Numeric { fields: Vec<usize>, ranges: Vec<String> },
    /// A lookup rule, whose keys come from the rows of `lookup_file`.
    Lookup { joins: Vec<(usize, usize)>, lookup_file: String },
}

/// What a rule line compiles to, apart from its fields and parameters.
pub enum RuleShape {
    Required,
    NotEmpty,
    Numeric,
    Fields(usize, usize),
    Values(bool),
    Length(usize, usize),
    Lookup(Seq<(usize, usize)>, Seq<char>),
    Date(Seq<char>, Option<(Date, Date)>),
}

/// A pair `a:b` of 1-based fields of a lookup rule, or the error.
pub open spec fn lookup_item(item: Seq<char>) -> Result<(usize, usize), Seq<char>> {
    let parts = split_seq(item, ':');
    if parts.len() != 2 {
        Err("Invalid field list entry: "@ + item)
    } else {
        match (spec_parse_i32(parts[0]), spec_parse_i32(parts[1])) {
            (Some(a), Some(b)) => if a - 1 < 0 || b - 1 < 0 {
                Err("Invalid field list entry: "@ + item)
            } else {
                Ok(((a - 1) as usize, (b - 1) as usize))
            },
            _ => Err("Invalid field list entry: "@ + item),
        }
    }
}

/// The pairs of a lookup rule's list, or the first error.
pub open spec fn lookup_items(items: Seq<Seq<char>>) -> Result<Seq<(usize, usize)>, Seq<char>>
    decreases items.len(),
{
    if items.len() == 0 {
        Ok(seq![])
    } else {
        match lookup_items(items.drop_last()) {
            Err(e) => Err(e),
            Ok(v) => match lookup_item(items.last()) {
                Err(e) => Err(e),
                Ok(p) => Ok(v.push(p)),
            },
        }
    }
}

/// Reading a lookup pair would take 1 from the least `i32`.
pub open spec fn lookup_underflows(items: Seq<Seq<char>>) -> bool {
    exists|k: int|
        0 <= k < items.len() && {
            let parts = split_seq(#[trigger] items[k], ':');
            parts.len() == 2 && (spec_parse_i32(parts[0]) == Some(i32::MIN) || (spec_parse_i32(
                parts[0],
            ) is Some && spec_parse_i32(parts[1]) == Some(i32::MIN)))
        }
}

/// The date range `min:max` of a date rule, or the error.
pub open spec fn date_range(p: Seq<char>) -> Result<(Date, Date), Seq<char>> {
    let parts = split_seq(p, ':');
    if parts.len() != 2 {
        Err("Rule date has invalid range: "@ + p)
    } else {
        match (spec_parse_iso(parts[0]), spec_parse_iso(parts[1])) {
            (Some(lo), Some(hi)) => if date_before(hi, lo) {
                Err("Rule date has invalid range: "@ + p)
            } else {
                Ok((lo, hi))
            },
            _ => Err("Rule date has invalid date in range: "@ + p),
        }
    }
}

/// What the rule `name` with the fields `fields` and the parameters `ps`
/// compiles to, or the error.
pub open spec fn spec_compile(name: Seq<char>, fields: Seq<usize>, ps: Seq<Seq<char>>) -> Result<RuleShape, Seq<char>> {
    if name == "required"@ {
        if fields.len() == 0 {
            Err("required needs field list"@)
        } else {
            Ok(RuleShape::Required)
        }
    } else if name == "notempty"@ {
        if fields.len() == 0 {
            Err("notempty needs field list"@)
        } else {
            Ok(RuleShape::NotEmpty)
        }
    } else if name == "numeric"@ {
        if fields.len() == 0 {
            Err("numeric needs field list"@)
        } else {
            Ok(RuleShape::Numeric)
        }
    } else if name == "fields"@ {
        if ps.len() == 0 {
            Err("Rule fields needs values"@)
        } else if ps.len() > 1 {
            Err("Rule fields needs min,max values only"@)
        } else {
            let parts = split_seq(ps[0], ':');
            if parts.len() != 2 {
                Err("Rule fields needs min,max values"@)
            } else {
                match (spec_parse_usize(parts[0]), spec_parse_usize(parts[1])) {
                    (Some(lo), Some(hi)) => if lo < 1 || lo > hi {
                        Err("Rule fields has invalid min,max values"@)
                    } else {
                        Ok(RuleShape::Fields(lo, hi))
                    },
                    _ => Err("Rule fields needs min,max values as integers"@),
                }
            }
        }
    } else if name == "values"@ || name == "notvalues"@ {
        if fields.len() == 0 {
            Err(name + " needs field list"@)
        } else if ps.len() == 0 {
            Err("Rule "@ + name + " needs values"@)
        } else {
            Ok(RuleShape::Values(name == "notvalues"@))
        }
    } else if name == "length"@ {
        if fields.len() == 0 {
            Err("length needs field list"@)
        } else if ps.len() == 0 {
            Err("Rule length needs values"@)
        } else {
            let parts = split_seq(ps[0], ':');
            if parts.len() != 2 {
                Err("Need range in form n1:n2, not "@ + ps[0])
            } else {
                match (spec_parse_i32(parts[0]), spec_parse_i32(parts[1])) {
                    (Some(lo), Some(hi)) => if lo < 0 || lo > hi {
                        Err("Invalid range "@ + ps[0] + " in rule length"@)
                    } else {
                        Ok(RuleShape::Length(lo as usize, hi as usize))
                    },
                    _ => Err("Invalid number in range: "@ + ps[0]),
                }
            }
        }
    } else if name == "lookup"@ {
        if ps.len() != 2 {
            Err("lookup needs field list and filename"@)
        } else {
            match lookup_items(split_seq(ps[0], ',')) {
                Err(e) => Err(e),
                Ok(j) => Ok(RuleShape::Lookup(j, ps[1])),
            }
        }
    } else if name == "date"@ {
        if fields.len() == 0 {
            Err("date needs field list"@)
        } else if ps.len() == 0 {
            Err("Rule date needs date mask"@)
        } else {
            let range: Result<Option<(Date, Date)>, Seq<char>> = if ps.len() == 2 {
                match date_range(ps[1]) {
                    Ok(r) => Ok(Some(r)),
                    Err(e) => Err(e),
                }
            } else if ps.len() > 2 {
                Err("Rule date needs mask and range parameters only"@)
            } else {
                Ok(None)
            };
            match range {
                Err(e) => Err(e),
                Ok(r) => match crate::dates::spec_new_reader(
                    ps[0],
                    vstd::utf8::encode_utf8(ps[0]).len(),
                    seq![],
                    1930,
                ) {
                    Err(e) => Err(e),
                    Ok(_) => Ok(RuleShape::Date(ps[0], r)),
                },
            }
        }
    } else {
        Err("Unknown rule: "@ + name)
    }
}

/// The compiled rule `c` is the one of shape `shape` with the fields
/// `fields` and the parameters `ps`.
pub open spec fn compiled_as(c: CompiledRule, shape: RuleShape, fields: Seq<usize>, ps: Seq<Seq<char>>) -> bool {
    match shape {
        RuleShape::Required => c matches CompiledRule::Ready(Rule::Required { fields: f }) && f@ == fields,
        RuleShape::NotEmpty => c matches CompiledRule::Ready(Rule::NotEmpty { fields: f }) && f@ == fields,
        RuleShape::Numeric => c matches CompiledRule::Numeric { fields: f, ranges } && f@ == fields
            && sview(ranges@) == ps,
        RuleShape::Fields(lo, hi) => c matches CompiledRule::Ready(Rule::Fields { min, max }) && min
            == lo && max == hi,
        RuleShape::Values(nv) => c matches CompiledRule::Ready(
            Rule::Values { fields: f, not_values, list },
        ) && f@ == fields && not_values == nv && sview(list@) == ps,
        RuleShape::Length(lo, hi) => c matches CompiledRule::Ready(Rule::Length { fields: f, min, max })
            && f@ == fields && min == lo && max == hi,
        RuleShape::Lookup(j, file) => c matches CompiledRule::Lookup { joins, lookup_file } && joins@
            == j && lookup_file@ == file,
        RuleShape::Date(mask, range) => c matches CompiledRule::Ready(
            Rule::Date { fields: f, mask: m, range: r, reader },
        ) && f@ == fields && m@ == mask && r == range && reader.wf() && reader.year_base == 1930
            && crate::dates::spec_new_reader(mask, vstd::utf8::encode_utf8(mask).len(), seq![], 1930)
            == Ok::<(Seq<char>, Seq<Seq<char>>, Seq<Seq<char>>), Seq<char>>(reader.parts()),
    }
}

/// Compiling the rule would overflow or index past a mask's characters.
pub open spec fn compile_panics(name: Seq<char>, ps: Seq<Seq<char>>) -> bool {
    ||| name == "lookup"@ && ps.len() == 2 && lookup_underflows(split_seq(ps[0], ','))
    ||| name == "date"@ && ps.len() > 0 && vstd::utf8::encode_utf8(ps[0]).len() == 5 && ps[0].len() != 5
}

/// Whether compiling the rule would overflow or index past a mask's
/// characters (see [`compile_panics`]).
pub fn compile_would_panic(name: &str, params: &Vec<String>) -> (b: bool)
    ensures
        b == compile_panics(name@, sview(params@)),
{
    let ghost ps = sview(params@);
    assert(ps.len() == params@.len());
    if same_str(name, "lookup") && params.len() == 2 {
        assert(ps[0] == params@[0]@);
        let items = split_str(params[0].as_str(), ',');
        let ghost iv = sview(items@);
        assert(iv == split_seq(ps[0], ','));
        let mut k: usize = 0;
        while k < items.len()
            invariant
                k <= items@.len(),
                iv == sview(items@),
                name@ == "lookup"@,
                params@.len() == 2,
                ps == sview(params@),
                iv == split_seq(ps[0], ','),
                forall|j: int|
                    0 <= j < k ==> {
                        let parts = split_seq(#[trigger] iv[j], ':');
                        !(parts.len() == 2 && (spec_parse_i32(parts[0]) == Some(i32::MIN) || (
                        spec_parse_i32(parts[0]) is Some && spec_parse_i32(parts[1]) == Some(
                            i32::MIN,
                        ))))
                    },
            decreases items@.len() - k,
        {
            assert(iv[k as int] == items@[k as int]@);
            let parts = split_str(items[k].as_str(), ':');
            assert(sview(parts@).len() == parts@.len());
            if parts.len() == 2 {
                assert(sview(parts@)[0] == parts@[0]@);
                assert(sview(parts@)[1] == parts@[1]@);
                let a = parse_i32(parts[0].as_str());
                let b = parse_i32(parts[1].as_str());
                let bad = match a {
                    Some(x) => x == i32::MIN || b == Some(i32::MIN),
                    None => false,
                };
                if bad {
                    assert(lookup_underflows(iv));
                    return true;
                }
            }
            k += 1;
        }
        assert(!lookup_underflows(iv));
        proof {
            reveal_strlit("lookup");
            reveal_strlit("date");
            assert("lookup"@.len() == 6);
            assert("date"@.len() == 4);
            assert("lookup"@ != "date"@);
        }
        return false;
    }
    if same_str(name, "date") && params.len() > 0 {
        assert(ps[0] == params@[0]@);
        let n = params[0].as_str().as_bytes().len();
        let c = chars_of(params[0].as_str());
        return n == 5 && c.len() != 5;
    }
    false
}

fn same_str(a: &str, b: &str) -> (r: bool)
    ensures
        r == (a@ == b@),
{
    let x = chars_of(a);
    let y = chars_of(b);
    if x.len() != y.len() {
        return false;
    }
    let mut i: usize = 0;
    while i < x.len()
        invariant
            i <= x@.len() == y@.len(),
            x@ == a@,
            y@ == b@,
            forall|j: int| 0 <= j < i ==> x@[j] == y@[j],
        decreases x@.len() - i,
    {
        if x[i] != y[i] {
            return false;
        }
        i += 1;
    }
    assert(x@ =~= y@);
    true
}

proof fn lemma_lookup_err(ps: Seq<Seq<char>>, k: int)
    requires
        0 <= k <= ps.len(),
        lookup_items(ps.take(k)) is Err,
    ensures
        lookup_items(ps) == lookup_items(ps.take(k)),
    decreases ps.len() - k,
{
    if k == ps.len() {
        assert(ps.take(k) =~= ps);
    } else {
        assert(ps.take(k + 1).drop_last() =~= ps.take(k));
        lemma_lookup_err(ps, k + 1);
    }
}

fn two_parts(s: &str) -> (r: Option<(String, String)>)
    ensures
        split_seq(s@, ':').len() == 2 <==> r is Some,
        r matches Some((a, b)) ==> a@ == split_seq(s@, ':')[0] && b@ == split_seq(s@, ':')[1],
{
    let parts = split_str(s, ':');
    assert(sview(parts@).len() == parts@.len());
    if parts.len() != 2 {
        return None;
    }
    assert(sview(parts@)[0] == parts@[0]@);
    assert(sview(parts@)[1] == parts@[1]@);
    Some((parts[0].clone(), parts[1].clone()))
}

fn lookup_joins(list: &str) -> (r: Result<Vec<(usize, usize)>, String>)
    requires
        !lookup_underflows(split_seq(list@, ',')),
    ensures
        match lookup_items(split_seq(list@, ',')) {
            Ok(v) => r matches Ok(w) && w@ == v,
            Err(e) => r matches Err(m) && m@ == e,
        },
{
    let items = split_str(list, ',');
    let ghost ps = sview(items@);
    let mut joins: Vec<(usize, usize)> = Vec::new();
    let mut i: usize = 0;
    while i < items.len()
        invariant
            i <= items@.len(),
            ps == sview(items@),
            ps == split_seq(list@, ','),
            ps.len() == items@.len(),
            !lookup_underflows(ps),
            lookup_items(ps.take(i as int)) == Ok::<Seq<(usize, usize)>, Seq<char>>(joins@),
        decreases items@.len() - i,
    {
        let item = items[i].as_str();
        proof {
            assert(ps.take(i + 1).drop_last() =~= ps.take(i as int));
            assert(ps.take(i + 1).last() == item@);
            assert(ps[i as int] == item@);
        }
        let mut bad = true;
        let mut f1: usize = 0;
        let mut f2: usize = 0;
        match two_parts(item) {
            Some((a, b)) => {
                match (parse_i32(a.as_str()), parse_i32(b.as_str())) {
                    (Some(x), Some(y)) => {
                        if x > i32::MIN && y > i32::MIN && x - 1 >= 0 && y - 1 >= 0 {
                            f1 = (x - 1) as usize;
                            f2 = (y - 1) as usize;
                            bad = false;
                        } else {
                            assert(!(x == i32::MIN || y == i32::MIN));
                        }
                    },
                    _ => {},
                }
            },
            None => {},
        }
        if bad {
            let mut m = lit("Invalid field list entry: ");
            push_str(&mut m, item);
            proof {
                assert(lookup_items(ps.take(i + 1)) == Err::<Seq<(usize, usize)>, Seq<char>>(m@));
                lemma_lookup_err(ps, i + 1);
            }
            return Err(m);
        }
        joins.push((f1, f2));
        i += 1;
    }
    assert(ps.take(items.len() as int) =~= ps);
    Ok(joins)
}

fn date_range_of(p: &str) -> (r: Result<(Date, Date), String>)
    ensures
        match date_range(p@) {
            Ok(v) => r == Ok::<(Date, Date), String>(v),
            Err(e) => r matches Err(m) && m@ == e,
        },
{
    match two_parts(p) {
        None => {
            let mut m = lit("Rule date has invalid range: ");
            push_str(&mut m, p);
            Err(m)
        },
        Some((a, b)) => {
            match (parse_iso_date(a.as_str()), parse_iso_date(b.as_str())) {
                (Some(lo), Some(hi)) => {
                    if before(&hi, &lo) {
                        let mut m = lit("Rule date has invalid range: ");
                        push_str(&mut m, p);
                        Err(m)
                    } else {
                        Ok((lo, hi))
                    }
                },
                _ => {
                    let mut m = lit("Rule date has invalid date in range: ");
                    push_str(&mut m, p);
                    Err(m)
                },
            }
        },
    }
}

/// Compiles a rule line's name, fields and parameters. Numeric ranges are
/// left as text, and a lookup rule names the file whose rows give its keys.
pub fn compile_rule(name: &str, fields: Vec<usize>, params: Vec<String>) -> (r: Result<CompiledRule, String>)
    requires
        !compile_panics(name@, sview(params@)),
    ensures
        match spec_compile(name@, fields@, sview(params@)) {
            Err(e) => r matches Err(m) && m@ == e,
            Ok(shape) => r matches Ok(c) && compiled_as(c, shape, fields@, sview(params@)),
        },
{
    let ghost ps = sview(params@);
    assert(ps.len() == params@.len());
    if params.len() > 0 {
        assert(ps[0] == params@[0]@);
    }
    if params.len() > 1 {
        assert(ps[1] == params@[1]@);
    }
    if same_str(name, "required") {
        if fields.len() == 0 {
            return Err(lit("required needs field list"));
        }
        return Ok(CompiledRule::Ready(Rule::Required { fields }));
    }
    if same_str(name, "notempty") {
        if fields.len() == 0 {
            return Err(lit("notempty needs field list"));
        }
        return Ok(CompiledRule::Ready(Rule::NotEmpty { fields }));
    }
    if same_str(name, "numeric") {
        if fields.len() == 0 {
            return Err(lit("numeric needs field list"));
        }
        return Ok(CompiledRule::Numeric { fields, ranges: params });
    }
    if same_str(name, "fields") {
        if params.len() == 0 {
            return Err(lit("Rule fields needs values"));
        } else if params.len() > 1 {
            return Err(lit("Rule fields needs min,max values only"));
        }
        match two_parts(params[0].as_str()) {
            None => return Err(lit("Rule fields needs min,max values")),
            Some((a, b)) => {
                match (parse_usize(a.as_str()), parse_usize(b.as_str())) {
                    (Some(lo), Some(hi)) => {
                        if lo < 1 || lo > hi {
                            return Err(lit("Rule fields has invalid min,max values"));
                        }
                        return Ok(CompiledRule::Ready(Rule::Fields { min: lo, max: hi }));
                    },
                    _ => return Err(lit("Rule fields needs min,max values as integers")),
                }
            },
        }
    }
    let is_not = same_str(name, "notvalues");
    if same_str(name, "values") || is_not {
        if fields.len() == 0 {
            let mut m = lit(name);
            push_str(&mut m, " needs field list");
            return Err(m);
        }
        if params.len() == 0 {
            let mut m = lit("Rule ");
            push_str(&mut m, name);
            push_str(&mut m, " needs values");
            return Err(m);
        }
        return Ok(CompiledRule::Ready(Rule::Values { fields, not_values: is_not, list: params }));
    }
    if same_str(name, "length") {
        if fields.len() == 0 {
            return Err(lit("length needs field list"));
        }
        if params.len() == 0 {
            return Err(lit("Rule length needs values"));
        }
        match two_parts(params[0].as_str()) {
            None => {
                let mut m = lit("Need range in form n1:n2, not ");
                push_str(&mut m, params[0].as_str());
                return Err(m);
            },
            Some((a, b)) => {
                match (parse_i32(a.as_str()), parse_i32(b.as_str())) {
                    (Some(lo), Some(hi)) => {
                        if lo < 0 || lo > hi {
                            let mut m = lit("Invalid range ");
                            push_str(&mut m, params[0].as_str());
                            push_str(&mut m, " in rule length");
                            return Err(m);
                        }
                        return Ok(
                            CompiledRule::Ready(
                                Rule::Length { fields, min: lo as usize, max: hi as usize },
                            ),
                        );
                    },
                    _ => {
                        let mut m = lit("Invalid number in range: ");
                        push_str(&mut m, params[0].as_str());
                        return Err(m);
                    },
                }
            },
        }
    }
    if same_str(name, "lookup") {
        if params.len() != 2 {
            return Err(lit("lookup needs field list and filename"));
        }
        let joins = match lookup_joins(params[0].as_str()) {
            Ok(j) => j,
            Err(e) => return Err(e),
        };
        let file = params[1].clone();
        return Ok(CompiledRule::Lookup { joins, lookup_file: file });
    }
    if same_str(name, "date") {
        if fields.len() == 0 {
            return Err(lit("date needs field list"));
        }
        if params.len() == 0 {
            return Err(lit("Rule date needs date mask"));
        }
        let mask = params[0].clone();
        let mut range: Option<(Date, Date)> = None;
        if params.len() == 2 {
            match date_range_of(params[1].as_str()) {
                Ok(rg) => {
                    range = Some(rg);
                },
                Err(e) => return Err(e),
            }
        } else if params.len() > 2 {
            return Err(lit("Rule date needs mask and range parameters only"));
        }
        proof {
            reveal_strlit("");
        }
        let reader = match MaskedDateReader::new(mask.as_str(), "", 1930) {
            Ok(rd) => rd,
            Err(e) => return Err(e),
        };
        return Ok(CompiledRule::Ready(Rule::Date { fields, mask, range, reader }));
    }
    let mut m = lit("Unknown rule: ");
    push_str(&mut m, name);
    Err(m)
}

/// The lookup rule whose keys are those of the rows of `lookup_file`:
/// for each row, the fields `joins[i].1`, each followed by a NUL.
pub fn lookup_rule(joins: Vec<(usize, usize)>, lookup_file: String, rows: &Vec<Vec<String>>) -> (r: Rule)
    ensures
        r matches Rule::Lookup { joins: j, lookup_file: f, join_vals } && j@ == joins@ && f@
            == lookup_file@ && join_vals@.len() == rows@.len() && forall|i: int|
            0 <= i < rows@.len() ==> (#[trigger] join_vals@[i])@ == lookup_key(
                sview(rows@[i]@),
                join_side(joins@, true),
            ),
{
    let ghost cols = join_side(joins@, true);
    let mut vals: Vec<String> = Vec::new();
    let mut i: usize = 0;
    while i < rows.len()
        invariant
            i <= rows@.len(),
            cols == join_side(joins@, true),
            cols.len() == joins@.len(),
            vals@.len() == i,
            forall|q: int|
                0 <= q < i ==> (#[trigger] vals@[q])@ == lookup_key(sview(rows@[q]@), cols),
        decreases rows@.len() - i,
    {
        let row = &rows[i];
        assert(sview(row@).len() == row@.len());
        let mut key = String::new();
        let mut k: usize = 0;
        while k < joins.len()
            invariant
                k <= joins@.len(),
                cols == join_side(joins@, true),
                cols.len() == joins@.len(),
                sview(row@).len() == row@.len(),
                key@ == lookup_key(sview(row@), cols.take(k as int)),
            decreases joins@.len() - k,
        {
            let (_, jf) = joins[k];
            proof {
                assert(cols.take(k + 1).drop_last() =~= cols.take(k as int));
                assert(cols.take(k + 1).last() == jf);
            }
            if jf < row.len() {
                assert(sview(row@)[jf as int] == row@[jf as int]@);
                push_str(&mut key, row[jf].as_str());
            }
            string_push(&mut key, '\0');
            k += 1;
        }
        assert(cols.take(joins.len() as int) =~= cols);
        vals.push(key);
        i += 1;
    }
    Rule::Lookup { joins, lookup_file, join_vals: vals }
}


/// What the validate command writes: a report of the failures, the rows
/// that pass, or the rows that fail.
#[derive(PartialEq, Eq, Structural, Clone, Copy)]
pub enum ValidateOutMode {
    Reports,
    Passes,
    Fails,
}

/// The output mode that an option names (`report` when there is none), or
/// its error.
pub open spec fn spec_out_mode(m: Option<Seq<char>>) -> Result<ValidateOutMode, Seq<char>> {
    let s = match m {
        None => "report"@,
        Some(x) => x,
    };
    if s == "report"@ {
        Ok(ValidateOutMode::Reports)
    } else if s == "pass"@ {
        Ok(ValidateOutMode::Passes)
    } else if s == "fail"@ {
        Ok(ValidateOutMode::Fails)
    } else {
        Err("Invalid value for output mode: "@ + s)
    }
}

/// Reads the output mode option (see [`spec_out_mode`]).
pub fn parse_out_mode(m: Option<&str>) -> (r: Result<ValidateOutMode, String>)
    ensures
        match spec_out_mode(
            match m {
                None => None,
                Some(x) => Some(x@),
            },
        ) {
            Ok(v) => r == Ok::<ValidateOutMode, String>(v),
            Err(e) => r matches Err(t) && t@ == e,
        },
{
    let s = match m {
        None => lit("report"),
        Some(x) => lit(x),
    };
    if s == lit("report") {
        Ok(ValidateOutMode::Reports)
    } else if s == lit("pass") {
        Ok(ValidateOutMode::Passes)
    } else if s == lit("fail") {
        Ok(ValidateOutMode::Fails)
    } else {
        let mut t = lit("Invalid value for output mode: ");
        push_str(&mut t, s.as_str());
        Err(t)
    }
}

/// A failure as a value: its field and message.
pub open spec fn result_v(r: ValidationResult) -> (usize, Seq<char>) {
    (r.field, r.msg@)
}

/// The failures of the checks of a row, as values.
pub open spec fn results_v(rs: Seq<Vec<ValidationResult>>) -> Seq<Seq<(usize, Seq<char>)>> {
    rs.map_values(|v: Vec<ValidationResult>| v@.map_values(|r: ValidationResult| result_v(r)))
}

/// The report line of a failure: `    field: n - msg`, or `    msg` when it
/// names no field.
pub open spec fn result_line(r: (usize, Seq<char>)) -> Seq<char> {
    if r.0 > 0 {
        "    field: "@ + dec_string(r.0 as nat) + " - "@ + r.1
    } else {
        "    "@ + r.1
    }
}

/// The report lines of the first `k` checks of a row and the number of
/// failed checks: the row's header before the first failure, then one line
/// per failure.
pub open spec fn report_run(
    results: Seq<Seq<(usize, Seq<char>)>>,
    header: Seq<char>,
    k: int,
) -> (Seq<Seq<char>>, int)
    decreases k,
{
    if k <= 0 {
        (seq![], 0)
    } else {
        let (ls, n) = report_run(results, header, k - 1);
        let res = results[k - 1];
        if res.len() == 0 {
            (ls, n)
        } else {
            (
                (if n == 0 {
                    ls.push(header)
                } else {
                    ls
                }) + res.map_values(|r: (usize, Seq<char>)| result_line(r)),
                n + 1,
            )
        }
    }
}

/// The number of failed checks among the first `k`.
pub open spec fn failed_count(results: Seq<Seq<(usize, Seq<char>)>>, k: int) -> int
    decreases k,
{
    if k <= 0 {
        0
    } else {
        failed_count(results, k - 1) + if results[k - 1].len() > 0 {
            1int
        } else {
            0
        }
    }
}

/// What the validate command does with a row whose checks gave `results`:
/// the report lines it writes, whether it writes the row, and the number
/// of failures it counts. A report lists every failed check; the passes
/// mode writes a row without failures; the fails mode writes a row at its
/// first failed check and counts that one.
pub open spec fn row_outcome(
    mode: ValidateOutMode,
    header: Seq<char>,
    results: Seq<Seq<(usize, Seq<char>)>>,
) -> (Seq<Seq<char>>, bool, int) {
    let n = failed_count(results, results.len() as int);
    match mode {
        ValidateOutMode::Reports => {
            let (ls, c) = report_run(results, header, results.len() as int);
            (ls, false, c)
        },
        ValidateOutMode::Passes => (seq![], n == 0, n),
        ValidateOutMode::Fails => (
            seq![],
            n > 0,
            if n > 0 {
                1
            } else {
                0
            },
        ),
    }
}

/// The header of a row's report: `file (line): input`.
pub open spec fn report_header(fname: Seq<char>, line_no: usize, input: Seq<char>) -> Seq<char> {
    fname + " ("@ + dec_string(line_no as nat) + "): "@ + input
}

/// The header of a row's report (see [`report_header`]).
pub fn make_report_header(fname: &str, line_no: usize, input: &str) -> (h: String)
    ensures
        h@ == report_header(fname@, line_no, input@),
{
    let mut h = lit(fname);
    push_str(&mut h, " (");
    let n = crate::num::usize_to_string(line_no);
    push_str(&mut h, n.as_str());
    push_str(&mut h, "): ");
    push_str(&mut h, input);
    h
}

/// The report line of a failure (see [`result_line`]).
fn make_result_line(r: &ValidationResult) -> (l: String)
    ensures
        l@ == result_line(result_v(*r)),
{
    if r.field > 0 {
        let mut l = lit("    field: ");
        let n = crate::num::usize_to_string(r.field);
        push_str(&mut l, n.as_str());
        push_str(&mut l, " - ");
        push_str(&mut l, r.msg.as_str());
        l
    } else {
        let mut l = lit("    ");
        push_str(&mut l, r.msg.as_str());
        l
    }
}

proof fn lemma_failed_count_bounds(results: Seq<Seq<(usize, Seq<char>)>>, k: int)
    requires
        0 <= k,
    ensures
        0 <= failed_count(results, k) <= k,
    decreases k,
{
    if k > 0 {
        lemma_failed_count_bounds(results, k - 1);
    }
}

proof fn lemma_report_count(results: Seq<Seq<(usize, Seq<char>)>>, header: Seq<char>, k: int)
    requires
        0 <= k,
    ensures
        report_run(results, header, k).1 == failed_count(results, k),
    decreases k,
{
    if k > 0 {
        lemma_report_count(results, header, k - 1);
    }
}

/// What the validate command does with a row whose checks gave `results`
/// (see [`row_outcome`]): report lines, whether to write the row, and the
/// failures counted; `header` heads the row's report.
pub fn validate_outcome(mode: ValidateOutMode, header: &str, results: &Vec<Vec<ValidationResult>>) -> (r: (
    Vec<String>,
    bool,
    usize,
))
    ensures
        (sview(r.0@), r.1, r.2 as int) == row_outcome(mode, header@, results_v(results@)),
{
    let ghost rv = results_v(results@);
    let mut lines: Vec<String> = Vec::new();
    let mut count: usize = 0;
    let mut k: usize = 0;
    assert(sview(lines@) =~= seq![]);
    while k < results.len()
        invariant
            k <= results@.len(),
            rv == results_v(results@),
            rv.len() == results@.len(),
            count as int == failed_count(rv, k as int),
            count <= k,
            mode == ValidateOutMode::Reports ==> report_run(rv, header@, k as int) == (
                sview(lines@),
                count as int,
            ),
            mode != ValidateOutMode::Reports ==> lines@.len() == 0,
        decreases results@.len() - k,
    {
        let res = &results[k];
        assert(rv[k as int] == res@.map_values(|r: ValidationResult| result_v(r)));
        if res.len() > 0 {
            if mode == ValidateOutMode::Reports {
                let ghost before = sview(lines@);
                if count == 0 {
                    lines.push(lit(header));
                }
                let ghost mid = sview(lines@);
                let mut j: usize = 0;
                while j < res.len()
                    invariant
                        j <= res@.len(),
                        sview(lines@) == mid + rv[k as int].take(j as int).map_values(
                            |r: (usize, Seq<char>)| result_line(r),
                        ),
                        rv[k as int] == res@.map_values(|r: ValidationResult| result_v(r)),
                    decreases res@.len() - j,
                {
                    let l = make_result_line(&res[j]);
                    let ghost lv = l@;
                    let ghost b2 = sview(lines@);
                    lines.push(l);
                    assert(sview(lines@) =~= b2.push(lv));
                    assert(rv[k as int].take(j + 1) =~= rv[k as int].take(j as int).push(
                        result_v(res@[j as int]),
                    ));
                    assert(sview(lines@) =~= mid + rv[k as int].take(j + 1).map_values(
                        |r: (usize, Seq<char>)| result_line(r),
                    ));
                    j += 1;
                }
                assert(rv[k as int].take(res@.len() as int) =~= rv[k as int]);
            }
            count += 1;
        }
        k += 1;
    }
    proof {
        lemma_failed_count_bounds(rv, rv.len() as int);
        lemma_report_count(rv, header@, rv.len() as int);
    }
    match mode {
        ValidateOutMode::Reports => (lines, false, count),
        ValidateOutMode::Passes => (lines, count == 0, count),
        ValidateOutMode::Fails => {
            assert(sview(lines@) =~= seq![]);
            (lines, count > 0, if count > 0 {
                1
            } else {
                0
            })
        },
    }
}

/// Under a values rule a field whose value is in the list gives no failure,
/// and one whose value is not gives exactly one failure naming the value;
/// under a notvalues rule it is the reverse. A field past the row's end
/// gives none.
pub proof fn lemma_values_rule(
    fields: Vec<usize>,
    not_values: bool,
    list: Vec<String>,
    row: Seq<Seq<char>>,
    idx: usize,
)
    ensures
        ({
            let rule = Rule::Values { fields, not_values, list };
            let listed = idx < row.len() && exists|j: int| 0 <= j < list@.len() && #[trigger] list@[j]@ == row[idx as int];
            let one = seq![failure(idx + 1, seq!['"'] + row[idx as int] + "\" is invalid value"@)];
            &&& idx >= row.len() ==> rule.field_check(row, idx) == Seq::<(bool, usize, Seq<char>)>::empty()
            &&& idx < row.len() && listed && !not_values ==> rule.field_check(row, idx) == Seq::<
                (bool, usize, Seq<char>),
            >::empty()
            &&& idx < row.len() && !listed && !not_values ==> rule.field_check(row, idx) == one
            &&& idx < row.len() && listed && not_values ==> rule.field_check(row, idx) == one
            &&& idx < row.len() && !listed && not_values ==> rule.field_check(row, idx) == Seq::<
                (bool, usize, Seq<char>),
            >::empty()
        }),
{
    if idx < row.len() {
        let v = row[idx as int];
        if exists|j: int| 0 <= j < list@.len() && #[trigger] list@[j]@ == v {
            let j = choose|j: int| 0 <= j < list@.len() && #[trigger] list@[j]@ == v;
            assert(sview(list@)[j] == v);
            assert(sview(list@).contains(v));
        } else {
            assert forall|j: int| 0 <= j < sview(list@).len() implies sview(list@)[j] != v by {
                assert(sview(list@)[j] == list@[j]@);
            }
            assert(!sview(list@).contains(v));
        }
    }
}

} // verus!
