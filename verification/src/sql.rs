//! Writing rows as SQL `INSERT`, `UPDATE` and `DELETE` statements.
use vstd::prelude::*;
use crate::args::{parse_indices, spec_parse_indices};
use crate::escape::{prefixed, sql_quote, squote, unescape_str, unescaped};
use crate::num::{dec_string, spec_parse_i32, parse_i32, usize_to_string};
use crate::rows::contains_index;
use crate::text::{chars_of, lit, push_str, split_seq, split_str, string_push, sview};

verus! {

/// A field of the input (0-based) and the column it goes to.
pub struct SQLColSpec {
    pub field: usize,
    pub col_name: String,
}

/// A column specification as its field and column name.
pub open spec fn col_view(c: SQLColSpec) -> (usize, Seq<char>) {
    (c.field, c.col_name@)
}

/// The column specifications as views.
pub open spec fn cols_of(v: Seq<SQLColSpec>) -> Seq<(usize, Seq<char>)> {
    v.map_values(|c: SQLColSpec| col_view(c))
}

/// Reads the items `field:name` (or `field` alone while no name has been
/// given) of a column list, where a lone item that is no number is the
/// name of the column for the field at its place in the list; the state is
/// the columns read and whether a name has been seen.
pub open spec fn sql_items(items: Seq<Seq<char>>) -> Result<(Seq<(usize, Seq<char>)>, bool), Seq<char>>
    decreases items.len(),
{
    if items.len() == 0 {
        Ok((seq![], false))
    } else {
        match sql_items(items.drop_last()) {
            Err(e) => Err(e),
            Ok((v, havenames)) => {
                let item = items.last();
                let parts = split_seq(item, ':');
                if parts.len() > 2 {
                    Err("Invalid column specification: "@ + item)
                } else {
                    match spec_parse_i32(parts[0]) {
                        None => if parts.len() == 1 && item.len() > 0 {
                            Ok((v.push((v.len() as usize, item)), true))
                        } else {
                            Err("Field index must be integer in "@ + item)
                        },
                        Some(icol) => if icol <= 0 {
                            Err("Field index must be greater than zero in "@ + item)
                        } else if parts.len() == 1 && havenames {
                            Err("Must specify all column names"@)
                        } else {
                            Ok((
                                v.push(((icol - 1) as usize, if parts.len() == 2 {
                                    parts[1]
                                } else {
                                    seq![]
                                })),
                                havenames || parts.len() == 2,
                            ))
                        },
                    }
                }
            },
        }
    }
}

proof fn lemma_sql_err(ps: Seq<Seq<char>>, k: int)
    requires
        0 <= k <= ps.len(),
        sql_items(ps.take(k)) is Err,
    ensures
        sql_items(ps) == sql_items(ps.take(k)),
    decreases ps.len() - k,
{
    if k == ps.len() {
        assert(ps.take(k) =~= ps);
    } else {
        assert(ps.take(k + 1).drop_last() =~= ps.take(k));
        lemma_sql_err(ps, k + 1);
    }
}

/// Reads a comma-separated column list such as `1:id,3:name` or
/// `id,name,email`.
pub fn parse_sql_col_specs(s: &str) -> (r: Result<Vec<SQLColSpec>, String>)
    ensures
        match sql_items(split_seq(s@, ',')) {
            Ok((v, _)) => r matches Ok(w) && cols_of(w@) == v,
            Err(e) => r matches Err(m) && m@ == e,
        },
{
    let items = split_str(s, ',');
    let ghost ps = sview(items@);
    let mut specs: Vec<SQLColSpec> = Vec::new();
    let mut havenames = false;
    let mut i: usize = 0;
    assert(cols_of(specs@) =~= Seq::<(usize, Seq<char>)>::empty());
    assert(ps.take(0) =~= Seq::<Seq<char>>::empty());
    while i < items.len()
        invariant
            i <= items@.len(),
            ps == sview(items@),
            ps == split_seq(s@, ','),
            ps.len() == items@.len(),
            sql_items(ps.take(i as int)) == Ok::<(Seq<(usize, Seq<char>)>, bool), Seq<char>>(
                (cols_of(specs@), havenames),
            ),
        decreases items@.len() - i,
    {
        proof {
            assert(ps.take(i + 1).drop_last() =~= ps.take(i as int));
            assert(ps.take(i + 1).last() == items@[i as int]@);
        }
        let item = items[i].as_str();
        let parts = split_str(item, ':');
        proof {
            crate::text::lemma_split_nonempty(item@, ':');
            assert(sview(parts@).len() == parts@.len());
            assert(sview(parts@)[0] == parts@[0]@);
        }
        if parts.len() > 2 {
            let mut m = lit("Invalid column specification: ");
            push_str(&mut m, item);
            proof {
                lemma_sql_err(ps, i + 1);
            }
            return Err(m);
        }
        let icol = match parse_i32(parts[0].as_str()) {
            None => {
                if parts.len() == 1 && chars_of(item).len() > 0 {
                    let ghost before = specs@;
                    assert(cols_of(before).len() == before.len());
                    specs.push(SQLColSpec { field: specs.len(), col_name: items[i].clone() });
                    assert(cols_of(specs@) =~= cols_of(before).push(col_view(specs@.last())));
                    havenames = true;
                    i += 1;
                    continue;
                }
                let mut m = lit("Field index must be integer in ");
                push_str(&mut m, item);
                proof {
                    lemma_sql_err(ps, i + 1);
                }
                return Err(m);
            },
            Some(n) => n,
        };
        if icol <= 0 {
            let mut m = lit("Field index must be greater than zero in ");
            push_str(&mut m, item);
            proof {
                lemma_sql_err(ps, i + 1);
            }
            return Err(m);
        }
        if parts.len() == 1 && havenames {
            proof {
                lemma_sql_err(ps, i + 1);
            }
            return Err(lit("Must specify all column names"));
        }
        if parts.len() == 2 {
            havenames = true;
        }
        let col_name = if parts.len() == 2 {
            assert(sview(parts@)[1] == parts@[1]@);
            parts[1].clone()
        } else {
            String::new()
        };
        let ghost before = specs@;
        specs.push(SQLColSpec { field: (icol - 1) as usize, col_name });
        assert(cols_of(specs@) =~= cols_of(before).push(col_view(specs@.last())));
        i += 1;
    }
    assert(ps.take(items.len() as int) =~= ps);
    Ok(specs)
}

/// The settings of the SQL commands.
pub struct SQLConfig {
    pub table: String,
    pub sep: String,
    pub no_quote: Vec<usize>,
    pub quote_nulls: bool,
    pub empty_nulls: bool,
}

/// `s` is `NULL`, ASCII case ignored.
pub open spec fn is_null_word(s: Seq<char>) -> bool {
    &&& s.len() == 4
    &&& (s[0] == 'N' || s[0] == 'n')
    &&& (s[1] == 'U' || s[1] == 'u')
    &&& (s[2] == 'L' || s[2] == 'l')
    &&& (s[3] == 'L' || s[3] == 'l')
}

impl SQLConfig {
    /// The settings: a table name is needed; the statement separator is
    /// given with escapes, or is a newline, `;` and a newline; the fields
    /// not to quote are a field list.
    pub fn new(
        table: String,
        sep_opt: Option<&str>,
        no_quote_str: Option<&str>,
        quote_nulls: bool,
        empty_nulls: bool,
    ) -> (r: Result<Self, String>)
        ensures
            table@.len() == 0 ==> (r matches Err(e) && e@ == "Need table name"@),
            table@.len() > 0 ==> match no_quote_str {
                Some(nq) if nq@.len() > 0 => match spec_parse_indices(nq@) {
                    Err(e) => r matches Err(m) && m@ == e,
                    Ok(v) => r matches Ok(c) && c.no_quote@ == v,
                },
                _ => r matches Ok(c) && c.no_quote@.len() == 0,
            },
            r matches Ok(c) ==> (c.table@ == table@ && c.quote_nulls == quote_nulls && c.empty_nulls
                == empty_nulls && c.sep@ == match sep_opt {
                Some(s) => unescaped(s@),
                None => seq!['\n', ';', '\n'],
            }),
    {
        if table.as_str().is_empty() {
            return Err(lit("Need table name"));
        }
        let sep = match sep_opt {
            Some(s) => unescape_str(s),
            None => {
                let mut t = String::new();
                string_push(&mut t, '\n');
                string_push(&mut t, ';');
                string_push(&mut t, '\n');
                assert(t@ =~= seq!['\n', ';', '\n']);
                t
            },
        };
        let no_quote = match no_quote_str {
            Some(nq) => {
                if nq.is_empty() {
                    Vec::new()
                } else {
                    match parse_indices(nq) {
                        Ok(v) => v,
                        Err(e) => return Err(e),
                    }
                }
            },
            None => Vec::new(),
        };
        Ok(SQLConfig { table, sep, no_quote, quote_nulls, empty_nulls })
    }

    /// Field `i` is quoted.
    pub fn do_sql_quote(&self, i: usize) -> (b: bool)
        ensures
            b == !self.no_quote@.contains(i),
    {
        !contains_index(&self.no_quote, i)
    }

    /// The value is `NULL` and nulls are not quoted.
    pub fn no_null_quote(&self, field: &str) -> (b: bool)
        ensures
            b == (is_null_word(field@) && !self.quote_nulls),
    {
        let cs = chars_of(field);
        let is_null = cs.len() == 4 && (cs[0] == 'N' || cs[0] == 'n') && (cs[1] == 'U' || cs[1]
            == 'u') && (cs[2] == 'L' || cs[2] == 'l') && (cs[3] == 'L' || cs[3] == 'l');
        if is_null {
            !self.quote_nulls
        } else {
            false
        }
    }

    /// The value, with an empty one as `NULL` when asked.
    pub open spec fn null_of(&self, f: Seq<char>) -> Seq<char> {
        if self.empty_nulls && f.len() == 0 {
            "NULL"@
        } else {
            f
        }
    }

    /// An empty field becomes `NULL` when asked.
    pub fn empty_to_null(&self, field: &str) -> (s: String)
        ensures
            s@ == self.null_of(field@),
    {
        if self.empty_nulls && field.is_empty() {
            lit("NULL")
        } else {
            lit(field)
        }
    }

    /// The SQL text of value `f` of the `i`-th column.
    pub open spec fn value_expr(&self, i: usize, f: Seq<char>) -> Seq<char> {
        let v = self.null_of(f);
        if !self.no_quote@.contains(i) && !(is_null_word(v) && !self.quote_nulls) {
            seq!['\''] + prefixed(v, seq!['\''], '\'') + seq!['\'']
        } else {
            v
        }
    }

    /// The SQL text of a field value: quoted, with quotes doubled, unless
    /// the column is not to be quoted or the value is an unquoted `NULL`.
    pub fn make_value_expr(&self, i: usize, field: &str) -> (s: String)
        ensures
            s@ == self.value_expr(i, field@),
    {
        let f_val = self.empty_to_null(field);
        if self.do_sql_quote(i) && !self.no_null_quote(f_val.as_str()) {
            let q = sql_quote(f_val.as_str());
            squote(q.as_str())
        } else {
            f_val
        }
    }

    /// The `WHERE` conditions for `cols` from the `k`-th on, joined with
    /// `AND`; each compares a column with `IS` for `NULL`, else with `=`.
    pub open spec fn where_terms(&self, row: Seq<Seq<char>>, cols: Seq<(usize, Seq<char>)>) -> Result<Seq<char>, Seq<char>>
        decreases cols.len(),
    {
        if cols.len() == 0 {
            Ok(seq![])
        } else {
            match self.where_terms(row, cols.drop_last()) {
                Err(e) => Err(e),
                Ok(prev) => {
                    let i = (cols.len() - 1) as usize;
                    let (wi, name) = cols.last();
                    if wi >= row.len() {
                        Err("Required field "@ + dec_string((wi + 1) as nat) + " missing in input"@)
                    } else {
                        let f = self.null_of(row[wi as int]);
                        let op = if f == "NULL"@ {
                            " IS "@
                        } else {
                            " = "@
                        };
                        let term = name + op + self.value_expr(i, row[wi as int]);
                        Ok(if prev.len() > 0 {
                            prev + " AND "@ + term
                        } else {
                            term
                        })
                    }
                },
            }
        }
    }

    /// The `WHERE` clause of a row.
    pub fn make_where_clause(&self, row: &Vec<String>, where_cols: &Vec<SQLColSpec>) -> (r: Result<String, String>)
        requires
            forall|k: int| 0 <= k < where_cols@.len() ==> (#[trigger] where_cols@[k]).field < usize::MAX,
        ensures
            match self.where_terms(sview(row@), cols_of(where_cols@)) {
                Ok(w) => r matches Ok(s) && s@ == "WHERE "@ + w,
                Err(e) => r matches Err(m) && m@ == e,
            },
    {
        let ghost cv = cols_of(where_cols@);
        let mut wc = String::new();
        let mut i: usize = 0;
        assert(sview(row@).len() == row@.len());
        while i < where_cols.len()
            invariant
                i <= where_cols@.len(),
                cv == cols_of(where_cols@),
                cv.len() == where_cols@.len(),
                sview(row@).len() == row@.len(),
                forall|k: int| 0 <= k < where_cols@.len() ==> (#[trigger] where_cols@[k]).field < usize::MAX,
                self.where_terms(sview(row@), cv.take(i as int)) == Ok::<Seq<char>, Seq<char>>(wc@),
            decreases where_cols@.len() - i,
        {
            let spec = &where_cols[i];
            let wi = spec.field;
            proof {
                assert(cv.take(i + 1).drop_last() =~= cv.take(i as int));
                assert(cv.take(i + 1).last() == col_view(where_cols@[i as int]));
            }
            if wi >= row.len() {
                let mut m = lit("Required field ");
                let n = usize_to_string(wi + 1);
                push_str(&mut m, n.as_str());
                push_str(&mut m, " missing in input");
                proof {
                    lemma_where_err(*self, sview(row@), cv, i as int + 1);
                }
                return Err(m);
            }
            assert(sview(row@)[wi as int] == row@[wi as int]@);
            let ghost prev = wc@;
            if !wc.as_str().is_empty() {
                push_str(&mut wc, " AND ");
            }
            let field = self.empty_to_null(row[wi].as_str());
            let null = lit("NULL");
            let op = if field == null {
                " IS "
            } else {
                " = "
            };
            let val_expr = self.make_value_expr(i, row[wi].as_str());
            push_str(&mut wc, spec.col_name.as_str());
            push_str(&mut wc, op);
            push_str(&mut wc, val_expr.as_str());
            proof {
                let term = spec.col_name@ + op@ + val_expr@;
                if prev.len() > 0 {
                    assert(wc@ =~= prev + " AND "@ + term);
                } else {
                    assert(wc@ =~= term);
                }
            }
            i += 1;
        }
        assert(cv.take(where_cols.len() as int) =~= cv);
        let mut out = lit("WHERE ");
        push_str(&mut out, wc.as_str());
        Ok(out)
    }

    /// The values of the data columns, joined with `, `.
    pub open spec fn value_list(&self, row: Seq<Seq<char>>, cols: Seq<(usize, Seq<char>)>) -> Result<Seq<char>, Seq<char>>
        decreases cols.len(),
    {
        if cols.len() == 0 {
            Ok(seq![])
        } else {
            match self.value_list(row, cols.drop_last()) {
                Err(e) => Err(e),
                Ok(prev) => {
                    let i = (cols.len() - 1) as usize;
                    let (fi, name) = cols.last();
                    if fi >= row.len() {
                        Err("Required field "@ + dec_string((fi + 1) as nat) + " missing from input"@)
                    } else {
                        Ok((if i > 0 {
                            prev + ", "@
                        } else {
                            prev
                        }) + self.value_expr(i, row[fi as int]))
                    }
                },
            }
        }
    }

    /// The `SET` assignments of the data columns, joined with `, `.
    pub open spec fn set_list(&self, row: Seq<Seq<char>>, cols: Seq<(usize, Seq<char>)>) -> Result<Seq<char>, Seq<char>>
        decreases cols.len(),
    {
        if cols.len() == 0 {
            Ok(seq![])
        } else {
            match self.set_list(row, cols.drop_last()) {
                Err(e) => Err(e),
                Ok(prev) => {
                    let i = (cols.len() - 1) as usize;
                    let (fi, name) = cols.last();
                    if fi >= row.len() {
                        Err("Required field "@ + dec_string((fi + 1) as nat) + " missing from input"@)
                    } else {
                        Ok((if i > 0 {
                            prev + ", "@
                        } else {
                            prev
                        }) + name + " = "@ + self.value_expr(i, row[fi as int]))
                    }
                },
            }
        }
    }

    fn value_or_set(&self, row: &Vec<String>, cols: &Vec<SQLColSpec>, set: bool) -> (r: Result<String, String>)
        requires
            forall|k: int| 0 <= k < cols@.len() ==> (#[trigger] cols@[k]).field < usize::MAX,
        ensures
            match (if set {
                self.set_list(sview(row@), cols_of(cols@))
            } else {
                self.value_list(sview(row@), cols_of(cols@))
            }) {
                Ok(w) => r matches Ok(s) && s@ == w,
                Err(e) => r matches Err(m) && m@ == e,
            },
    {
        let ghost cv = cols_of(cols@);
        let mut out = String::new();
        let mut i: usize = 0;
        assert(sview(row@).len() == row@.len());
        while i < cols.len()
            invariant
                i <= cols@.len(),
                cv == cols_of(cols@),
                cv.len() == cols@.len(),
                sview(row@).len() == row@.len(),
                forall|k: int| 0 <= k < cols@.len() ==> (#[trigger] cols@[k]).field < usize::MAX,
                (if set {
                    self.set_list(sview(row@), cv.take(i as int))
                } else {
                    self.value_list(sview(row@), cv.take(i as int))
                }) == Ok::<Seq<char>, Seq<char>>(out@),
            decreases cols@.len() - i,
        {
            let spec = &cols[i];
            let fi = spec.field;
            proof {
                assert(cv.take(i + 1).drop_last() =~= cv.take(i as int));
                assert(cv.take(i + 1).last() == col_view(cols@[i as int]));
            }
            if fi >= row.len() {
                let mut m = lit("Required field ");
                let n = usize_to_string(fi + 1);
                push_str(&mut m, n.as_str());
                push_str(&mut m, " missing from input");
                proof {
                    lemma_list_err(*self, sview(row@), cv, i as int + 1, set);
                }
                return Err(m);
            }
            assert(sview(row@)[fi as int] == row@[fi as int]@);
            let ghost prev = out@;
            if i > 0 {
                push_str(&mut out, ", ");
            }
            if set {
                push_str(&mut out, spec.col_name.as_str());
                push_str(&mut out, " = ");
            }
            let v = self.make_value_expr(i, row[fi].as_str());
            push_str(&mut out, v.as_str());
            proof {
                if set {
                    assert(out@ =~= (if i > 0 {
                        prev + ", "@
                    } else {
                        prev
                    }) + spec.col_name@ + " = "@ + v@);
                } else {
                    assert(out@ =~= (if i > 0 {
                        prev + ", "@
                    } else {
                        prev
                    }) + v@);
                }
            }
            i += 1;
        }
        assert(cv.take(cols.len() as int) =~= cv);
        Ok(out)
    }

    /// The column names of an insert: `( a, b )`.
    pub open spec fn name_list(cols: Seq<(usize, Seq<char>)>) -> Seq<char>
        decreases cols.len(),
    {
        if cols.len() == 0 {
            seq![]
        } else {
            (if cols.len() > 1 {
                Self::name_list(cols.drop_last()) + ", "@
            } else {
                seq![]
            }) + cols.last().1
        }
    }

    /// The `INSERT` statement of a row.
    pub fn insert_stmt(&self, row: &Vec<String>, cols: &Vec<SQLColSpec>) -> (r: Result<String, String>)
        requires
            forall|k: int| 0 <= k < cols@.len() ==> (#[trigger] cols@[k]).field < usize::MAX,
        ensures
            match self.value_list(sview(row@), cols_of(cols@)) {
                Ok(v) => r matches Ok(s) && s@ == "INSERT INTO "@ + self.table@ + " "@ + "( "@
                    + Self::name_list(cols_of(cols@)) + " )"@ + " VALUES( "@ + v + ")"@ + self.sep@,
                Err(e) => r matches Err(m) && m@ == e,
            },
    {
        let vals = match self.value_or_set(row, cols, false) {
            Ok(v) => v,
            Err(e) => return Err(e),
        };
        let ghost cv = cols_of(cols@);
        let mut names = String::new();
        let mut i: usize = 0;
        while i < cols.len()
            invariant
                i <= cols@.len(),
                cv == cols_of(cols@),
                cv.len() == cols@.len(),
                names@ == Self::name_list(cv.take(i as int)),
            decreases cols@.len() - i,
        {
            proof {
                assert(cv.take(i + 1).drop_last() =~= cv.take(i as int));
                assert(cv.take(i + 1).last() == col_view(cols@[i as int]));
            }
            if i > 0 {
                push_str(&mut names, ", ");
            }
            push_str(&mut names, cols[i].col_name.as_str());
            i += 1;
        }
        assert(cv.take(cols.len() as int) =~= cv);
        let mut s = lit("INSERT INTO ");
        push_str(&mut s, self.table.as_str());
        push_str(&mut s, " ");
        push_str(&mut s, "( ");
        push_str(&mut s, names.as_str());
        push_str(&mut s, " )");
        push_str(&mut s, " VALUES( ");
        push_str(&mut s, vals.as_str());
        push_str(&mut s, ")");
        push_str(&mut s, self.sep.as_str());
        Ok(s)
    }

    /// The `UPDATE` statement of a row.
    pub fn update_stmt(&self, row: &Vec<String>, cols: &Vec<SQLColSpec>, where_cols: &Vec<SQLColSpec>) -> (r:
        Result<String, String>)
        requires
            forall|k: int| 0 <= k < cols@.len() ==> (#[trigger] cols@[k]).field < usize::MAX,
            forall|k: int| 0 <= k < where_cols@.len() ==> (#[trigger] where_cols@[k]).field < usize::MAX,
        ensures
            match self.set_list(sview(row@), cols_of(cols@)) {
                Err(e) => r matches Err(m) && m@ == e,
                Ok(set) => match self.where_terms(sview(row@), cols_of(where_cols@)) {
                    Err(e) => r matches Err(m) && m@ == e,
                    Ok(w) => r matches Ok(s) && s@ == "UPDATE "@ + self.table@ + " "@ + "SET "@ + set
                        + " "@ + "WHERE "@ + w + self.sep@,
                },
            },
    {
        let set = match self.value_or_set(row, cols, true) {
            Ok(v) => v,
            Err(e) => return Err(e),
        };
        let wc = match self.make_where_clause(row, where_cols) {
            Ok(w) => w,
            Err(e) => return Err(e),
        };
        let mut s = lit("UPDATE ");
        push_str(&mut s, self.table.as_str());
        push_str(&mut s, " ");
        push_str(&mut s, "SET ");
        push_str(&mut s, set.as_str());
        push_str(&mut s, " ");
        push_str(&mut s, wc.as_str());
        push_str(&mut s, self.sep.as_str());
        Ok(s)
    }

    /// The `DELETE` statement of a row.
    pub fn delete_stmt(&self, row: &Vec<String>, where_cols: &Vec<SQLColSpec>) -> (r: Result<String, String>)
        requires
            forall|k: int| 0 <= k < where_cols@.len() ==> (#[trigger] where_cols@[k]).field < usize::MAX,
        ensures
            match self.where_terms(sview(row@), cols_of(where_cols@)) {
                Err(e) => r matches Err(m) && m@ == e,
                Ok(w) => r matches Ok(s) && s@ == "DELETE FROM "@ + self.table@ + " "@ + "WHERE "@ + w
                    + self.sep@,
            },
    {
        let wc = match self.make_where_clause(row, where_cols) {
            Ok(w) => w,
            Err(e) => return Err(e),
        };
        let mut s = lit("DELETE FROM ");
        push_str(&mut s, self.table.as_str());
        push_str(&mut s, " ");
        push_str(&mut s, wc.as_str());
        push_str(&mut s, self.sep.as_str());
        Ok(s)
    }
}

proof fn lemma_where_err(c: SQLConfig, row: Seq<Seq<char>>, cv: Seq<(usize, Seq<char>)>, k: int)
    requires
        0 <= k <= cv.len(),
        c.where_terms(row, cv.take(k)) is Err,
    ensures
        c.where_terms(row, cv) == c.where_terms(row, cv.take(k)),
    decreases cv.len() - k,
{
    if k == cv.len() {
        assert(cv.take(k) =~= cv);
    } else {
        assert(cv.take(k + 1).drop_last() =~= cv.take(k));
        lemma_where_err(c, row, cv, k + 1);
    }
}

proof fn lemma_list_err(c: SQLConfig, row: Seq<Seq<char>>, cv: Seq<(usize, Seq<char>)>, k: int, set: bool)
    requires
        0 <= k <= cv.len(),
        (if set {
            c.set_list(row, cv.take(k))
        } else {
            c.value_list(row, cv.take(k))
        }) is Err,
    ensures
        (if set {
            c.set_list(row, cv) == c.set_list(row, cv.take(k))
        } else {
            c.value_list(row, cv) == c.value_list(row, cv.take(k))
        }),
    decreases cv.len() - k,
{
    if k == cv.len() {
        assert(cv.take(k) =~= cv);
    } else {
        assert(cv.take(k + 1).drop_last() =~= cv.take(k));
        lemma_list_err(c, row, cv, k + 1, set);
    }
}

/// The first column of a list has a name.
pub fn has_column_names(cols: &Vec<SQLColSpec>) -> (b: bool)
    ensures
        b == (cols@.len() > 0 && cols@[0].col_name@.len() > 0),
{
    cols.len() > 0 && !cols[0].col_name.as_str().is_empty()
}


proof fn lemma_where_nonempty(cfg: SQLConfig, row: Seq<Seq<char>>, cols: Seq<(usize, Seq<char>)>)
    requires
        cols.len() >= 1,
        cfg.where_terms(row, cols) is Ok,
    ensures
        cfg.where_terms(row, cols)->Ok_0.len() > 0,
    decreases cols.len(),
{
    reveal_strlit(" IS ");
    reveal_strlit(" = ");
    if cols.len() > 1 {
        lemma_where_nonempty(cfg, row, cols.drop_last());
    }
}

/// The `WHERE` clause is the conjunction of one comparison per key column:
/// each further column adds its comparison (`IS` for `NULL`, `=` for
/// anything else) after ` AND `, so a row matches only where every key
/// column matches.
pub proof fn lemma_where_conjunction(
    cfg: SQLConfig,
    row: Seq<Seq<char>>,
    cols: Seq<(usize, Seq<char>)>,
    wi: usize,
    name: Seq<char>,
)
    requires
        cols.len() >= 1,
        cfg.where_terms(row, cols) is Ok,
        wi < row.len(),
    ensures
        cfg.where_terms(row, cols.push((wi, name))) == Ok::<Seq<char>, Seq<char>>(
            cfg.where_terms(row, cols)->Ok_0 + " AND "@ + name + (if cfg.null_of(row[wi as int]) == "NULL"@ {
                " IS "@
            } else {
                " = "@
            }) + cfg.value_expr(cols.len() as usize, row[wi as int]),
        ),
{
    lemma_where_nonempty(cfg, row, cols);
    assert(cols.push((wi, name)).drop_last() =~= cols);
    assert(cols.push((wi, name)).last() == (wi, name));
    let prev = cfg.where_terms(row, cols)->Ok_0;
    let op = if cfg.null_of(row[wi as int]) == "NULL"@ {
        " IS "@
    } else {
        " = "@
    };
    assert(prev + " AND "@ + (name + op + cfg.value_expr(cols.len() as usize, row[wi as int])) =~= prev
        + " AND "@ + name + op + cfg.value_expr(cols.len() as usize, row[wi as int]));
}

/// The `WHERE` clause of one key column is that column's comparison alone.
pub proof fn lemma_where_single(cfg: SQLConfig, row: Seq<Seq<char>>, wi: usize, name: Seq<char>)
    requires
        wi < row.len(),
    ensures
        cfg.where_terms(row, seq![(wi, name)]) == Ok::<Seq<char>, Seq<char>>(
            name + (if cfg.null_of(row[wi as int]) == "NULL"@ {
                " IS "@
            } else {
                " = "@
            }) + cfg.value_expr(0, row[wi as int]),
        ),
{
    let c = seq![(wi, name)];
    assert(c.drop_last() =~= Seq::<(usize, Seq<char>)>::empty());
    assert(cfg.where_terms(row, c.drop_last()) == Ok::<Seq<char>, Seq<char>>(Seq::<char>::empty()));
    assert(c.last() == (wi, name));
    assert(c.len() - 1 == 0);
}

} // verus!
