//! The format strings of the printf command: their parsing into literal
//! text, ignored fields and conversions, the field each conversion takes,
//! and the assembly of an output line from the formatted values.
use vstd::prelude::*;
use crate::num::{dec_string, parse_usize, spec_parse_usize, usize_to_string};
use crate::table::{byte_len, byte_prefix, cut_ok, left_pad_str, lemma_encode_append, right_pad_str, spaces};
use crate::text::{chars_of, lit, push_chars, push_str, string_push, sview};

verus! {

/// A conversion specification: flags, width, precision and conversion
/// character.
pub struct PrintfSpec {
    pub flags: String,
    pub width: Option<usize>,
    pub precision: Option<usize>,
    pub conv: char,
}

/// The kind of an item of a format string.
#[derive(PartialEq, Eq, Structural, Clone, Copy)]
pub enum FmtType {
    Literal,
    Formatter,
    Ignore,
}

/// An item of a format string: literal text, a conversion (its text and
/// specification), or `%@`, which skips a field.
pub struct PrintfFmt {
    pub type_val: FmtType,
    pub text: String,
    pub spec: Option<PrintfSpec>,
}

/// A conversion specification as a value.
pub type SpecV = (Seq<char>, Option<usize>, Option<usize>, char);

/// A specification as a value.
pub open spec fn spec_v(s: PrintfSpec) -> SpecV {
    (s.flags@, s.width, s.precision, s.conv)
}

/// An item of a format string as a value.
pub open spec fn fmt_v(f: PrintfFmt) -> (FmtType, Seq<char>, Option<SpecV>) {
    (
        f.type_val,
        f.text@,
        match f.spec {
            Some(s) => Some(spec_v(s)),
            None => None,
        },
    )
}

/// The items of a format string as values.
pub open spec fn fmts_v(fs: Seq<PrintfFmt>) -> Seq<(FmtType, Seq<char>, Option<SpecV>)> {
    fs.map_values(|f: PrintfFmt| fmt_v(f))
}

/// Whether `c` is a printf flag.
pub open spec fn is_flag(c: char) -> bool {
    c == '-' || c == '+' || c == ' ' || c == '0' || c == '#'
}

/// Whether `c` is an ASCII digit.
pub open spec fn is_ascii_digit(c: char) -> bool {
    '0' <= c <= '9'
}

/// The end of the run of flags from `i`.
pub open spec fn flags_end(cs: Seq<char>, i: int) -> int
    decreases cs.len() - i,
{
    if 0 <= i < cs.len() && is_flag(cs[i]) {
        flags_end(cs, i + 1)
    } else {
        i
    }
}

/// The end of the run of ASCII digits from `i`.
pub open spec fn digits_end(cs: Seq<char>, i: int) -> int
    decreases cs.len() - i,
{
    if 0 <= i < cs.len() && is_ascii_digit(cs[i]) {
        digits_end(cs, i + 1)
    } else {
        i
    }
}

/// The specification that a conversion text `%[flags][width][.prec]c`
/// holds: the width when its digits fit a `usize`, the precision (0 for a
/// bare `.`), and the character after them; `None` when the text does not
/// start with `%` or ends too early.
pub open spec fn spec_printf_spec(s: Seq<char>) -> Option<SpecV> {
    if s.len() == 0 || s[0] != '%' {
        None
    } else {
        let i1 = flags_end(s, 1);
        let i2 = digits_end(s, i1);
        let width = if i2 > i1 {
            spec_parse_usize(s.subrange(i1, i2))
        } else {
            None
        };
        let has_dot = i2 < s.len() && s[i2] == '.';
        let i3 = if has_dot {
            digits_end(s, i2 + 1)
        } else {
            i2
        };
        let precision = if has_dot {
            if i3 > i2 + 1 {
                spec_parse_usize(s.subrange(i2 + 1, i3))
            } else {
                Some(0usize)
            }
        } else {
            None
        };
        if i3 < s.len() {
            Some((s.subrange(1, i1), width, precision, s[i3]))
        } else {
            None
        }
    }
}

proof fn lemma_run_ends(cs: Seq<char>, i: int)
    requires
        0 <= i <= cs.len(),
    ensures
        i <= flags_end(cs, i) <= cs.len(),
        i <= digits_end(cs, i) <= cs.len(),
        forall|k: int| i <= k < flags_end(cs, i) ==> is_flag(#[trigger] cs[k]),
        forall|k: int| i <= k < digits_end(cs, i) ==> is_ascii_digit(#[trigger] cs[k]),
    decreases cs.len() - i,
{
    if i < cs.len() {
        lemma_run_ends(cs, i + 1);
    }
}

/// Parses a conversion text (see [`spec_printf_spec`]).
pub fn parse_printf_specifier(spec: &str) -> (r: Option<PrintfSpec>)
    ensures
        match spec_printf_spec(spec@) {
            None => r is None,
            Some(v) => r matches Some(p) && spec_v(p) == v,
        },
{
    let cs = chars_of(spec);
    let n = cs.len();
    if n == 0 || cs[0] != '%' {
        return None;
    }
    let mut i: usize = 1;
    while i < n && (cs[i] == '-' || cs[i] == '+' || cs[i] == ' ' || cs[i] == '0' || cs[i] == '#')
        invariant
            1 <= i <= n == cs@.len(),
            flags_end(cs@, 1) == flags_end(cs@, i as int),
        decreases n - i,
    {
        i += 1;
    }
    let i1 = i;
    let mut flags = String::new();
    push_chars(&mut flags, &cs, 1, i1);
    while i < n && '0' <= cs[i] && cs[i] <= '9'
        invariant
            i1 <= i <= n == cs@.len(),
            digits_end(cs@, i1 as int) == digits_end(cs@, i as int),
        decreases n - i,
    {
        i += 1;
    }
    let i2 = i;
    let mut width: Option<usize> = None;
    if i2 > i1 {
        let mut w = String::new();
        push_chars(&mut w, &cs, i1, i2);
        width = parse_usize(w.as_str());
    }
    let mut precision: Option<usize> = None;
    if i < n && cs[i] == '.' {
        i += 1;
        let p0 = i;
        while i < n && '0' <= cs[i] && cs[i] <= '9'
            invariant
                p0 <= i <= n == cs@.len(),
                digits_end(cs@, p0 as int) == digits_end(cs@, i as int),
            decreases n - i,
        {
            i += 1;
        }
        if i > p0 {
            let mut p = String::new();
            push_chars(&mut p, &cs, p0, i);
            precision = parse_usize(p.as_str());
        } else {
            precision = Some(0);
        }
    }
    if i < n {
        Some(PrintfSpec { flags, width, precision, conv: cs[i] })
    } else {
        None
    }
}

/// The conversion characters that a format string may use.
pub open spec fn is_conv_char(c: char) -> bool {
    c == 'd' || c == 'i' || c == 'o' || c == 'x' || c == 'X' || c == 'u' || c == 'c' || c == 's'
        || c == 'f' || c == 'e' || c == 'E' || c == 'g' || c == 'G'
}

/// Whether `c` is an ASCII letter.
pub open spec fn is_ascii_alpha(c: char) -> bool {
    ('a' <= c <= 'z') || ('A' <= c <= 'Z')
}

/// The position of the first ASCII letter from `i`, if any.
pub open spec fn alpha_at(cs: Seq<char>, i: int) -> Option<int>
    decreases cs.len() - i,
{
    if i < 0 || i >= cs.len() {
        None
    } else if is_ascii_alpha(cs[i]) {
        Some(i)
    } else {
        alpha_at(cs, i + 1)
    }
}

/// The end of the literal text from `i`: the next `%` or the end.
pub open spec fn literal_end(cs: Seq<char>, i: int) -> int
    decreases cs.len() - i,
{
    if 0 <= i < cs.len() && cs[i] != '%' {
        literal_end(cs, i + 1)
    } else {
        i
    }
}

/// The items of a format string from position `pos`, or the first error:
/// `%%` is a literal `%`, `%@` skips a field, another `%` starts a
/// conversion that runs to the first ASCII letter, which must be one of
/// `dioxXucsfeEgG`; other text up to the next `%` is literal.
pub open spec fn fmt_scan(cs: Seq<char>, pos: int) -> Result<
    Seq<(FmtType, Seq<char>, Option<SpecV>)>,
    Seq<char>,
>
    decreases cs.len() - pos,
{
    if pos < 0 || pos >= cs.len() {
        Ok(seq![])
    } else if cs[pos] == '%' {
        if pos + 1 < cs.len() && cs[pos + 1] == '%' {
            match fmt_scan(cs, pos + 2) {
                Err(e) => Err(e),
                Ok(rest) => Ok(seq![(FmtType::Literal, seq!['%'], None::<SpecV>)] + rest),
            }
        } else if pos + 1 < cs.len() && cs[pos + 1] == '@' {
            match fmt_scan(cs, pos + 2) {
                Err(e) => Err(e),
                Ok(rest) => Ok(seq![(FmtType::Ignore, seq![], None::<SpecV>)] + rest),
            }
        } else {
            proof {
                lemma_scan_ends(cs, pos + 1);
            }
            match alpha_at(cs, pos + 1) {
                None => Err("Unexpected end of format"@),
                Some(j) => if !is_conv_char(cs[j]) {
                    Err("Invalid conversion type: "@ + seq![cs[j]])
                } else {
                    let f = cs.subrange(pos, j + 1);
                    match spec_printf_spec(f) {
                        None => Err("Invalid format specifier: "@ + f),
                        Some(sp) => match fmt_scan(cs, j + 1) {
                            Err(e) => Err(e),
                            Ok(rest) => Ok(seq![(FmtType::Formatter, f, Some(sp))] + rest),
                        },
                    }
                },
            }
        }
    } else {
        proof {
            lemma_scan_ends(cs, pos);
        }
        let j = literal_end(cs, pos);
        match fmt_scan(cs, j) {
            Err(e) => Err(e),
            Ok(rest) => Ok(seq![(FmtType::Literal, cs.subrange(pos, j), None::<SpecV>)] + rest),
        }
    }
}

/// The items of a format string, or its error; an empty format string is
/// refused.
pub open spec fn spec_parse_format(s: Seq<char>) -> Result<
    Seq<(FmtType, Seq<char>, Option<SpecV>)>,
    Seq<char>,
> {
    match fmt_scan(s, 0) {
        Err(e) => Err(e),
        Ok(v) => if v.len() == 0 {
            Err("Empty format string not allowed"@)
        } else {
            Ok(v)
        },
    }
}

/// Where the runs that a format string is scanned by end.
pub proof fn lemma_scan_ends(cs: Seq<char>, i: int)
    requires
        0 <= i <= cs.len(),
    ensures
        i <= literal_end(cs, i) <= cs.len(),
        i < cs.len() && cs[i] != '%' ==> literal_end(cs, i) > i,
        alpha_at(cs, i) matches Some(j) ==> i <= j < cs.len() && is_ascii_alpha(cs[j]),
        forall|k: int| i <= k < literal_end(cs, i) ==> #[trigger] cs[k] != '%',
    decreases cs.len() - i,
{
    if i < cs.len() {
        lemma_scan_ends(cs, i + 1);
    }
}

/// Parses a format string (see [`spec_parse_format`]).
pub fn parse_format(fmt_str: &str) -> (r: Result<Vec<PrintfFmt>, String>)
    ensures
        match spec_parse_format(fmt_str@) {
            Err(e) => r matches Err(m) && m@ == e,
            Ok(v) => r matches Ok(fs) && fmts_v(fs@) == v,
        },
{
    let cs = chars_of(fmt_str);
    let n = cs.len();
    let mut out: Vec<PrintfFmt> = Vec::new();
    let mut pos: usize = 0;
    assert(fmts_v(out@) =~= seq![]);
    while pos < n
        invariant
            pos <= n == cs@.len(),
            cs@ == fmt_str@,
            match fmt_scan(cs@, 0) {
                Err(e) => fmt_scan(cs@, pos as int) == Err::<
                    Seq<(FmtType, Seq<char>, Option<SpecV>)>,
                    Seq<char>,
                >(e),
                Ok(all) => fmt_scan(cs@, pos as int) matches Ok(rest) && all == fmts_v(out@) + rest,
            },
        decreases n - pos,
    {
        proof {
            lemma_scan_ends(cs@, pos as int);
        }
        let ghost before = fmts_v(out@);
        let c = cs[pos];
        if c == '%' {
            if pos + 1 < n && cs[pos + 1] == '%' {
                out.push(PrintfFmt { type_val: FmtType::Literal, text: lit("%"), spec: None });
                proof {
                    reveal_strlit("%");
                    assert("%"@ =~= seq!['%']);
                }
                assert(fmts_v(out@) =~= before + seq![(FmtType::Literal, seq!['%'], None::<SpecV>)]);
                pos += 2;
            } else if pos + 1 < n && cs[pos + 1] == '@' {
                out.push(PrintfFmt { type_val: FmtType::Ignore, text: String::new(), spec: None });
                assert(fmts_v(out@) =~= before + seq![(FmtType::Ignore, seq![], None::<SpecV>)]);
                pos += 2;
            } else {
                let mut j = pos + 1;
                while j < n && !(('a' <= cs[j] && cs[j] <= 'z') || ('A' <= cs[j] && cs[j] <= 'Z'))
                    invariant
                        pos < j <= n == cs@.len(),
                        alpha_at(cs@, pos + 1) == alpha_at(cs@, j as int),
                    decreases n - j,
                {
                    j += 1;
                }
                if j >= n {
                    return Err(lit("Unexpected end of format"));
                }
                let ch = cs[j];
                if !(ch == 'd' || ch == 'i' || ch == 'o' || ch == 'x' || ch == 'X' || ch == 'u' || ch
                    == 'c' || ch == 's' || ch == 'f' || ch == 'e' || ch == 'E' || ch == 'g' || ch
                    == 'G') {
                    let mut m = lit("Invalid conversion type: ");
                    string_push(&mut m, ch);
                    return Err(m);
                }
                let mut f = String::new();
                push_chars(&mut f, &cs, pos, j + 1);
                match parse_printf_specifier(f.as_str()) {
                    None => {
                        let mut m = lit("Invalid format specifier: ");
                        push_str(&mut m, f.as_str());
                        return Err(m);
                    },
                    Some(sp) => {
                        let ghost fv = f@;
                        let ghost spv = spec_v(sp);
                        out.push(PrintfFmt { type_val: FmtType::Formatter, text: f, spec: Some(sp) });
                        assert(fmts_v(out@) =~= before + seq![(FmtType::Formatter, fv, Some(spv))]);
                    },
                }
                pos = j + 1;
            }
        } else {
            let start = pos;
            while pos < n && cs[pos] != '%'
                invariant
                    start <= pos <= n == cs@.len(),
                    literal_end(cs@, start as int) == literal_end(cs@, pos as int),
                decreases n - pos,
            {
                pos += 1;
            }
            let mut t = String::new();
            push_chars(&mut t, &cs, start, pos);
            let ghost tv = t@;
            out.push(PrintfFmt { type_val: FmtType::Literal, text: t, spec: None });
            assert(fmts_v(out@) =~= before + seq![(FmtType::Literal, tv, None::<SpecV>)]);
        }
    }
    if out.len() == 0 {
        return Err(lit("Empty format string not allowed"));
    }
    Ok(out)
}


/// The value that conversion number `n` takes from a row: field `n`, or
/// with a field order field `order[n]`; empty where there is none.
pub open spec fn printf_field(row: Seq<Seq<char>>, order: Seq<usize>, n: int) -> Seq<char> {
    if order.len() == 0 {
        if 0 <= n < row.len() {
            row[n]
        } else {
            seq![]
        }
    } else if 0 <= n < order.len() && (order[n] as int) < row.len() {
        row[order[n] as int]
    } else {
        seq![]
    }
}

/// The values that the conversions among the first `k` items take, and
/// the number of fields they use: each conversion and each `%@` uses the
/// next field.
pub open spec fn values_run(
    fs: Seq<(FmtType, Seq<char>, Option<SpecV>)>,
    row: Seq<Seq<char>>,
    order: Seq<usize>,
    k: int,
) -> (Seq<Seq<char>>, int)
    decreases k,
{
    if k <= 0 {
        (seq![], 0)
    } else {
        let (v, n) = values_run(fs, row, order, k - 1);
        match fs[k - 1].0 {
            FmtType::Literal => (v, n),
            FmtType::Ignore => (v, n + 1),
            FmtType::Formatter => (v.push(printf_field(row, order, n)), n + 1),
        }
    }
}

/// The field values of a row that the conversions of a format string
/// format, in order; `order` holds 0-based fields (empty: the row's own
/// order).
pub fn printf_fields(fmts: &Vec<PrintfFmt>, row: &Vec<String>, order: &Vec<usize>) -> (vals: Vec<
    String,
>)
    ensures
        sview(vals@) == values_run(fmts_v(fmts@), sview(row@), order@, fmts@.len() as int).0,
{
    let ghost fv = fmts_v(fmts@);
    let ghost rv = sview(row@);
    let mut vals: Vec<String> = Vec::new();
    let mut fieldno: usize = 0;
    let mut k: usize = 0;
    assert(sview(vals@) =~= seq![]);
    while k < fmts.len()
        invariant
            k <= fmts@.len(),
            fv == fmts_v(fmts@),
            rv == sview(row@),
            values_run(fv, rv, order@, k as int) == (sview(vals@), fieldno as int),
            fieldno <= k,
        decreases fmts@.len() - k,
    {
        assert(fv[k as int] == fmt_v(fmts@[k as int]));
        match fmts[k].type_val {
            FmtType::Literal => {},
            FmtType::Ignore => {
                fieldno += 1;
            },
            FmtType::Formatter => {
                let v = if order.len() == 0 {
                    if fieldno < row.len() {
                        assert(rv[fieldno as int] == row@[fieldno as int]@);
                        lit(row[fieldno].as_str())
                    } else {
                        String::new()
                    }
                } else if fieldno < order.len() && order[fieldno] < row.len() {
                    assert(rv[order@[fieldno as int] as int] == row@[order@[fieldno as int] as int]@);
                    lit(row[order[fieldno]].as_str())
                } else {
                    String::new()
                };
                assert(v@ == printf_field(rv, order@, fieldno as int));
                let ghost before = sview(vals@);
                let ghost vv = v@;
                vals.push(v);
                assert(sview(vals@) =~= before.push(vv));
                fieldno += 1;
            },
        }
        k += 1;
    }
    vals
}

/// `s` with each double quote doubled.
pub open spec fn quotes_doubled(s: Seq<char>) -> Seq<char>
    decreases s.len(),
{
    if s.len() == 0 {
        seq![]
    } else {
        quotes_doubled(s.drop_last()) + if s.last() == '"' {
            seq!['"', '"']
        } else {
            seq![s.last()]
        }
    }
}

/// Appends `s` with each double quote doubled.
fn push_doubled(line: &mut String, s: &str)
    ensures
        final(line)@ == old(line)@ + quotes_doubled(s@),
{
    let cs = chars_of(s);
    let mut i: usize = 0;
    assert(cs@.take(0) =~= seq![]);
    assert(old(line)@ + quotes_doubled(seq![]) =~= old(line)@);
    while i < cs.len()
        invariant
            i <= cs@.len(),
            cs@ == s@,
            line@ == old(line)@ + quotes_doubled(cs@.take(i as int)),
        decreases cs@.len() - i,
    {
        let c = cs[i];
        if c == '"' {
            string_push(line, '"');
        }
        string_push(line, c);
        proof {
            let t = cs@.take(i + 1);
            assert(t.drop_last() =~= cs@.take(i as int));
            assert(line@ =~= old(line)@ + quotes_doubled(t));
        }
        i += 1;
    }
    assert(cs@.take(cs@.len() as int) =~= cs@);
}

/// The output line of the first `k` items, and the number of formatted
/// values used: literal text as it is, each conversion's formatted value
/// (with double quotes doubled for `s` conversions when `csv_quote`).
pub open spec fn line_run(
    fs: Seq<(FmtType, Seq<char>, Option<SpecV>)>,
    formatted: Seq<Seq<char>>,
    csv_quote: bool,
    k: int,
) -> (Seq<char>, int)
    decreases k,
{
    if k <= 0 {
        (seq![], 0)
    } else {
        let (line, i) = line_run(fs, formatted, csv_quote, k - 1);
        let f = fs[k - 1];
        match f.0 {
            FmtType::Literal => (line + f.1, i),
            FmtType::Ignore => (line, i),
            FmtType::Formatter => {
                let v = formatted[i];
                let quoted = csv_quote && (f.2 matches Some(sp) && sp.3 == 's');
                (
                    line + if quoted {
                        quotes_doubled(v)
                    } else {
                        v
                    },
                    i + 1,
                )
            },
        }
    }
}

/// The number of conversions among the first `k` items.
pub open spec fn n_formatters(fs: Seq<(FmtType, Seq<char>, Option<SpecV>)>, k: int) -> int
    decreases k,
{
    if k <= 0 {
        0
    } else {
        n_formatters(fs, k - 1) + if fs[k - 1].0 == FmtType::Formatter {
            1int
        } else {
            0
        }
    }
}

proof fn lemma_line_run_count(
    fs: Seq<(FmtType, Seq<char>, Option<SpecV>)>,
    formatted: Seq<Seq<char>>,
    csv_quote: bool,
    k: int,
)
    requires
        k >= 0,
    ensures
        line_run(fs, formatted, csv_quote, k).1 == n_formatters(fs, k),
    decreases k,
{
    if k > 0 {
        lemma_line_run_count(fs, formatted, csv_quote, k - 1);
    }
}

/// The output line of a row: the format string's literal text, with the
/// `formatted` values in place of its conversions.
pub fn printf_line(fmts: &Vec<PrintfFmt>, formatted: &Vec<String>, csv_quote: bool) -> (line: String)
    requires
        formatted@.len() >= n_formatters(fmts_v(fmts@), fmts@.len() as int),
    ensures
        line@ == line_run(fmts_v(fmts@), sview(formatted@), csv_quote, fmts@.len() as int).0,
{
    let ghost fv = fmts_v(fmts@);
    let ghost xv = sview(formatted@);
    let mut line = String::new();
    let mut i: usize = 0;
    let mut k: usize = 0;
    let nf = formatted.len();
    while k < fmts.len()
        invariant
            nf == formatted@.len(),
            k <= fmts@.len(),
            fv == fmts_v(fmts@),
            xv == sview(formatted@),
            formatted@.len() >= n_formatters(fv, fmts@.len() as int),
            line_run(fv, xv, csv_quote, k as int) == (line@, i as int),
            i as int == n_formatters(fv, k as int),
        decreases fmts@.len() - k,
    {
        assert(fv[k as int] == fmt_v(fmts@[k as int]));
        proof {
            lemma_formatters_mono(fv, k + 1, fmts@.len() as int);
        }
        match fmts[k].type_val {
            FmtType::Literal => {
                push_str(&mut line, fmts[k].text.as_str());
            },
            FmtType::Ignore => {},
            FmtType::Formatter => {
                assert(n_formatters(fv, k + 1) == i + 1);
                assert(xv[i as int] == formatted@[i as int]@);
                let quoted = csv_quote && match &fmts[k].spec {
                    Some(sp) => sp.conv == 's',
                    None => false,
                };
                if quoted {
                    push_doubled(&mut line, formatted[i].as_str());
                } else {
                    push_str(&mut line, formatted[i].as_str());
                }
                i += 1;
            },
        }
        k += 1;
    }
    line
}

proof fn lemma_formatters_mono(fs: Seq<(FmtType, Seq<char>, Option<SpecV>)>, a: int, b: int)
    requires
        0 <= a <= b,
    ensures
        n_formatters(fs, a) <= n_formatters(fs, b),
    decreases b - a,
{
    if a < b {
        lemma_formatters_mono(fs, a, b - 1);
    }
}

/// `n` zeros.
pub open spec fn zeros(n: int) -> Seq<char> {
    Seq::new(n as nat, |_i: int| '0')
}

/// A formatted value after its optional sign, fitted to `width` bytes:
/// padded with spaces on the right when `left`, else with zeros after the
/// sign when `zero`, else with spaces on the left. A longer value is kept
/// whole.
pub open spec fn padded_value(s: Seq<char>, width: Option<usize>, left: bool, zero: bool, sign: Option<char>) -> Seq<char> {
    let t = match sign {
        Some(c) => seq![c] + s,
        None => s,
    };
    match width {
        Some(w) => if byte_len(t) < w {
            let d = w - byte_len(t);
            if left {
                t + spaces(d)
            } else if zero {
                match sign {
                    Some(c) => seq![c] + zeros(d) + s,
                    None => zeros(d) + s,
                }
            } else {
                spaces(d) + t
            }
        } else {
            t
        },
        None => t,
    }
}

fn push_copies(s: &mut String, c: char, n: usize)
    ensures
        final(s)@ == old(s)@ + Seq::new(n as nat, |_i: int| c),
{
    let mut k: usize = 0;
    while k < n
        invariant
            k <= n,
            s@ == old(s)@ + Seq::new(k as nat, |_i: int| c),
        decreases n - k,
    {
        string_push(s, c);
        assert(old(s)@ + Seq::new((k + 1) as nat, |_i: int| c) =~= old(s)@ + Seq::new(k as nat, |_i: int| c)
            + seq![c]);
        k += 1;
    }
}

/// Fits a formatted value and its sign to the width (see
/// [`padded_value`]); the sign is an ASCII character.
pub fn pad_formatted(s: &str, width: Option<usize>, left: bool, zero: bool, sign: Option<char>) -> (r: String)
    requires
        sign matches Some(c) ==> (c as u32) < 128,
    ensures
        r@ == padded_value(s@, width, left, zero, sign),
{
    let mut t = String::new();
    if let Some(c) = sign {
        string_push(&mut t, c);
    }
    push_str(&mut t, s);
    let ghost tv = t@;
    assert(tv == match sign {
        Some(c) => seq![c] + s@,
        None => s@,
    });
    let w = match width {
        Some(w) => w,
        None => return t,
    };
    let n = t.as_str().as_bytes().len();
    if n >= w {
        return t;
    }
    let d = w - n;
    if left {
        push_copies(&mut t, ' ', d);
        assert(t@ =~= tv + spaces(d as int));
        return t;
    }
    let mut r = String::new();
    if zero {
        if let Some(c) = sign {
            string_push(&mut r, c);
        }
        push_copies(&mut r, '0', d);
        push_str(&mut r, s);
        proof {
            match sign {
                Some(c) => assert(r@ =~= seq![c] + zeros(d as int) + s@),
                None => assert(r@ =~= zeros(d as int) + s@),
            }
        }
    } else {
        push_copies(&mut r, ' ', d);
        push_str(&mut r, t.as_str());
        assert(r@ =~= spaces(d as int) + tv);
    }
    r
}

/// `%s`: the value cut to `precision` bytes when longer, then fitted to
/// `width` bytes, on the right when `left`, else on the left; a longer
/// value is kept whole.
pub open spec fn text_conversion(val: Seq<char>, precision: Option<usize>, width: Option<usize>, left: bool) -> Seq<char> {
    let s = match precision {
        Some(p) => if p < byte_len(val) {
            byte_prefix(val, p as int)
        } else {
            val
        },
        None => val,
    };
    match width {
        Some(w) => if byte_len(s) < w {
            if left {
                s + spaces(w - byte_len(s))
            } else {
                spaces(w - byte_len(s)) + s
            }
        } else {
            s
        },
        None => s,
    }
}

/// Formats a value with `%s` (see [`text_conversion`]); a precision that
/// cuts the value cuts it between characters.
pub fn format_text(val: &str, precision: Option<usize>, width: Option<usize>, left: bool) -> (r: String)
    requires
        precision matches Some(p) ==> cut_ok(val@, p as int),
    ensures
        r@ == text_conversion(val@, precision, width, left),
{
    let n = val.as_bytes().len();
    let s = match precision {
        Some(p) => if p < n {
            right_pad_str(val, p)
        } else {
            lit(val)
        },
        None => lit(val),
    };
    let m = s.as_str().as_bytes().len();
    match width {
        Some(w) => if m < w {
            if left {
                right_pad_str(s.as_str(), w)
            } else {
                left_pad_str(s.as_str(), w)
            }
        } else {
            s
        },
        None => s,
    }
}

/// A digit of base up to 16.
pub open spec fn digit_of(d: nat, upper: bool) -> char {
    if d < 10 {
        (d + '0' as nat) as char
    } else if upper {
        (d - 10 + 'A' as nat) as char
    } else {
        (d - 10 + 'a' as nat) as char
    }
}

/// The digits of `n` in base `b`, without leading zeros.
pub open spec fn base_digits(n: nat, b: nat, upper: bool) -> Seq<char>
    decreases n,
{
    if b < 2 || n < b {
        seq![digit_of(n, upper)]
    } else {
        proof {
            assert(n / b < n) by (nonlinear_arith)
                requires
                    b >= 2,
                    n >= b,
            ;
        }
        base_digits(n / b, b, upper).push(digit_of(n % b, upper))
    }
}

fn push_base_digits(s: &mut String, n: u32, b: u32, upper: bool)
    requires
        2 <= b <= 16,
    ensures
        final(s)@ == old(s)@ + base_digits(n as nat, b as nat, upper),
    decreases n,
{
    let ghost s0 = s@;
    if n >= b {
        assert(n / b < n) by (nonlinear_arith)
            requires
                b >= 2,
                n >= b,
        ;
        push_base_digits(s, n / b, b, upper);
    }
    let d = n % b;
    assert(d < 16);
    let c = if d < 10 {
        ((d as u8) + 48) as char
    } else if upper {
        ((d as u8) - 10 + 65) as char
    } else {
        ((d as u8) - 10 + 97) as char
    };
    assert(c == digit_of(d as nat, upper)) by {
        assert('0' as nat == 48);
        assert('A' as nat == 65);
        assert('a' as nat == 97);
    }
    string_push(s, c);
    proof {
        if n >= b {
            assert(base_digits(n as nat, b as nat, upper) == base_digits((n / b) as nat, b as nat, upper).push(
                digit_of((n % b) as nat, upper),
            ));
            assert(s@ =~= s0 + base_digits(n as nat, b as nat, upper));
        } else {
            assert(n % b == n) by (nonlinear_arith)
                requires
                    n < b,
            ;
            assert(s@ =~= s0 + base_digits(n as nat, b as nat, upper));
        }
    }
}

/// The digits that an integer conversion writes for `n`, before its
/// precision and sign: the magnitude in decimal, octal or hexadecimal,
/// `n` as an unsigned 32-bit value for `u`, or the character of its low
/// byte for `c`.
pub open spec fn int_digits(conv: char, n: i32) -> Seq<char> {
    let m: nat = if n < 0 {
        (-n) as nat
    } else {
        n as nat
    };
    if conv == 'o' {
        base_digits(m, 8, false)
    } else if conv == 'x' {
        base_digits(m, 16, false)
    } else if conv == 'X' {
        base_digits(m, 16, true)
    } else if conv == 'u' {
        dec_string((n as u32) as nat)
    } else if conv == 'c' {
        seq![((n as u8) as u32) as char]
    } else {
        dec_string(m)
    }
}

/// The sign of an integer conversion: `-` for a negative value (or zero
/// read from text that starts with `-`), else `+` or a space when those
/// flags are given; never for `u`.
pub open spec fn int_sign(conv: char, n: i32, neg_text: bool, plus: bool, space: bool) -> Option<char> {
    if conv != 'u' && (n < 0 || (n == 0 && neg_text)) {
        Some('-')
    } else if plus && conv != 'u' {
        Some('+')
    } else if space && conv != 'u' {
        Some(' ')
    } else {
        None
    }
}

/// An integer conversion (`d`, `i`, `o`, `x`, `X`, `u` or `c`) of the
/// value `n`: its digits, zero-padded to `precision` bytes, then signed and
/// fitted to the width (see [`padded_value`]).
pub open spec fn int_conversion(
    conv: char,
    n: i32,
    neg_text: bool,
    precision: Option<usize>,
    width: Option<usize>,
    left: bool,
    zero: bool,
    plus: bool,
    space: bool,
) -> Seq<char> {
    let raw = int_digits(conv, n);
    let digits = match precision {
        Some(p) => if byte_len(raw) < p {
            zeros(p - byte_len(raw)) + raw
        } else {
            raw
        },
        None => raw,
    };
    padded_value(digits, width, left, zero, int_sign(conv, n, neg_text, plus, space))
}

/// Formats the integer `n` read from a value (see [`int_conversion`]);
/// `neg_text` tells whether the value's text starts with `-`. The magnitude
/// of the least `i32` cannot be taken for a signed conversion.
#[allow(clippy::too_many_arguments)]
pub fn format_int(
    conv: char,
    n: i32,
    neg_text: bool,
    precision: Option<usize>,
    width: Option<usize>,
    left: bool,
    zero: bool,
    plus: bool,
    space: bool,
) -> (r: String)
    requires
        conv != 'u' && conv != 'c' ==> n != i32::MIN,
    ensures
        r@ == int_conversion(conv, n, neg_text, precision, width, left, zero, plus, space),
{
    let mut raw = String::new();
    if conv == 'u' {
        let u = n as u32;
        raw = usize_to_string(u as usize);
    } else if conv == 'c' {
        let b = n as u8;
        string_push(&mut raw, b as char);
    } else {
        let m: u32 = if n < 0 {
            (-n) as u32
        } else {
            n as u32
        };
        if conv == 'o' {
            push_base_digits(&mut raw, m, 8, false);
        } else if conv == 'x' {
            push_base_digits(&mut raw, m, 16, false);
        } else if conv == 'X' {
            push_base_digits(&mut raw, m, 16, true);
        } else {
            raw = usize_to_string(m as usize);
        }
        assert(raw@ =~= int_digits(conv, n));
    }
    assert(raw@ =~= int_digits(conv, n));
    let digits = match precision {
        Some(p) => {
            let len = raw.as_str().as_bytes().len();
            if len < p {
                let mut z = String::new();
                push_copies(&mut z, '0', p - len);
                push_str(&mut z, raw.as_str());
                assert(z@ =~= zeros((p - len) as int) + raw@);
                z
            } else {
                raw
            }
        },
        None => raw,
    };
    let sign = if conv != 'u' && (n < 0 || (n == 0 && neg_text)) {
        Some('-')
    } else if plus && conv != 'u' {
        Some('+')
    } else if space && conv != 'u' {
        Some(' ')
    } else {
        None
    };
    pad_formatted(digits.as_str(), width, left, zero, sign)
}

} // verus!
