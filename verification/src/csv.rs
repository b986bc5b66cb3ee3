//! CSV records: reading a line into fields, writing fields as a line, and the
//! input-stream bookkeeping of the command-line tool (which file is being
//! read, which line, blank-line and header skipping).
use vstd::prelude::*;
use crate::text::{sview, chars_of, string_push, push_chars, string_of, trim_seq};

verus! {

/// The modes of the field reader while it walks a line.
#[derive(PartialEq, Eq, Structural, Clone, Copy, Debug)]
pub enum FieldMode {
    /// At the start of a field.
    Start,
    /// Inside a field that did not start with a double quote.
    Unquoted,
    /// Inside a quoted field.
    Quoted,
    /// Inside a quoted field, just after a double quote.
    QuoteSeen,
}

/// The state of the field reader: mode, fields finished so far, and the
/// characters of the field being read.
pub type ScanState = (FieldMode, Seq<Seq<char>>, Seq<char>);

/// One step of the field reader on character `c`.
pub open spec fn field_step(st: ScanState, c: char, sep: char) -> ScanState {
    let (mode, fs, cur) = st;
    match mode {
        FieldMode::Start => if c == '"' {
            (FieldMode::Quoted, fs, seq![])
        } else if c == sep {
            (FieldMode::Start, fs.push(seq![]), seq![])
        } else {
            (FieldMode::Unquoted, fs, seq![c])
        },
        FieldMode::Unquoted => if c == sep {
            (FieldMode::Start, fs.push(cur), seq![])
        } else {
            (FieldMode::Unquoted, fs, cur.push(c))
        },
        FieldMode::Quoted => if c == '"' {
            (FieldMode::QuoteSeen, fs, cur)
        } else {
            (FieldMode::Quoted, fs, cur.push(c))
        },
        FieldMode::QuoteSeen => if c == '"' {
            (FieldMode::Quoted, fs, cur.push('"'))
        } else if c == sep {
            (FieldMode::Start, fs.push(cur), seq![])
        } else {
            (FieldMode::Unquoted, fs.push(cur), seq![c])
        },
    }
}

/// The field reader after walking all of `s` from state `st`.
pub open spec fn field_run(st: ScanState, s: Seq<char>, sep: char) -> ScanState
    decreases s.len(),
{
    if s.len() == 0 {
        st
    } else {
        field_step(field_run(st, s.drop_last(), sep), s.last(), sep)
    }
}

/// The fields read once the input ends in state `st`.
pub open spec fn field_finish(st: ScanState) -> Seq<Seq<char>> {
    let (mode, fs, cur) = st;
    match mode {
        FieldMode::Start => fs,
        _ => fs.push(cur),
    }
}

/// The reader's initial state.
pub open spec fn field_init() -> ScanState {
    (FieldMode::Start, seq![], seq![])
}

/// The fields of the CSV line `line` with separator `sep`: a field that
/// starts with a double quote runs to the next lone double quote (a doubled
/// one stands for one double quote), other fields run to the next separator,
/// and a line that ends with the separator ends with an empty field.
pub open spec fn spec_parse_csv(line: Seq<char>, sep: char) -> Seq<Seq<char>> {
    let fs = field_finish(field_run(field_init(), line, sep));
    if line.len() > 0 && line.last() == sep {
        fs.push(seq![])
    } else {
        fs
    }
}

/// `f` with every double quote doubled.
pub open spec fn escape_quotes(f: Seq<char>) -> Seq<char>
    decreases f.len(),
{
    if f.len() == 0 {
        seq![]
    } else if f.last() == '"' {
        escape_quotes(f.drop_last()) + seq!['"', '"']
    } else {
        escape_quotes(f.drop_last()).push(f.last())
    }
}

/// The text of one field: in double quotes, with inner quotes doubled, when
/// `quoted`; as it is otherwise.
pub open spec fn field_text(f: Seq<char>, quoted: bool) -> Seq<char> {
    if quoted {
        seq!['"'] + escape_quotes(f) + seq!['"']
    } else {
        f
    }
}

/// The fields' texts joined by `sep`.
pub open spec fn line_text(fs: Seq<Seq<char>>, qs: Seq<bool>, sep: char) -> Seq<char>
    decreases fs.len(),
{
    if fs.len() == 0 {
        seq![]
    } else if fs.len() == 1 {
        field_text(fs[0], qs[0])
    } else {
        line_text(fs.drop_last(), qs.drop_last(), sep).push(sep) + field_text(
            fs.last(),
            qs.last(),
        )
    }
}

/// `f` holds a double quote or the separator.
pub open spec fn has_special(f: Seq<char>, sep: char) -> bool {
    exists|k: int| 0 <= k < f.len() && (f[k] == '"' || f[k] == sep)
}

/// The input-stream state and the reading and writing options of the tool.
pub struct IOManager {
    /// The inputs, in order; `-` stands for standard input.
    pub input_paths: Vec<String>,
    /// The index in `input_paths` of the input being read.
    pub current_input_idx: usize,
    /// The number of the last line read from the current input (1-based).
    pub current_line: usize,
    /// The name of the input being read.
    pub current_filename: String,
    /// The text of the last record delivered.
    pub current_input: String,
    /// Drop lines that are empty or whitespace only.
    pub ignore_blank_lines: bool,
    /// Drop the first line of each input.
    pub skip_col_names: bool,
    /// The field separator of the input.
    pub input_sep: char,
    /// The field separator of the output.
    pub output_sep: char,
    /// Quote only the fields that hold a double quote or the separator.
    pub smart_quotes: bool,
    /// Quote only these fields (0-based); all of them when absent.
    pub quote_fields: Option<Vec<usize>>,
    /// A line written before any output.
    pub header: Option<String>,
}

impl IOManager {
    /// Whether field `i`, holding `f`, is written in double quotes.
    pub open spec fn quotes_field(&self, i: int, f: Seq<char>) -> bool {
        if self.smart_quotes {
            has_special(f, self.output_sep)
        } else {
            match self.quote_fields {
                Some(q) => q@.contains(i as usize),
                None => true,
            }
        }
    }

    /// The quoting decision for each field of `row`.
    pub open spec fn quote_flags(&self, row: Seq<Seq<char>>) -> Seq<bool> {
        Seq::new(row.len(), |i: int| self.quotes_field(i, row[i]))
    }

    /// The line (without its newline) that writing `row` produces.
    pub open spec fn row_line(&self, row: Seq<Seq<char>>) -> Seq<char> {
        line_text(row, self.quote_flags(row), self.output_sep)
    }

    /// The splitting of a line into fields, with the input separator.
    pub fn parse_csv_line(&self, line: &str) -> (r: Vec<String>)
        ensures
            sview(r@) == spec_parse_csv(line@, self.input_sep),
    {
        parse_csv_with(line, self.input_sep)
    }

    /// The text that writing `row` produces: its line and a newline.
    pub fn write_row(&self, row: &[String]) -> (out: String)
        ensures
            out@ == self.row_line(sview(row@)).push('\n'),
    {
        let ghost rv = sview(row@);
        let ghost qs = self.quote_flags(rv);
        let sep = self.output_sep;
        let mut out = String::new();
        let mut i: usize = 0;
        while i < row.len()
            invariant
                i <= row.len(),
                rv == sview(row@),
                qs == self.quote_flags(rv),
                sep == self.output_sep,
                out@ == line_text(rv.take(i as int), qs.take(i as int), sep),
            decreases row.len() - i,
        {
            let f = chars_of(row[i].as_str());
            let q = if self.smart_quotes {
                has_special_exec(&f, sep)
            } else {
                match &self.quote_fields {
                    Some(qf) => crate::rows::contains_index(qf, i),
                    None => true,
                }
            };
            assert(q == qs[i as int]);
            let ghost before = out@;
            if i > 0 {
                string_push(&mut out, sep);
            }
            let ghost mid = out@;
            if q {
                push_quoted(&mut out, &f);
            } else {
                push_chars(&mut out, &f, 0, f.len());
                assert(f@.subrange(0, f@.len() as int) =~= f@);
            }
            proof {
                assert(rv.take(i + 1).drop_last() =~= rv.take(i as int));
                assert(qs.take(i + 1).drop_last() =~= qs.take(i as int));
                assert(rv.take(i + 1).last() == rv[i as int]);
                if i > 0 {
                    assert(out@ =~= line_text(rv.take(i as int), qs.take(i as int), sep).push(sep)
                        + field_text(rv[i as int], qs[i as int]));
                } else {
                    assert(out@ =~= field_text(rv[i as int], qs[i as int]));
                }
            }
            i += 1;
        }
        assert(rv.take(row.len() as int) =~= rv);
        assert(qs.take(row.len() as int) =~= qs);
        string_push(&mut out, '\n');
        out
    }
}

fn has_special_exec(f: &[char], sep: char) -> (b: bool)
    ensures
        b == has_special(f@, sep),
{
    let mut k: usize = 0;
    while k < f.len()
        invariant
            k <= f.len(),
            forall|j: int| 0 <= j < k ==> !(f@[j] == '"' || f@[j] == sep),
        decreases f.len() - k,
    {
        if f[k] == '"' || f[k] == sep {
            return true;
        }
        k += 1;
    }
    false
}

/// Appends `f` in double quotes, with inner double quotes doubled.
fn push_quoted(out: &mut String, f: &[char])
    ensures
        final(out)@ == old(out)@ + field_text(f@, true),
{
    string_push(out, '"');
    let mut k: usize = 0;
    while k < f.len()
        invariant
            k <= f.len(),
            out@ == old(out)@ + seq!['"'] + escape_quotes(f@.take(k as int)),
        decreases f.len() - k,
    {
        let c = f[k];
        if c == '"' {
            string_push(out, '"');
        }
        string_push(out, c);
        assert(f@.take(k + 1).drop_last() =~= f@.take(k as int));
        k += 1;
    }
    assert(f@.take(f.len() as int) =~= f@);
    string_push(out, '"');
}

/// The fields of `line`, split at `sep` as [`spec_parse_csv`] describes.
pub fn parse_csv_with(line: &str, sep: char) -> (r: Vec<String>)
    ensures
        sview(r@) == spec_parse_csv(line@, sep),
{
    let cs = chars_of(line);
    let mut mode = FieldMode::Start;
    let mut fields: Vec<String> = Vec::new();
    let mut cur: Vec<char> = Vec::new();
    let mut i: usize = 0;
    while i < cs.len()
        invariant
            i <= cs.len(),
            cs@ == line@,
            (mode, sview(fields@), cur@) == field_run(field_init(), cs@.take(i as int), sep),
        decreases cs.len() - i,
    {
        let c = cs[i];
        let ghost st = (mode, sview(fields@), cur@);
        match mode {
            FieldMode::Start => {
                if c == '"' {
                    mode = FieldMode::Quoted;
                    cur = Vec::new();
                } else if c == sep {
                    fields.push(String::new());
                    cur = Vec::new();
                } else {
                    mode = FieldMode::Unquoted;
                    cur = Vec::new();
                    cur.push(c);
                }
            },
            FieldMode::Unquoted => {
                if c == sep {
                    fields.push(string_of(&cur));
                    mode = FieldMode::Start;
                    cur = Vec::new();
                } else {
                    cur.push(c);
                }
            },
            FieldMode::Quoted => {
                if c == '"' {
                    mode = FieldMode::QuoteSeen;
                } else {
                    cur.push(c);
                }
            },
            FieldMode::QuoteSeen => {
                if c == '"' {
                    mode = FieldMode::Quoted;
                    cur.push('"');
                } else if c == sep {
                    fields.push(string_of(&cur));
                    mode = FieldMode::Start;
                    cur = Vec::new();
                } else {
                    fields.push(string_of(&cur));
                    mode = FieldMode::Unquoted;
                    cur = Vec::new();
                    cur.push(c);
                }
            },
        }
        proof {
            assert(cs@.take(i + 1).drop_last() =~= cs@.take(i as int));
            assert(cs@.take(i + 1).last() == c);
            assert(sview(fields@) =~= field_step(st, c, sep).1);
            assert(cur@ =~= field_step(st, c, sep).2);
        }
        i += 1;
    }
    assert(cs@.take(cs.len() as int) =~= cs@);
    if mode != FieldMode::Start {
        fields.push(string_of(&cur));
    }
    let n = cs.len();
    if n > 0 && cs[n - 1] == sep {
        fields.push(String::new());
    }
    proof {
        assert(sview(fields@) =~= spec_parse_csv(line@, sep));
    }
    fields
}

/// The states of the record reader, which finds where a record ends: at a
/// newline outside double quotes.
#[derive(PartialEq, Eq, Structural, Clone, Copy, Debug)]
pub enum ParserState {
    /// Outside any field value.
    OutVal,
    /// Inside an unquoted value.
    InVal,
    /// Inside a quoted value.
    InQVal,
    /// Inside a quoted value, just after a double quote.
    HaveQ,
}

/// The record reader's next state on character `c`, and whether `c` ends the record.
pub open spec fn record_step(st: ParserState, c: char, sep: char) -> (ParserState, bool) {
    match st {
        ParserState::OutVal => if c == sep {
            (ParserState::OutVal, false)
        } else if c == '"' {
            (ParserState::InQVal, false)
        } else if c == '\n' {
            (ParserState::OutVal, true)
        } else {
            (ParserState::InVal, false)
        },
        ParserState::InVal => if c == sep {
            (ParserState::OutVal, false)
        } else if c == '\n' {
            (ParserState::InVal, true)
        } else {
            (ParserState::InVal, false)
        },
        ParserState::InQVal => if c == '"' {
            (ParserState::HaveQ, false)
        } else {
            (ParserState::InQVal, false)
        },
        ParserState::HaveQ => if c == '"' {
            (ParserState::InQVal, false)
        } else if c == '\n' {
            (ParserState::HaveQ, true)
        } else {
            (ParserState::OutVal, false)
        },
    }
}

/// A record being read: the reader's state and the characters so far.
pub struct RecordScan {
    /// Where the reader stands.
    pub state: ParserState,
    /// The record's characters read so far (carriage returns and the final
    /// newline left out).
    pub line: String,
}

/// `s` without the carriage returns and newlines at its end.
pub open spec fn strip_eol(s: Seq<char>) -> Seq<char>
    decreases s.len(),
{
    if s.len() > 0 && (s.last() == '\r' || s.last() == '\n') {
        strip_eol(s.drop_last())
    } else {
        s
    }
}

/// `s` is empty or whitespace only.
pub open spec fn is_blank(s: Seq<char>) -> bool {
    trim_seq(s).len() == 0
}

impl IOManager {
    /// The options of the tool, with no input read yet: no input paths means
    /// standard input; the output separator is the input one when it is to be
    /// retained, the given one otherwise, and a comma by default. The first
    /// input is the current one.
    pub fn new(
        input_paths: Vec<String>,
        ignore_blank_lines: bool,
        skip_col_names: bool,
        input_sep: char,
        output_sep: Option<char>,
        retain_sep: bool,
        smart_quotes: bool,
        quote_fields: Option<Vec<usize>>,
        header: Option<String>,
    ) -> (m: Self)
        ensures
            input_paths@.len() == 0 ==> m.input_paths@.len() == 1 && m.input_paths@[0]@ == seq!['-'],
            input_paths@.len() > 0 ==> m.input_paths@ == input_paths@,
            m.current_input_idx == 0,
            m.current_line == 0,
            m.current_filename@ == m.input_paths@[0]@,
            m.current_input@.len() == 0,
            m.ignore_blank_lines == ignore_blank_lines,
            m.skip_col_names == skip_col_names,
            m.input_sep == input_sep,
            m.output_sep == (if retain_sep {
                input_sep
            } else {
                match output_sep {
                    Some(c) => c,
                    None => ',',
                }
            }),
            m.smart_quotes == smart_quotes,
            m.quote_fields == quote_fields,
            m.header == header,
    {
        let paths = if input_paths.len() == 0 {
            let mut v: Vec<String> = Vec::new();
            let mut dash = String::new();
            string_push(&mut dash, '-');
            v.push(dash);
            v
        } else {
            input_paths
        };
        let out_sep = if retain_sep {
            input_sep
        } else {
            match output_sep {
                Some(c) => c,
                None => ',',
            }
        };
        let first = paths[0].clone();
        IOManager {
            input_paths: paths,
            current_input_idx: 0,
            current_line: 0,
            current_filename: first,
            current_input: String::new(),
            ignore_blank_lines,
            skip_col_names,
            input_sep,
            output_sep: out_sep,
            smart_quotes,
            quote_fields,
            header,
        }
    }

    /// Makes the input at `current_input_idx` the current one, if there is
    /// one, and returns its path: the input to open next.
    fn open_next_stream(&mut self) -> (next: Option<String>)
        ensures
            final(self).input_paths == old(self).input_paths,
            final(self).current_input_idx == old(self).current_input_idx,
            final(self).current_input == old(self).current_input,
            old(self).current_input_idx < old(self).input_paths@.len() ==> {
                &&& next matches Some(p)
                &&& p@ == old(self).input_paths@[old(self).current_input_idx as int]@
                &&& final(self).current_filename@ == p@
                &&& final(self).current_line == 0
            },
            old(self).current_input_idx >= old(self).input_paths@.len() ==> next is None
                && final(self).current_filename == old(self).current_filename
                && final(self).current_line == old(self).current_line,
            final(self).same_options(*old(self)),
    {
        if self.current_input_idx >= self.input_paths.len() {
            return None;
        }
        let path = self.input_paths[self.current_input_idx].clone();
        self.current_filename = path.clone();
        self.current_line = 0;
        Some(path)
    }

    /// The reading and writing options are those of `other`.
    pub open spec fn same_options(&self, other: IOManager) -> bool {
        &&& self.ignore_blank_lines == other.ignore_blank_lines
        &&& self.skip_col_names == other.skip_col_names
        &&& self.input_sep == other.input_sep
        &&& self.output_sep == other.output_sep
        &&& self.smart_quotes == other.smart_quotes
        &&& self.quote_fields == other.quote_fields
        &&& self.header == other.header
    }

    /// Replaces the inputs by `paths` and starts again with the first one;
    /// returns the path to open, if any.
    pub fn reset_inputs(&mut self, paths: Vec<String>) -> (next: Option<String>)
        ensures
            final(self).input_paths@ == paths@,
            final(self).current_input_idx == 0,
            paths@.len() > 0 ==> {
                &&& next matches Some(p)
                &&& p@ == paths@[0]@
                &&& final(self).current_filename@ == p@
            },
            paths@.len() == 0 ==> next is None && final(self).current_filename == old(self).current_filename,
            final(self).current_line == 0,
            final(self).current_input == old(self).current_input,
            final(self).same_options(*old(self)),
    {
        self.input_paths = paths;
        self.current_input_idx = 0;
        self.current_line = 0;
        self.open_next_stream()
    }

    /// The current input has ended: moves on to the next one and returns its
    /// path, if there is one.
    pub fn end_of_input(&mut self) -> (next: Option<String>)
        requires
            old(self).current_input_idx < usize::MAX,
        ensures
            final(self).input_paths == old(self).input_paths,
            final(self).current_input_idx == old(self).current_input_idx + 1,
            final(self).current_input == old(self).current_input,
            old(self).current_input_idx + 1 < old(self).input_paths@.len() ==> {
                &&& next matches Some(p)
                &&& p@ == old(self).input_paths@[old(self).current_input_idx + 1]@
                &&& final(self).current_filename@ == p@
                &&& final(self).current_line == 0
            },
            old(self).current_input_idx + 1 >= old(self).input_paths@.len() ==> next is None
                && final(self).current_line == old(self).current_line,
            final(self).same_options(*old(self)),
    {
        self.current_input_idx = self.current_input_idx + 1;
        self.open_next_stream()
    }

    /// The name of the input being read.
    pub fn current_file_name(&self) -> (s: &str)
        ensures
            s@ == self.current_filename@,
    {
        self.current_filename.as_str()
    }

    /// The number of the last line read from the current input.
    pub fn current_line(&self) -> (n: usize)
        ensures
            n == self.current_line,
    {
        self.current_line
    }

    /// The text of the last record delivered.
    pub fn current_input(&self) -> (s: &str)
        ensures
            s@ == self.current_input@,
    {
        self.current_input.as_str()
    }

    /// Takes a line as read from the current input, with its line end: counts
    /// it, strips the carriage returns and newlines at its end, and returns
    /// it, or `None` when it is dropped because it is blank and blank lines
    /// are ignored, or it is the first line and column names are skipped.
    pub fn read_line(&mut self, raw: &str) -> (r: Option<String>)
        requires
            old(self).current_line < usize::MAX,
        ensures
            final(self).current_line == old(self).current_line + 1,
            ({
                let line = strip_eol(raw@);
                let dropped = (old(self).ignore_blank_lines && is_blank(line)) || (
                old(self).skip_col_names && old(self).current_line + 1 == 1);
                &&& dropped ==> r is None && final(self).current_input == old(self).current_input
                &&& !dropped ==> (r matches Some(l) && l@ == line && final(self).current_input@
                    == line)
            }),
            final(self).input_paths == old(self).input_paths,
            final(self).current_input_idx == old(self).current_input_idx,
            final(self).current_filename == old(self).current_filename,
            final(self).same_options(*old(self)),
    {
        self.current_line = self.current_line + 1;
        let cs = chars_of(raw);
        let mut n: usize = cs.len();
        assert(cs@.take(cs.len() as int) =~= cs@);
        while n > 0 && (cs[n - 1] == '\r' || cs[n - 1] == '\n')
            invariant
                n <= cs.len(),
                cs@ == raw@,
                strip_eol(raw@) == strip_eol(cs@.take(n as int)),
            decreases n,
        {
            assert(cs@.take(n as int).drop_last() =~= cs@.take(n - 1));
            n -= 1;
        }
        assert(cs@.take(cs.len() as int) =~= cs@);
        let mut line = String::new();
        push_chars(&mut line, &cs, 0, n);
        proof {
            assert(cs@.subrange(0, n as int) =~= cs@.take(n as int));
            assert(cs@.take(n as int) == strip_eol(cs@.take(n as int)));
        }
        if self.ignore_blank_lines && crate::text::trim(line.as_str()).as_str().is_empty() {
            return None;
        }
        if self.skip_col_names && self.current_line == 1 {
            return None;
        }
        self.current_input = line.clone();
        Some(line)
    }

    /// Starts reading a record: counts its first line.
    pub fn begin_record(&mut self) -> (scan: RecordScan)
        requires
            old(self).current_line < usize::MAX,
        ensures
            final(self).current_line == old(self).current_line + 1,
            scan.state == ParserState::OutVal,
            scan.line@.len() == 0,
            final(self).input_paths == old(self).input_paths,
            final(self).current_input_idx == old(self).current_input_idx,
            final(self).current_filename == old(self).current_filename,
            final(self).current_input == old(self).current_input,
            final(self).same_options(*old(self)),
    {
        self.current_line = self.current_line + 1;
        RecordScan { state: ParserState::OutVal, line: String::new() }
    }

    /// Takes the next byte of a record (as a character, one per byte):
    /// carriage returns are skipped, a newline inside double quotes counts a
    /// line, and `true` means the byte ended the record.
    pub fn feed_byte(&mut self, scan: &mut RecordScan, b: u8) -> (end: bool)
        requires
            old(self).current_line < usize::MAX,
        ensures
            ({
                let c = b as char;
                let (st, eol) = record_step(old(scan).state, c, old(self).input_sep);
                &&& c == '\r' ==> !end && *final(scan) == *old(scan) && final(self).current_line
                    == old(self).current_line
                &&& c != '\r' ==> {
                    &&& end == eol
                    &&& final(scan).state == st
                    &&& final(scan).line@ == (if eol {
                        old(scan).line@
                    } else {
                        old(scan).line@.push(c)
                    })
                    &&& final(self).current_line == (if old(scan).state == ParserState::InQVal && c
                        == '\n' {
                        old(self).current_line + 1
                    } else {
                        old(self).current_line as int
                    })
                }
            }),
            final(self).input_paths == old(self).input_paths,
            final(self).current_input_idx == old(self).current_input_idx,
            final(self).current_filename == old(self).current_filename,
            final(self).current_input == old(self).current_input,
            final(self).same_options(*old(self)),
    {
        let c = b as char;
        if c == '\r' {
            return false;
        }
        let sep = self.input_sep;
        let (st, eol) = match scan.state {
            ParserState::OutVal => if c == sep {
                (ParserState::OutVal, false)
            } else if c == '"' {
                (ParserState::InQVal, false)
            } else if c == '\n' {
                (ParserState::OutVal, true)
            } else {
                (ParserState::InVal, false)
            },
            ParserState::InVal => if c == sep {
                (ParserState::OutVal, false)
            } else if c == '\n' {
                (ParserState::InVal, true)
            } else {
                (ParserState::InVal, false)
            },
            ParserState::InQVal => {
                if c == '\n' {
                    self.current_line = self.current_line + 1;
                }
                if c == '"' {
                    (ParserState::HaveQ, false)
                } else {
                    (ParserState::InQVal, false)
                }
            },
            ParserState::HaveQ => if c == '"' {
                (ParserState::InQVal, false)
            } else if c == '\n' {
                (ParserState::HaveQ, true)
            } else {
                (ParserState::OutVal, false)
            },
        };
        scan.state = st;
        if !eol {
            string_push(&mut scan.line, c);
        }
        eol
    }

    /// Takes a record as read from the current input: returns its fields, or
    /// `None` when it is dropped because it is blank and blank lines are
    /// ignored, or it began on the first line and column names are skipped.
    pub fn read_csv(&mut self, record: String) -> (r: Option<Vec<String>>)
        ensures
            ({
                let dropped = (old(self).ignore_blank_lines && is_blank(record@)) || (
                old(self).skip_col_names && old(self).current_line == 1);
                &&& dropped ==> r is None && final(self).current_input == old(self).current_input
                &&& !dropped ==> (r matches Some(row) && sview(row@) == spec_parse_csv(
                    record@,
                    old(self).input_sep,
                ) && final(self).current_input@ == record@)
            }),
            final(self).current_line == old(self).current_line,
            final(self).input_paths == old(self).input_paths,
            final(self).current_input_idx == old(self).current_input_idx,
            final(self).current_filename == old(self).current_filename,
            final(self).same_options(*old(self)),
    {
        if self.ignore_blank_lines && crate::text::trim(record.as_str()).as_str().is_empty() {
            return None;
        }
        if self.skip_col_names && self.current_line == 1 {
            return None;
        }
        let row = self.parse_csv_line(record.as_str());
        self.current_input = record;
        Some(row)
    }
}

/// Walking `a + b` is walking `a`, then `b`.
proof fn lemma_run_concat(st: ScanState, a: Seq<char>, b: Seq<char>, sep: char)
    ensures
        field_run(st, a + b, sep) == field_run(field_run(st, a, sep), b, sep),
    decreases b.len(),
{
    if b.len() == 0 {
        assert(a + b =~= a);
    } else {
        assert((a + b).drop_last() =~= a + b.drop_last());
        assert((a + b).last() == b.last());
        lemma_run_concat(st, a, b.drop_last(), sep);
    }
}

proof fn lemma_run_one(st: ScanState, c: char, sep: char)
    ensures
        field_run(st, seq![c], sep) == field_step(st, c, sep),
{
    assert(seq![c].drop_last() =~= Seq::<char>::empty());
    assert(field_run(st, Seq::<char>::empty(), sep) == st);
    assert(seq![c].last() == c);
}

proof fn lemma_run_two(st: ScanState, c: char, d: char, sep: char)
    ensures
        field_run(st, seq![c, d], sep) == field_step(field_step(st, c, sep), d, sep),
{
    assert(seq![c, d].drop_last() =~= seq![c]);
    lemma_run_one(st, c, sep);
}

/// Inside a quoted field, the escaped text of `f` reads back as `f`.
proof fn lemma_run_escaped(fs: Seq<Seq<char>>, c0: Seq<char>, f: Seq<char>, sep: char)
    requires
        sep != '"',
    ensures
        field_run((FieldMode::Quoted, fs, c0), escape_quotes(f), sep) == (
            FieldMode::Quoted,
            fs,
            c0 + f,
        ),
    decreases f.len(),
{
    if f.len() == 0 {
        assert(c0 + f =~= c0);
    } else {
        let g = f.drop_last();
        let c = f.last();
        lemma_run_escaped(fs, c0, g, sep);
        assert(c0 + f =~= (c0 + g).push(c));
        if c == '"' {
            lemma_run_concat((FieldMode::Quoted, fs, c0), escape_quotes(g), seq!['"', '"'], sep);
            lemma_run_two((FieldMode::Quoted, fs, c0 + g), '"', '"', sep);
        } else {
            assert(escape_quotes(f) =~= escape_quotes(g) + seq![c]);
            lemma_run_concat((FieldMode::Quoted, fs, c0), escape_quotes(g), seq![c], sep);
            lemma_run_one((FieldMode::Quoted, fs, c0 + g), c, sep);
        }
    }
}

/// The reader's state when it holds field `f` (quoted when `q`), not yet
/// finished, after the finished fields `fs`.
pub open spec fn pending_state(fs: Seq<Seq<char>>, f: Seq<char>, q: bool) -> ScanState {
    if q {
        (FieldMode::QuoteSeen, fs, f)
    } else if f.len() > 0 {
        (FieldMode::Unquoted, fs, f)
    } else {
        (FieldMode::Start, fs, Seq::<char>::empty())
    }
}

proof fn lemma_pending_sep(fs: Seq<Seq<char>>, f: Seq<char>, q: bool, sep: char)
    requires
        sep != '"',
    ensures
        field_step(pending_state(fs, f, q), sep, sep) == (FieldMode::Start, fs.push(f), Seq::<char>::empty()),
{
    if f.len() == 0 {
        assert(f =~= Seq::<char>::empty());
    }
}

/// An unquoted field without separators and quotes reads back whole.
proof fn lemma_run_plain(fs: Seq<Seq<char>>, f: Seq<char>, sep: char)
    requires
        f.len() > 0,
        !has_special(f, sep),
    ensures
        field_run((FieldMode::Start, fs, seq![]), f, sep) == (FieldMode::Unquoted, fs, f),
    decreases f.len(),
{
    let g = f.drop_last();
    assert(!(f.last() == '"' || f.last() == sep)) by {
        assert(0 <= f.len() - 1 < f.len());
    }
    if g.len() == 0 {
        assert(seq![f.last()] =~= f);
        lemma_run_one((FieldMode::Start, fs, seq![]), f.last(), sep);
    } else {
        assert(!has_special(g, sep)) by {
            if has_special(g, sep) {
                let k = choose|k: int| 0 <= k < g.len() && (g[k] == '"' || g[k] == sep);
                assert(f[k] == g[k]);
            }
        }
        lemma_run_plain(fs, g, sep);
        assert(g.push(f.last()) =~= f);
    }
}

/// Reading the text of one field, from the start of a field.
proof fn lemma_run_field(fs: Seq<Seq<char>>, f: Seq<char>, q: bool, sep: char)
    requires
        sep != '"',
        q || !has_special(f, sep),
    ensures
        field_run((FieldMode::Start, fs, seq![]), field_text(f, q), sep) == pending_state(fs, f, q),
{
    let st0: ScanState = (FieldMode::Start, fs, seq![]);
    if q {
        let e = escape_quotes(f);
        lemma_run_concat(st0, seq!['"'] + e, seq!['"'], sep);
        lemma_run_concat(st0, seq!['"'], e, sep);
        lemma_run_one(st0, '"', sep);
        lemma_run_escaped(fs, seq![], f, sep);
        assert(Seq::<char>::empty() + f =~= f);
        lemma_run_one((FieldMode::Quoted, fs, f), '"', sep);
    } else if f.len() == 0 {
        assert(field_text(f, q) =~= Seq::<char>::empty());
        assert(f =~= Seq::<char>::empty());
    } else {
        lemma_run_plain(fs, f, sep);
    }
}

/// Reading a joined line leaves the last field pending after all the others.
proof fn lemma_run_line(fs: Seq<Seq<char>>, qs: Seq<bool>, sep: char)
    requires
        sep != '"',
        fs.len() > 0,
        qs.len() == fs.len(),
        forall|i: int| 0 <= i < fs.len() ==> qs[i] || !has_special(#[trigger] fs[i], sep),
    ensures
        field_run(field_init(), line_text(fs, qs, sep), sep) == pending_state(fs.drop_last(), fs.last(), qs.last()),
    decreases fs.len(),
{
    if fs.len() == 1 {
        assert(fs.drop_last() =~= Seq::<Seq<char>>::empty());
        assert(line_text(fs, qs, sep) == field_text(fs[0], qs[0]));
        assert(fs.last() == fs[0] && qs.last() == qs[0]);
        assert(field_init() == (FieldMode::Start, Seq::<Seq<char>>::empty(), Seq::<char>::empty()));
        lemma_run_field(Seq::<Seq<char>>::empty(), fs[0], qs[0], sep);
    } else {
        let gs = fs.drop_last();
        let hs = qs.drop_last();
        assert forall|i: int| 0 <= i < gs.len() implies hs[i] || !has_special(#[trigger] gs[i], sep) by {
            assert(gs[i] == fs[i]);
        }
        lemma_run_line(gs, hs, sep);
        let x = line_text(gs, hs, sep);
        let t = field_text(fs.last(), qs.last());
        lemma_run_concat(field_init(), x.push(sep), t, sep);
        assert(x.push(sep) =~= x + seq![sep]);
        lemma_run_concat(field_init(), x, seq![sep], sep);
        lemma_run_one(field_run(field_init(), x, sep), sep, sep);
        lemma_pending_sep(gs.drop_last(), gs.last(), hs.last(), sep);
        assert(gs.drop_last().push(gs.last()) =~= gs);
        assert(field_run(field_init(), x.push(sep), sep) == (FieldMode::Start, gs, Seq::<char>::empty()));
        assert(line_text(fs, qs, sep) == x.push(sep) + t);
        assert(fs.drop_last() == gs);
        assert(qs.last() || !has_special(fs.last(), sep)) by {
            assert(fs.last() == fs[fs.len() - 1]);
        }
        lemma_run_field(gs, fs.last(), qs.last(), sep);
    }
}

/// Splitting a joined line gives back its fields, when each field is either
/// quoted or free of separators and double quotes, and the line is not made
/// of a single unquoted empty field.
pub proof fn lemma_line_roundtrip(fs: Seq<Seq<char>>, qs: Seq<bool>, sep: char)
    requires
        sep != '"',
        qs.len() == fs.len(),
        forall|i: int| 0 <= i < fs.len() ==> qs[i] || !has_special(#[trigger] fs[i], sep),
        !(fs.len() == 1 && !qs[0] && fs[0].len() == 0),
    ensures
        spec_parse_csv(line_text(fs, qs, sep), sep) == fs,
{
    if fs.len() == 0 {
        assert(spec_parse_csv(Seq::<char>::empty(), sep) =~= fs);
    } else {
        lemma_run_line(fs, qs, sep);
        let text = line_text(fs, qs, sep);
        let st = field_run(field_init(), text, sep);
        let f = fs.last();
        let q = qs.last();
        let t = field_text(f, q);
        assert(fs.drop_last().push(f) =~= fs);
        if fs.len() > 1 {
            let x = line_text(fs.drop_last(), qs.drop_last(), sep);
            assert(text == x.push(sep) + t);
            if t.len() == 0 {
                assert(text =~= x.push(sep));
            } else {
                assert(text.last() == t.last());
            }
        } else {
            assert(text == t);
        }
        if q {
            assert(t.last() == '"');
        } else if f.len() > 0 {
            assert(!(f.last() == '"' || f.last() == sep)) by {
                assert(f.last() == f[f.len() - 1]);
            }
        } else {
            assert(f =~= Seq::<char>::empty());
            assert(fs.drop_last().push(Seq::<char>::empty()) =~= fs);
        }
    }
}

/// Writing a row and reading its line back with the same separator gives the
/// row again, when every field is quoted or free of separators and double
/// quotes, and the row is not one unquoted empty field.
pub proof fn lemma_write_then_parse(m: IOManager, row: Seq<Seq<char>>)
    requires
        m.input_sep == m.output_sep,
        m.output_sep != '"',
        forall|i: int| 0 <= i < row.len() ==> m.quotes_field(i, row[i]) || !has_special(#[trigger] row[i], m.output_sep),
        !(row.len() == 1 && !m.quotes_field(0, row[0]) && row[0].len() == 0),
    ensures
        spec_parse_csv(m.row_line(row), m.input_sep) == row,
{
    let qs = m.quote_flags(row);
    assert forall|i: int| 0 <= i < row.len() implies qs[i] || !has_special(#[trigger] row[i], m.output_sep) by {
        assert(qs[i] == m.quotes_field(i, row[i]));
    }
    lemma_line_roundtrip(row, qs, m.output_sep);
}

} // verus!
