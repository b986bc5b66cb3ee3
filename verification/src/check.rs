//! Checking that a CSV text is well formed: each record is read field by
//! field, and the first misplaced double quote, newline inside quotes
//! (when not allowed) or unterminated quoted field is reported with its
//! line.
use vstd::prelude::*;
use crate::num::{dec_string, usize_to_string};
use crate::text::{chars_of, lit, push_str, string_push, sview};

verus! {

/// Where the checker stands: the position in the text, the current
/// character (`'\0'` at the end), the line number and the text of the
/// current line so far.
pub type CheckState = (int, char, int, Seq<char>);

/// What the checker found wrong.
#[derive(PartialEq, Eq, Structural, Clone, Copy, Debug)]
pub enum CheckFail {
    /// A double quote inside an unquoted field, or after a closing quote.
    Quote,
    /// A character inside quotes when embedded newlines are not allowed.
    Newline,
    /// The text ended inside quotes.
    Eof,
}

/// Which part of a record the checker is reading.
#[derive(PartialEq, Eq, Structural, Clone, Copy, Debug)]
pub enum CheckMode {
    /// At the start of a field or at the end of the record.
    Start,
    /// Inside an unquoted field.
    Plain,
    /// Inside a quoted field.
    Quoted,
}

/// The text with every carriage return left out: the checker skips them.
pub open spec fn without_cr(s: Seq<char>) -> Seq<char>
    decreases s.len(),
{
    if s.len() == 0 {
        s
    } else if s.last() == '\r' {
        without_cr(s.drop_last())
    } else {
        without_cr(s.drop_last()).push(s.last())
    }
}

/// The checker moved to the next character of `cs`: a newline starts a
/// new line, another character joins the line's text.
pub open spec fn advance(cs: Seq<char>, st: CheckState) -> CheckState {
    if st.0 < 0 || st.0 >= cs.len() {
        (st.0, '\0', st.2, st.3)
    } else if cs[st.0] == '\n' {
        (st.0 + 1, '\n', st.2 + 1, seq![])
    } else {
        (st.0 + 1, cs[st.0], st.2, st.3.push(cs[st.0]))
    }
}

/// The character after the current one, or `'\0'`.
pub open spec fn peek_at(cs: Seq<char>, p: int) -> char {
    if 0 <= p < cs.len() {
        cs[p]
    } else {
        '\0'
    }
}

/// Reads on from state `st`, in mode `mode`, with the field `field` and
/// the fields `row` read so far, to the end of the record: the fields of
/// the record or what was wrong, and the state where the checker stops.
pub open spec fn check_run(
    cs: Seq<char>,
    sep: char,
    dq: bool,
    nl_ok: bool,
    st: CheckState,
    mode: CheckMode,
    field: Seq<char>,
    row: Seq<Seq<char>>,
) -> (Result<Seq<Seq<char>>, CheckFail>, CheckState)
    decreases cs.len() - st.0, (if st.1 == '\0' {
        0int
    } else {
        1int
    }), (if mode == CheckMode::Plain {
        1int
    } else {
        0int
    }),
    when 0 <= st.0 <= cs.len()
{
    let c = st.1;
    match mode {
        CheckMode::Start => if c == '\0' || c == '\n' {
            (Ok(row), advance(cs, st))
        } else if c == '"' && dq {
            check_run(cs, sep, dq, nl_ok, advance(cs, st), CheckMode::Quoted, seq![], row)
        } else if c == sep {
            check_run(cs, sep, dq, nl_ok, advance(cs, st), CheckMode::Start, seq![], row.push(seq![]))
        } else {
            check_run(cs, sep, dq, nl_ok, advance(cs, st), CheckMode::Plain, seq![c], row)
        },
        CheckMode::Plain => if c == sep {
            check_run(cs, sep, dq, nl_ok, advance(cs, st), CheckMode::Start, seq![], row.push(field))
        } else if c == '\n' || c == '\0' {
            (Ok(row.push(field)), advance(cs, st))
        } else if c == '"' && dq {
            (Err(CheckFail::Quote), st)
        } else {
            check_run(cs, sep, dq, nl_ok, advance(cs, st), CheckMode::Plain, field.push(c), row)
        },
        CheckMode::Quoted => if c == '\0' {
            (Err(CheckFail::Eof), st)
        } else if c == '"' {
            let p = peek_at(cs, st.0);
            if p == '"' {
                check_run(
                    cs,
                    sep,
                    dq,
                    nl_ok,
                    advance(cs, advance(cs, st)),
                    CheckMode::Quoted,
                    field.push('"'),
                    row,
                )
            } else if p == sep || p == '\n' || p == '\0' {
                let st2 = if p == sep {
                    advance(cs, st)
                } else {
                    st
                };
                check_run(
                    cs,
                    sep,
                    dq,
                    nl_ok,
                    advance(cs, st2),
                    CheckMode::Start,
                    seq![],
                    row.push(field),
                )
            } else {
                (Err(CheckFail::Quote), st)
            }
        } else if nl_ok {
            check_run(cs, sep, dq, nl_ok, advance(cs, st), CheckMode::Quoted, field.push(c), row)
        } else {
            (Err(CheckFail::Newline), st)
        },
    }
}

/// Checks a CSV text record by record.
pub struct CSVChecker {
    pub file_name: String,
    pub field_sep: char,
    pub dq_special: bool,
    pub embed_nl_ok: bool,
    /// The text without carriage returns.
    pub chars: Vec<char>,
    pub pos: usize,
    pub current_char: char,
    pub line_no: usize,
    pub current_line_text: String,
}

impl CSVChecker {
    /// The checker's state.
    pub open spec fn state(&self) -> CheckState {
        (self.pos as int, self.current_char, self.line_no as int, self.current_line_text@)
    }

    /// The position and line number stay in range.
    pub open spec fn wf(&self) -> bool {
        &&& self.pos <= self.chars@.len() < usize::MAX
        &&& 1 <= self.line_no <= self.pos + 1
    }

    /// What reading the next record gives, and where it leaves the checker.
    pub open spec fn record_outcome(&self) -> (Result<Seq<Seq<char>>, CheckFail>, CheckState) {
        check_run(
            self.chars@,
            self.field_sep,
            self.dq_special,
            self.embed_nl_ok,
            self.state(),
            CheckMode::Start,
            seq![],
            seq![],
        )
    }

    /// The message for a failure found in state `st`.
    pub open spec fn error_text(&self, f: CheckFail, st: CheckState) -> Seq<char> {
        match f {
            CheckFail::Quote => "Unexpected double-quote"@ + " in "@ + self.file_name@ + " at line "@
                + dec_string(st.2 as nat) + seq!['\n'] + st.3,
            CheckFail::Newline => "Embedded newline"@ + " in "@ + self.file_name@ + " at line "@
                + dec_string(st.2 as nat) + seq!['\n'] + st.3,
            CheckFail::Eof => "Unexpected end of input (probably mis-matched quotes)"@ + " in "@
                + self.file_name@,
        }
    }

    /// The settings stay; only the reading state moves.
    pub open spec fn same_text(&self, other: &Self) -> bool {
        &&& self.file_name@ == other.file_name@
        &&& self.field_sep == other.field_sep
        &&& self.dq_special == other.dq_special
        &&& self.embed_nl_ok == other.embed_nl_ok
        &&& self.chars@ == other.chars@
    }

    /// A checker of `content`, named `file_name` in messages, on the first
    /// character.
    pub fn new(file_name: String, content: &str, field_sep: char, dq_special: bool, embed_nl_ok: bool) -> (r:
        Self)
        requires
            content@.len() < usize::MAX,
        ensures
            r.wf(),
            r.file_name@ == file_name@,
            r.field_sep == field_sep,
            r.dq_special == dq_special,
            r.embed_nl_ok == embed_nl_ok,
            r.chars@ == without_cr(content@),
            r.state() == advance(without_cr(content@), (0, '\0', 1, seq![])),
    {
        let all = chars_of(content);
        let mut chars: Vec<char> = Vec::new();
        let mut i: usize = 0;
        while i < all.len()
            invariant
                i <= all@.len(),
                all@ == content@,
                chars@ == without_cr(all@.take(i as int)),
                chars@.len() <= i,
            decreases all@.len() - i,
        {
            let c = all[i];
            proof {
                let t = all@.take(i + 1);
                assert(t.drop_last() =~= all@.take(i as int));
                assert(t.last() == c);
            }
            if c != '\r' {
                chars.push(c);
            }
            i += 1;
        }
        assert(all@.take(all@.len() as int) =~= all@);
        let mut chk = CSVChecker {
            file_name,
            field_sep,
            dq_special,
            embed_nl_ok,
            chars,
            pos: 0,
            current_char: '\0',
            line_no: 1,
            current_line_text: String::new(),
        };
        chk.next_char();
        chk
    }

    /// Moves to the next character.
    fn next_char(&mut self)
        requires
            old(self).wf(),
        ensures
            final(self).wf(),
            final(self).same_text(old(self)),
            final(self).state() == advance(old(self).chars@, old(self).state()),
    {
        if self.pos >= self.chars.len() {
            self.current_char = '\0';
            return;
        }
        let c = self.chars[self.pos];
        self.pos = self.pos + 1;
        if c == '\n' {
            self.line_no = self.line_no + 1;
            self.current_line_text = String::new();
            self.current_char = '\n';
        } else {
            string_push(&mut self.current_line_text, c);
            self.current_char = c;
        }
    }

    /// The character after the current one, or `'\0'`.
    fn peek(&self) -> (c: char)
        ensures
            c == peek_at(self.chars@, self.pos as int),
    {
        if self.pos < self.chars.len() {
            self.chars[self.pos]
        } else {
            '\0'
        }
    }

    /// The message for `msg`, with the line number and text when
    /// `context` is set.
    fn error(&self, msg: &str, context: bool) -> (s: String)
        ensures
            s@ == (if context {
                msg@ + " in "@ + self.file_name@ + " at line "@ + dec_string(self.line_no as nat)
                    + seq!['\n'] + self.current_line_text@
            } else {
                msg@ + " in "@ + self.file_name@
            }),
    {
        let mut s = lit(msg);
        push_str(&mut s, " in ");
        push_str(&mut s, self.file_name.as_str());
        if context {
            push_str(&mut s, " at line ");
            let n = usize_to_string(self.line_no);
            push_str(&mut s, n.as_str());
            string_push(&mut s, '\n');
            push_str(&mut s, self.current_line_text.as_str());
        }
        s
    }

    /// Reads the next record: `None` when no field is left before the end
    /// of the record, or the first error with its place.
    pub fn next_record(&mut self) -> (r: Result<Option<Vec<String>>, String>)
        requires
            old(self).wf(),
        ensures
            final(self).wf(),
            final(self).same_text(old(self)),
            final(self).state() == old(self).record_outcome().1,
            match old(self).record_outcome().0 {
                Ok(row) => if row.len() == 0 {
                    r == Ok::<Option<Vec<String>>, String>(None)
                } else {
                    r matches Ok(Some(v)) && sview(v@) == row
                },
                Err(f) => r matches Err(e) && e@ == old(self).error_text(f, old(self).record_outcome().1),
            },
    {
        let ghost chars = self.chars@;
        let ghost sep = self.field_sep;
        let ghost dq = self.dq_special;
        let ghost nl = self.embed_nl_ok;
        let ghost outcome = self.record_outcome();
        let mut row: Vec<String> = Vec::new();
        let mut field = String::new();
        let mut mode = CheckMode::Start;
        assert(sview(row@) =~= Seq::<Seq<char>>::empty());
        loop
            invariant_except_break
                check_run(chars, sep, dq, nl, self.state(), mode, field@, sview(row@)) == outcome,
                mode == CheckMode::Start ==> field@ == Seq::<char>::empty(),
            invariant
                self.wf(),
                self.same_text(old(self)),
                chars == self.chars@,
                sep == self.field_sep,
                dq == self.dq_special,
                nl == self.embed_nl_ok,
                outcome == old(self).record_outcome(),
            ensures
                outcome == (Ok::<Seq<Seq<char>>, CheckFail>(sview(row@)), self.state()),
            decreases chars.len() - self.pos, (if self.current_char == '\0' {
                0int
            } else {
                1int
            }), (if mode == CheckMode::Plain {
                1int
            } else {
                0int
            }),
        {
            let c = self.current_char;
            let ghost st = self.state();
            let ghost r0 = row@;
            match mode {
                CheckMode::Start => {
                    if c == '\0' || c == '\n' {
                        self.next_char();
                        break ;
                    } else if c == '"' && self.dq_special {
                        self.next_char();
                        mode = CheckMode::Quoted;
                    } else if c == self.field_sep {
                        let e = String::new();
                        let ghost eg = e;
                        row.push(e);
                        proof {
                            lemma_sview_push(r0, eg);
                        }
                        self.next_char();
                    } else {
                        string_push(&mut field, c);
                        self.next_char();
                        mode = CheckMode::Plain;
                    }
                },
                CheckMode::Plain => {
                    if c == self.field_sep || c == '\n' || c == '\0' {
                        row.push(field);
                        proof {
                            lemma_sview_push(r0, field);
                        }
                        field = String::new();
                        mode = CheckMode::Start;
                        if c == self.field_sep {
                            self.next_char();
                        } else {
                            self.next_char();
                            break ;
                        }
                    } else if c == '"' && self.dq_special {
                        return Err(self.error("Unexpected double-quote", true));
                    } else {
                        string_push(&mut field, c);
                        self.next_char();
                    }
                },
                CheckMode::Quoted => {
                    if c == '\0' {
                        return Err(
                            self.error("Unexpected end of input (probably mis-matched quotes)", false),
                        );
                    } else if c == '"' {
                        let p = self.peek();
                        if p == '"' {
                            string_push(&mut field, '"');
                            self.next_char();
                            self.next_char();
                        } else if p == self.field_sep || p == '\n' || p == '\0' {
                            row.push(field);
                            proof {
                                lemma_sview_push(r0, field);
                            }
                            field = String::new();
                            if p == self.field_sep {
                                self.next_char();
                            }
                            self.next_char();
                            mode = CheckMode::Start;
                        } else {
                            return Err(self.error("Unexpected double-quote", true));
                        }
                    } else if self.embed_nl_ok {
                        string_push(&mut field, c);
                        self.next_char();
                    } else {
                        return Err(self.error("Embedded newline", true));
                    }
                },
            }
        }
        if row.len() == 0 {
            Ok(None)
        } else {
            Ok(Some(row))
        }
    }
}

/// The view of a row with one more field.
proof fn lemma_sview_push(r: Seq<String>, f: String)
    ensures
        sview(r.push(f)) == sview(r).push(f@),
{
    assert(sview(r.push(f)) =~= sview(r).push(f@));
}

} // verus!
