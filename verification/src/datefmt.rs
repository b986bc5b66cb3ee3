//! Writing ISO dates with a user format such as `dd mmm yyyy`, and
//! converting the date columns of a row.
use vstd::prelude::*;
use crate::dates::{weekday_of, spec_valid_date, validate_date, chrono_date_exists, weekday_from_sunday, Date, MaskedDateReader};
use crate::num::{
    dec_string, int_string, spec_parse_i32, parse_i32, usize_to_string, i64_to_string, all_digits,
    dec_value, lemma_dec_value, lemma_parse_dec_small,
};
use crate::rows::{col_selected, cols_view, is_selected};
use crate::text::{chars_of, string_push, push_str, lit, sview, split_seq, split_str};

verus! {

/// A piece of a date format: a run of one format letter, or literal text.
pub struct FmtEntry {
    pub text: String,
    pub is_fmt: bool,
}

/// The letters that stand for a part of a date in a format.
pub open spec fn is_fmt_char(c: char) -> bool {
    c == 'd' || c == 'm' || c == 'y' || c == 'D' || c == 'M' || c == 'Y' || c == 'w' || c == 'W'
}

/// The state of the format scanner: the letter of the current run, the
/// run, the pending literal text, and the pieces so far.
pub type FmtScan = (char, Seq<char>, Seq<char>, Seq<(Seq<char>, bool)>);

/// `out` with `(s, is_fmt)` added when `s` is not empty.
pub open spec fn flush_piece(out: Seq<(Seq<char>, bool)>, s: Seq<char>, is_fmt: bool) -> Seq<(Seq<char>, bool)> {
    if s.len() > 0 {
        out.push((s, is_fmt))
    } else {
        out
    }
}

/// One character of the format: it extends the current run of its letter,
/// starts a new run of a format letter, or joins the literal text.
pub open spec fn fmt_step(st: FmtScan, c: char) -> FmtScan {
    if c == st.0 {
        (st.0, st.1.push(c), st.2, st.3)
    } else if is_fmt_char(c) {
        (c, seq![c], seq![], flush_piece(flush_piece(st.3, st.1, true), st.2, false))
    } else {
        ('\0', seq![], st.2.push(c), flush_piece(st.3, st.1, true))
    }
}

/// The scanner's state after the characters `cs`.
pub open spec fn fmt_scan(cs: Seq<char>) -> FmtScan
    decreases cs.len(),
{
    if cs.len() == 0 {
        ('\0', seq![], seq![], seq![])
    } else {
        fmt_step(fmt_scan(cs.drop_last()), cs.last())
    }
}

/// The pieces of the format `cs`.
pub open spec fn format_pieces(cs: Seq<char>) -> Seq<(Seq<char>, bool)> {
    let st = fmt_scan(cs);
    flush_piece(flush_piece(st.3, st.1, true), st.2, false)
}

/// The pieces of a list of entries.
pub open spec fn entries_view(v: Seq<FmtEntry>) -> Seq<(Seq<char>, bool)> {
    v.map_values(|e: FmtEntry| (e.text@, e.is_fmt))
}

fn flush_entry(list: &mut Vec<FmtEntry>, s: &mut String, is_fmt: bool)
    ensures
        entries_view(final(list)@) == flush_piece(entries_view(old(list)@), old(s)@, is_fmt),
        final(s)@ == Seq::<char>::empty(),
{
    let ghost before = entries_view(list@);
    if !s.as_str().is_empty() {
        let t = s.clone();
        list.push(FmtEntry { text: t, is_fmt });
        *s = String::new();
        assert(entries_view(list@) =~= before.push((old(s)@, is_fmt)));
    } else {
        *s = String::new();
    }
}

/// Splits a date format into runs of format letters and literal text.
pub fn build_format(fmt: &str) -> (r: Vec<FmtEntry>)
    ensures
        entries_view(r@) == format_pieces(fmt@),
{
    let cs = chars_of(fmt);
    let mut list: Vec<FmtEntry> = Vec::new();
    let mut fs = String::new();
    let mut ls = String::new();
    let mut t: char = '\0';
    let mut i: usize = 0;
    while i < cs.len()
        invariant
            i <= cs.len(),
            cs@ == fmt@,
            (t, fs@, ls@, entries_view(list@)) == fmt_scan(cs@.take(i as int)),
        decreases cs.len() - i,
    {
        let c = cs[i];
        assert(cs@.take(i + 1).drop_last() =~= cs@.take(i as int));
        if c == t {
            string_push(&mut fs, c);
        } else if c == 'd' || c == 'm' || c == 'y' || c == 'D' || c == 'M' || c == 'Y' || c == 'w'
            || c == 'W' {
            flush_entry(&mut list, &mut fs, true);
            flush_entry(&mut list, &mut ls, false);
            t = c;
            string_push(&mut fs, c);
            assert(fs@ =~= seq![c]);
        } else {
            flush_entry(&mut list, &mut fs, true);
            t = '\0';
            string_push(&mut ls, c);
        }
        i += 1;
    }
    assert(cs@.take(cs.len() as int) =~= cs@);
    flush_entry(&mut list, &mut fs, true);
    flush_entry(&mut list, &mut ls, false);
    list
}

/// `n` written with at least two digits (`{:02}`).
pub open spec fn two_digits(n: nat) -> Seq<char> {
    if n < 10 {
        seq!['0'] + dec_string(n)
    } else {
        dec_string(n)
    }
}

/// The short name of month `m`.
pub open spec fn short_month(m: int) -> Seq<char> {
    if m == 1 { "Jan"@ } else if m == 2 { "Feb"@ } else if m == 3 { "Mar"@ } else if m == 4 {
        "Apr"@
    } else if m == 5 { "May"@ } else if m == 6 { "Jun"@ } else if m == 7 { "Jul"@ } else if m
        == 8 { "Aug"@ } else if m == 9 { "Sep"@ } else if m == 10 { "Oct"@ } else if m == 11 {
        "Nov"@
    } else { "Dec"@ }
}

/// The full name of month `m`.
pub open spec fn long_month(m: int) -> Seq<char> {
    if m == 1 { "January"@ } else if m == 2 { "February"@ } else if m == 3 { "March"@ } else if m
        == 4 { "April"@ } else if m == 5 { "May"@ } else if m == 6 { "June"@ } else if m == 7 {
        "July"@
    } else if m == 8 { "August"@ } else if m == 9 { "September"@ } else if m == 10 {
        "October"@
    } else if m == 11 { "November"@ } else { "December"@ }
}

/// The full name of day `w` of the week, from 0 (Sunday); Wednesday is
/// written `Wedneday`.
pub open spec fn long_day(w: int) -> Seq<char> {
    if w == 0 { "Sunday"@ } else if w == 1 { "Monday"@ } else if w == 2 { "Tuesday"@ } else if w
        == 3 { "Wedneday"@ } else if w == 4 { "Thursday"@ } else if w == 5 { "Friday"@ } else {
        "Saturday"@
    }
}

/// The short name of day `w` of the week, from 0 (Sunday).
pub open spec fn short_day(w: int) -> Seq<char> {
    if w == 0 { "Sun"@ } else if w == 1 { "Mon"@ } else if w == 2 { "Tue"@ } else if w == 3 {
        "Wed"@
    } else if w == 4 { "Thu"@ } else if w == 5 { "Fri"@ } else { "Sat"@ }
}

/// `f` is `n` copies of the letter `c`.
pub open spec fn run_of(f: Seq<char>, c: char, n: nat) -> bool {
    f.len() == n && forall|i: int| 0 <= i < n ==> f[i] == c
}

/// What the format piece `f` writes for the date `d`, or `None` for a
/// piece that is not a known format.
pub open spec fn entry_text(f: Seq<char>, d: Date) -> Option<Seq<char>> {
    let w = weekday_of(d.year as int, d.month as int, d.day as int) as int;
    if run_of(f, 'd', 1) {
        Some(dec_string(d.day as nat))
    } else if run_of(f, 'd', 2) {
        Some(two_digits(d.day as nat))
    } else if run_of(f, 'm', 1) {
        Some(dec_string(d.month as nat))
    } else if run_of(f, 'm', 2) {
        Some(two_digits(d.month as nat))
    } else if run_of(f, 'm', 3) {
        Some(short_month(d.month as int))
    } else if run_of(f, 'M', 1) {
        Some(long_month(d.month as int))
    } else if run_of(f, 'y', 1) || run_of(f, 'y', 4) {
        Some(int_string(d.year as int))
    } else if run_of(f, 'W', 1) {
        Some(long_day(w))
    } else if run_of(f, 'w', 1) {
        Some(short_day(w))
    } else {
        None
    }
}

/// A date of the years 1900 to 3000 in a `Date`.
pub open spec fn date_ok(d: Date) -> bool {
    spec_valid_date(d.year as int, d.month as int, d.day as int)
}

fn two_digit_string(n: u32) -> (s: String)
    requires
        n < 100,
    ensures
        s@ == two_digits(n as nat),
{
    let mut s = String::new();
    if n < 10 {
        string_push(&mut s, '0');
    }
    let t = usize_to_string(n as usize);
    push_str(&mut s, t.as_str());
    s
}

fn is_run(cs: &Vec<char>, c: char, n: usize) -> (b: bool)
    ensures
        b == run_of(cs@, c, n as nat),
{
    if cs.len() != n {
        return false;
    }
    let mut i: usize = 0;
    while i < cs.len()
        invariant
            i <= cs.len() == n,
            forall|j: int| 0 <= j < i ==> cs@[j] == c,
        decreases cs.len() - i,
    {
        if cs[i] != c {
            return false;
        }
        i += 1;
    }
    true
}

fn month_name(m: u32, short: bool) -> (s: String)
    ensures
        s@ == (if short { short_month(m as int) } else { long_month(m as int) }),
{
    if short {
        lit(if m == 1 { "Jan" } else if m == 2 { "Feb" } else if m == 3 { "Mar" } else if m == 4 {
            "Apr"
        } else if m == 5 { "May" } else if m == 6 { "Jun" } else if m == 7 { "Jul" } else if m
            == 8 { "Aug" } else if m == 9 { "Sep" } else if m == 10 { "Oct" } else if m == 11 {
            "Nov"
        } else { "Dec" })
    } else {
        lit(if m == 1 { "January" } else if m == 2 { "February" } else if m == 3 { "March" } else if m
            == 4 { "April" } else if m == 5 { "May" } else if m == 6 { "June" } else if m == 7 {
            "July"
        } else if m == 8 { "August" } else if m == 9 { "September" } else if m == 10 {
            "October"
        } else if m == 11 { "November" } else { "December" })
    }
}

fn day_name(w: u32, short: bool) -> (s: String)
    ensures
        s@ == (if short { short_day(w as int) } else { long_day(w as int) }),
{
    if short {
        lit(if w == 0 { "Sun" } else if w == 1 { "Mon" } else if w == 2 { "Tue" } else if w == 3 {
            "Wed"
        } else if w == 4 { "Thu" } else if w == 5 { "Fri" } else { "Sat" })
    } else {
        lit(if w == 0 { "Sunday" } else if w == 1 { "Monday" } else if w == 2 { "Tuesday" } else if w
            == 3 { "Wedneday" } else if w == 4 { "Thursday" } else if w == 5 { "Friday" } else {
            "Saturday"
        })
    }
}

/// Writes one format piece for a date, or fails on a piece that is not a
/// known format.
pub fn format_date_entry(fmt: &str, date: &Date) -> (r: Result<String, String>)
    requires
        date_ok(*date),
    ensures
        match entry_text(fmt@, *date) {
            Some(t) => r matches Ok(s) && s@ == t,
            None => r matches Err(e) && e@ == "Invalid date format substring: "@ + fmt@,
        },
{
    let cs = chars_of(fmt);
    if is_run(&cs, 'd', 1) {
        Ok(usize_to_string(date.day as usize))
    } else if is_run(&cs, 'd', 2) {
        Ok(two_digit_string(date.day))
    } else if is_run(&cs, 'm', 1) {
        Ok(usize_to_string(date.month as usize))
    } else if is_run(&cs, 'm', 2) {
        Ok(two_digit_string(date.month))
    } else if is_run(&cs, 'm', 3) {
        Ok(month_name(date.month, true))
    } else if is_run(&cs, 'M', 1) {
        Ok(month_name(date.month, false))
    } else if is_run(&cs, 'y', 1) || is_run(&cs, 'y', 4) {
        Ok(i64_to_string(date.year as i64))
    } else if is_run(&cs, 'W', 1) {
        let w = weekday_from_sunday(date.year, date.month, date.day);
        Ok(day_name(w, false))
    } else if is_run(&cs, 'w', 1) {
        let w = weekday_from_sunday(date.year, date.month, date.day);
        Ok(day_name(w, true))
    } else {
        let mut e = lit("Invalid date format substring: ");
        push_str(&mut e, fmt);
        Err(e)
    }
}

/// The date that the ISO text `ds` (`y-m-d`) holds, if it is a valid date
/// of the years 1900 to 3000.
pub open spec fn spec_parse_iso(ds: Seq<char>) -> Option<Date> {
    let parts = split_seq(ds, '-');
    if parts.len() != 3 {
        None
    } else {
        match (spec_parse_i32(parts[0]), spec_parse_i32(parts[1]), spec_parse_i32(parts[2])) {
            (Some(y), Some(m), Some(d)) => if spec_valid_date(y as int, m as int, d as int) {
                Some(Date { year: y, month: m as u32, day: d as u32 })
            } else {
                None
            },
            _ => None,
        }
    }
}

/// Reads an ISO date `y-m-d`.
pub fn parse_iso_date(ds: &str) -> (r: Option<Date>)
    ensures
        r == spec_parse_iso(ds@),
        r matches Some(d) ==> date_ok(d),
{
    let parts = split_str(ds, '-');
    assert(sview(parts@).len() == parts@.len());
    if parts.len() != 3 {
        return None;
    }
    assert(sview(parts@)[0] == parts@[0]@);
    assert(sview(parts@)[1] == parts@[1]@);
    assert(sview(parts@)[2] == parts@[2]@);
    let y = match parse_i32(parts[0].as_str()) {
        Some(v) => v,
        None => return None,
    };
    let m = match parse_i32(parts[1].as_str()) {
        Some(v) => v,
        None => return None,
    };
    let d = match parse_i32(parts[2].as_str()) {
        Some(v) => v,
        None => return None,
    };
    if validate_date(y, m, d) {
        if chrono_date_exists(y, m as u32, d as u32) {
            Some(Date { year: y, month: m as u32, day: d as u32 })
        } else {
            None
        }
    } else {
        None
    }
}

/// The pieces written in turn for the date `d`, or `None` if one of them
/// is not a known format.
pub open spec fn format_all(pieces: Seq<(Seq<char>, bool)>, d: Date) -> Option<Seq<char>>
    decreases pieces.len(),
{
    if pieces.len() == 0 {
        Some(seq![])
    } else {
        match format_all(pieces.drop_last(), d) {
            None => None,
            Some(prev) => if pieces.last().1 {
                match entry_text(pieces.last().0, d) {
                    Some(x) => Some(prev + x),
                    None => None,
                }
            } else {
                Some(prev + pieces.last().0)
            },
        }
    }
}

/// `ds` written with the format pieces, or `ds` itself when it is not an
/// ISO date or a piece is not a known format.
pub open spec fn spec_format_date(ds: Seq<char>, pieces: Seq<(Seq<char>, bool)>) -> Seq<char> {
    match spec_parse_iso(ds) {
        None => ds,
        Some(d) => match format_all(pieces, d) {
            Some(s) => s,
            None => ds,
        },
    }
}

/// Writes the ISO date `ds` with the format pieces `format_list`.
pub fn format_date(ds: &str, format_list: &Vec<FmtEntry>) -> (r: String)
    ensures
        r@ == spec_format_date(ds@, entries_view(format_list@)),
{
    match parse_iso_date(ds) {
        None => lit(ds),
        Some(date) => {
            let ghost pieces = entries_view(format_list@);
            let mut out = String::new();
            let mut i: usize = 0;
            while i < format_list.len()
                invariant
                    i <= format_list@.len(),
                    pieces == entries_view(format_list@),
                    pieces.len() == format_list@.len(),
                    date_ok(date),
                    spec_parse_iso(ds@) == Some(date),
                    format_all(pieces.take(i as int), date) == Some(out@),
                decreases format_list@.len() - i,
            {
                let entry = &format_list[i];
                assert(pieces[i as int] == (entry.text@, entry.is_fmt));
                assert(pieces.take(i + 1).drop_last() =~= pieces.take(i as int));
                assert(pieces.take(i + 1).last() == pieces[i as int]);
                if entry.is_fmt {
                    match format_date_entry(entry.text.as_str(), &date) {
                        Ok(t) => push_str(&mut out, t.as_str()),
                        Err(_) => {
                            proof {
                                lemma_format_all_none(pieces, date, i as int + 1);
                            }
                            return lit(ds);
                        },
                    }
                } else {
                    push_str(&mut out, entry.text.as_str());
                }
                i += 1;
            }
            assert(pieces.take(format_list.len() as int) =~= pieces);
            out
        },
    }
}

proof fn lemma_format_all_none(pieces: Seq<(Seq<char>, bool)>, d: Date, i: int)
    requires
        0 <= i <= pieces.len(),
        format_all(pieces.take(i), d) is None,
    ensures
        format_all(pieces, d) is None,
    decreases pieces.len() - i,
{
    if i < pieces.len() {
        assert(pieces.take(i + 1).drop_last() =~= pieces.take(i));
        lemma_format_all_none(pieces, d, i + 1);
    } else {
        assert(pieces.take(i) =~= pieces);
    }
}

/// The ISO text `yyyy-mm-dd` of a date of the years 1900 to 3000.
pub open spec fn iso_text(d: Date) -> Seq<char> {
    dec_string(d.year as nat) + seq!['-'] + two_digits(d.month as nat) + seq!['-'] + two_digits(
        d.day as nat,
    )
}

/// Writes a date as `yyyy-mm-dd`.
pub fn iso_string(d: &Date) -> (s: String)
    requires
        date_ok(*d),
    ensures
        s@ == iso_text(*d),
{
    let mut s = usize_to_string(d.year as usize);
    string_push(&mut s, '-');
    let m = two_digit_string(d.month);
    push_str(&mut s, m.as_str());
    string_push(&mut s, '-');
    let dd = two_digit_string(d.day);
    push_str(&mut s, dd.as_str());
    s
}

/// Which rows the ISO date conversion writes.
#[derive(PartialEq, Eq, Structural, Clone, Copy, Debug)]
pub enum DateWriteAction {
    WriteAll,
    WriteGood,
    WriteBad,
}

/// Whether a row is written, given whether one of its dates was bad.
pub fn date_row_written(action: DateWriteAction, have_bad: bool) -> (w: bool)
    ensures
        w == match action {
            DateWriteAction::WriteAll => true,
            DateWriteAction::WriteGood => !have_bad,
            DateWriteAction::WriteBad => have_bad,
        },
{
    match action {
        DateWriteAction::WriteAll => true,
        DateWriteAction::WriteGood => !have_bad,
        DateWriteAction::WriteBad => have_bad,
    }
}

/// The field after ISO conversion: the ISO text of the date it holds, or
/// the field unchanged.
pub open spec fn iso_field(reader: MaskedDateReader, f: Seq<char>) -> Seq<char> {
    match reader.spec_read(f) {
        Some(d) => iso_text(d),
        None => f,
    }
}

/// Converts the selected fields of `row` that hold dates by the reader's
/// mask to ISO form; also says whether a selected field held no date.
pub fn date_iso_row(reader: &MaskedDateReader, cols: &Option<Vec<usize>>, row: &Vec<String>) -> (r: (
    Vec<String>,
    bool,
))
    requires
        reader.wf(),
        forall|i: int|
            0 <= i < row@.len() && col_selected(cols_view(cols), i) ==> !reader.read_panics(
                #[trigger] row@[i]@,
            ),
    ensures
        r.0@.len() == row@.len(),
        forall|i: int|
            0 <= i < row@.len() ==> #[trigger] r.0@[i]@ == (if col_selected(cols_view(cols), i) {
                iso_field(*reader, row@[i]@)
            } else {
                row@[i]@
            }),
        r.1 == exists|i: int|
            0 <= i < row@.len() && col_selected(cols_view(cols), i) && (#[trigger] reader.spec_read(
                row@[i]@,
            )) is None,
{
    let mut out: Vec<String> = Vec::new();
    let mut bad = false;
    let mut i: usize = 0;
    while i < row.len()
        invariant
            i <= row@.len(),
            reader.wf(),
            forall|j: int|
                0 <= j < row@.len() && col_selected(cols_view(cols), j) ==> !reader.read_panics(
                    #[trigger] row@[j]@,
                ),
            out@.len() == i,
            forall|j: int|
                0 <= j < i ==> #[trigger] out@[j]@ == (if col_selected(cols_view(cols), j) {
                    iso_field(*reader, row@[j]@)
                } else {
                    row@[j]@
                }),
            bad == exists|j: int|
                0 <= j < i && col_selected(cols_view(cols), j) && (#[trigger] reader.spec_read(
                    row@[j]@,
                )) is None,
        decreases row@.len() - i,
    {
        let f = &row[i];
        if is_selected(cols, i) {
            match reader.read(f.as_str()) {
                Some(d) => {
                    proof {
                        crate::dates::lemma_read_ok(*reader, f@);
                    }
                    out.push(iso_string(&d));
                },
                None => {
                    out.push(f.clone());
                    bad = true;
                },
            }
        } else {
            out.push(f.clone());
        }
        i += 1;
    }
    (out, bad)
}

/// Writes the selected fields of `row` that hold ISO dates with the
/// format pieces; other fields stay as they are.
pub fn date_format_row(format_list: &Vec<FmtEntry>, cols: &Option<Vec<usize>>, row: &Vec<String>) -> (r:
    Vec<String>)
    ensures
        r@.len() == row@.len(),
        forall|i: int|
            0 <= i < row@.len() ==> #[trigger] r@[i]@ == (if col_selected(cols_view(cols), i) {
                spec_format_date(row@[i]@, entries_view(format_list@))
            } else {
                row@[i]@
            }),
{
    let mut out: Vec<String> = Vec::new();
    let mut i: usize = 0;
    while i < row.len()
        invariant
            i <= row@.len(),
            out@.len() == i,
            forall|j: int|
                0 <= j < i ==> #[trigger] out@[j]@ == (if col_selected(cols_view(cols), j) {
                    spec_format_date(row@[j]@, entries_view(format_list@))
                } else {
                    row@[j]@
                }),
        decreases row@.len() - i,
    {
        let f = &row[i];
        if is_selected(cols, i) {
            out.push(format_date(f.as_str(), format_list));
        } else {
            out.push(f.clone());
        }
        i += 1;
    }
    out
}


proof fn lemma_split_no_sep(s: Seq<char>, t: Seq<char>, c: char)
    requires
        forall|i: int| 0 <= i < t.len() ==> t[i] != c,
    ensures
        split_seq(s + t, c) == split_seq(s, c).update(
            split_seq(s, c).len() - 1,
            split_seq(s, c).last() + t,
        ),
        split_seq(s + t, c).len() == split_seq(s, c).len(),
    decreases t.len(),
{
    crate::text::lemma_split_nonempty(s, c);
    if t.len() == 0 {
        assert(s + t =~= s);
        assert(split_seq(s, c).last() + t =~= split_seq(s, c).last());
        assert(split_seq(s, c).update(split_seq(s, c).len() - 1, split_seq(s, c).last())
            =~= split_seq(s, c));
    } else {
        let t0 = t.drop_last();
        lemma_split_no_sep(s, t0, c);
        assert((s + t).drop_last() =~= s + t0);
        assert((s + t).last() == t.last());
        let r = split_seq(s, c);
        assert(split_seq(s + t, c) =~= r.update(r.len() - 1, r.last() + t0).update(
            r.len() - 1,
            (r.last() + t0).push(t.last()),
        ));
        assert((r.last() + t0).push(t.last()) =~= r.last() + t);
        assert(r.update(r.len() - 1, r.last() + t0).update(r.len() - 1, r.last() + t) =~= r.update(
            r.len() - 1,
            r.last() + t,
        ));
    }
}

proof fn lemma_two_digits_parse(n: nat)
    requires
        n < 100,
    ensures
        spec_parse_i32(two_digits(n)) == Some(n as i32),
        all_digits(two_digits(n)),
{
    if n < 10 {
        lemma_dec_value(n);
        let s = two_digits(n);
        assert(s =~= seq!['0', dec_string(n)[0]]);
        assert(s.drop_last() =~= seq!['0']);
        assert(seq!['0'].drop_last() =~= Seq::<char>::empty());
        assert(seq!['0'].last() == '0');
        assert(dec_value(Seq::<char>::empty()) == 0);
        assert(crate::num::digit_value('0') == 0);
        assert(dec_value(seq!['0']) == 0);
        assert(dec_value(dec_string(n)) == dec_value(seq![dec_string(n)[0]]));
        assert(seq![dec_string(n)[0]].drop_last() =~= Seq::<char>::empty());
        assert(dec_value(s) == n);
        assert(all_digits(s));
    } else {
        lemma_parse_dec_small(n);
        lemma_dec_value(n);
    }
}

/// Reading back an ISO date: the text `yyyy-mm-dd` that [`iso_string`]
/// writes for a date of the years 1900 to 3000 is read by
/// [`parse_iso_date`] as that same date.
pub proof fn lemma_iso_roundtrip(d: Date)
    requires
        date_ok(d),
    ensures
        spec_parse_iso(iso_text(d)) == Some(d),
{
    let y = dec_string(d.year as nat);
    let m = two_digits(d.month as nat);
    let dd = two_digits(d.day as nat);
    lemma_dec_value(d.year as nat);
    lemma_parse_dec_small(d.year as nat);
    lemma_two_digits_parse(d.month as nat);
    lemma_two_digits_parse(d.day as nat);
    assert forall|i: int| 0 <= i < y.len() implies y[i] != '-' by {
        assert(crate::num::is_digit(y[i]));
    }
    assert forall|i: int| 0 <= i < m.len() implies m[i] != '-' by {
        assert(crate::num::is_digit(m[i]));
    }
    assert forall|i: int| 0 <= i < dd.len() implies dd[i] != '-' by {
        assert(crate::num::is_digit(dd[i]));
    }
    let e = Seq::<char>::empty();
    lemma_split_no_sep(e, y, '-');
    assert(split_seq(e, '-') =~= seq![e]);
    assert(e + y =~= y);
    assert(split_seq(y, '-') =~= seq![y]);
    let a = y.push('-');
    assert(a.drop_last() =~= y);
    assert(split_seq(a, '-') =~= seq![y, e]);
    lemma_split_no_sep(a, m, '-');
    assert(split_seq(a + m, '-') =~= seq![y, m]);
    let b = (a + m).push('-');
    assert(b.drop_last() =~= a + m);
    assert(split_seq(b, '-') =~= seq![y, m, e]);
    lemma_split_no_sep(b, dd, '-');
    assert(split_seq(b + dd, '-') =~= seq![y, m, dd]);
    assert(iso_text(d) =~= b + dd);
}


/// The short name of each month is the first three letters of its full
/// name.
proof fn lemma_short_month(m: int)
    requires
        1 <= m <= 12,
    ensures
        short_month(m) == long_month(m).take(3),
        short_month(m).len() == 3,
{
    reveal_strlit("January");
    reveal_strlit("Jan");
    reveal_strlit("February");
    reveal_strlit("Feb");
    reveal_strlit("March");
    reveal_strlit("Mar");
    reveal_strlit("April");
    reveal_strlit("Apr");
    reveal_strlit("May");
    reveal_strlit("May");
    reveal_strlit("June");
    reveal_strlit("Jun");
    reveal_strlit("July");
    reveal_strlit("Jul");
    reveal_strlit("August");
    reveal_strlit("Aug");
    reveal_strlit("September");
    reveal_strlit("Sep");
    reveal_strlit("October");
    reveal_strlit("Oct");
    reveal_strlit("November");
    reveal_strlit("Nov");
    reveal_strlit("December");
    reveal_strlit("Dec");
    assert(short_month(m) =~= long_month(m).take(3));
}

/// The format piece `mmm` writes the three-letter abbreviation of the
/// date's month: the first three letters of the full name that `M`
/// writes.
pub proof fn lemma_month_pieces(d: Date)
    requires
        date_ok(d),
    ensures
        entry_text("M"@, d) == Some(long_month(d.month as int)),
        entry_text("mmm"@, d) matches Some(t) && t.len() == 3 && t == long_month(d.month as int).take(3),
{
    reveal_strlit("M");
    reveal_strlit("mmm");
    lemma_short_month(d.month as int);
    assert("M"@ =~= seq!['M']);
    assert("mmm"@ =~= seq!['m', 'm', 'm']);
    assert(("M"@)[0] == 'M');
    assert(("mmm"@)[0] == 'm');
    assert(!run_of("M"@, 'd', 1));
    assert(!run_of("M"@, 'm', 1));
    assert(run_of("M"@, 'M', 1));
    assert(!run_of("mmm"@, 'd', 1));
    assert(!run_of("mmm"@, 'd', 2));
    assert(!run_of("mmm"@, 'm', 1));
    assert(!run_of("mmm"@, 'm', 2));
    assert(run_of("mmm"@, 'm', 3));
}


/// The short name of each day of the week is the first three letters of
/// its full name.
proof fn lemma_short_day(w: int)
    requires
        0 <= w < 7,
    ensures
        short_day(w) == long_day(w).take(3),
        short_day(w).len() == 3,
{
    reveal_strlit("Sunday");
    reveal_strlit("Sun");
    reveal_strlit("Monday");
    reveal_strlit("Mon");
    reveal_strlit("Tuesday");
    reveal_strlit("Tue");
    reveal_strlit("Wedneday");
    reveal_strlit("Wed");
    reveal_strlit("Thursday");
    reveal_strlit("Thu");
    reveal_strlit("Friday");
    reveal_strlit("Fri");
    reveal_strlit("Saturday");
    reveal_strlit("Sat");
    assert(short_day(w) =~= long_day(w).take(3));
}

/// A number below 100 has one or two decimal digits.
proof fn lemma_two_digit_len(n: nat)
    requires
        n < 100,
    ensures
        two_digits(n).len() == 2,
        n < 10 ==> dec_string(n).len() == 1,
        n >= 10 ==> dec_string(n).len() == 2,
{
    if n >= 10 {
        assert(dec_string(n) == dec_string(n / 10).push(crate::num::digit_char(n % 10)));
        assert(n / 10 < 10);
    }
}

/// The two-letter pieces write the day and month with two digits: the one
/// letter piece's number, with a leading `0` below 10; `w` writes the
/// first three letters of the day name that `W` writes; `y` and `yyyy`
/// both write the year.
pub proof fn lemma_padded_pieces(d: Date)
    requires
        date_ok(d),
    ensures
        entry_text("d"@, d) == Some(dec_string(d.day as nat)),
        entry_text("m"@, d) == Some(dec_string(d.month as nat)),
        entry_text("dd"@, d) matches Some(t) && t.len() == 2 && t == (if d.day < 10 {
            seq!['0'] + dec_string(d.day as nat)
        } else {
            dec_string(d.day as nat)
        }),
        entry_text("mm"@, d) matches Some(t) && t.len() == 2 && t == (if d.month < 10 {
            seq!['0'] + dec_string(d.month as nat)
        } else {
            dec_string(d.month as nat)
        }),
        entry_text("y"@, d) == entry_text("yyyy"@, d),
        entry_text("y"@, d) == Some(int_string(d.year as int)),
        entry_text("w"@, d) matches Some(t) && t.len() == 3 && t == entry_text("W"@, d)->0.take(3),
{
    reveal_strlit("d");
    reveal_strlit("m");
    reveal_strlit("dd");
    reveal_strlit("mm");
    reveal_strlit("y");
    reveal_strlit("yyyy");
    reveal_strlit("w");
    reveal_strlit("W");
    assert("d"@ =~= seq!['d']);
    assert("m"@ =~= seq!['m']);
    assert("dd"@ =~= seq!['d', 'd']);
    assert("mm"@ =~= seq!['m', 'm']);
    assert("y"@ =~= seq!['y']);
    assert("yyyy"@ =~= seq!['y', 'y', 'y', 'y']);
    assert("w"@ =~= seq!['w']);
    assert("W"@ =~= seq!['W']);
    assert(("m"@)[0] == 'm' && ("y"@)[0] == 'y' && ("w"@)[0] == 'w' && ("W"@)[0] == 'W' && ("d"@)[0] == 'd');
    assert(("mm"@)[0] == 'm' && ("yyyy"@)[0] == 'y' && ("dd"@)[0] == 'd');
    assert(run_of("d"@, 'd', 1));
    assert(!run_of("m"@, 'd', 1) && !run_of("m"@, 'd', 2) && run_of("m"@, 'm', 1));
    assert(!run_of("dd"@, 'd', 1) && run_of("dd"@, 'd', 2));
    assert(!run_of("mm"@, 'd', 1) && !run_of("mm"@, 'd', 2) && !run_of("mm"@, 'm', 1) && run_of("mm"@, 'm', 2));
    assert(!run_of("y"@, 'd', 1) && !run_of("y"@, 'd', 2) && !run_of("y"@, 'm', 1) && !run_of("y"@, 'm', 2));
    assert(!run_of("y"@, 'm', 3) && !run_of("y"@, 'M', 1) && run_of("y"@, 'y', 1));
    assert(!run_of("yyyy"@, 'd', 1) && !run_of("yyyy"@, 'd', 2) && !run_of("yyyy"@, 'm', 1));
    assert(!run_of("yyyy"@, 'm', 2) && !run_of("yyyy"@, 'm', 3) && !run_of("yyyy"@, 'M', 1));
    assert(run_of("yyyy"@, 'y', 4));
    assert(!run_of("W"@, 'd', 1) && !run_of("W"@, 'd', 2) && !run_of("W"@, 'm', 1) && !run_of("W"@, 'm', 2));
    assert(!run_of("W"@, 'm', 3) && !run_of("W"@, 'M', 1) && !run_of("W"@, 'y', 1) && !run_of("W"@, 'y', 4));
    assert(run_of("W"@, 'W', 1));
    assert(!run_of("w"@, 'd', 1) && !run_of("w"@, 'd', 2) && !run_of("w"@, 'm', 1) && !run_of("w"@, 'm', 2));
    assert(!run_of("w"@, 'm', 3) && !run_of("w"@, 'M', 1) && !run_of("w"@, 'y', 1) && !run_of("w"@, 'y', 4));
    assert(!run_of("w"@, 'W', 1) && run_of("w"@, 'w', 1));
    lemma_two_digit_len(d.day as nat);
    lemma_two_digit_len(d.month as nat);
    let w = weekday_of(d.year as int, d.month as int, d.day as int) as int;
    lemma_short_day(w);
}

} // verus!
