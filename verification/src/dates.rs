//! Calendar dates: reading dates written with a mask such as `d/m/y`,
//! checking them, and writing them in ISO form or with a format such as
//! `dd mmm yyyy`.
use vstd::prelude::*;
use vstd::string::StringSliceAdditionalSpecFns;
use crate::num::{spec_parse_i32, parse_i32};
use crate::text::{chars_of, string_push, push_str, lit, sview, split_seq, split_str, push_chars};

verus! {

/// A leap year of the Gregorian calendar.
pub open spec fn spec_is_leap(y: int) -> bool {
    y % 4 == 0 && (y % 100 != 0 || y % 400 == 0)
}

/// The number of days of month `m` (1 to 12) of year `y`.
pub open spec fn month_days(y: int, m: int) -> int {
    if m == 2 {
        if spec_is_leap(y) {
            29
        } else {
            28
        }
    } else if m == 4 || m == 6 || m == 9 || m == 11 {
        30
    } else {
        31
    }
}

/// A date of the years 1900 to 3000.
pub open spec fn spec_valid_date(y: int, m: int, d: int) -> bool {
    &&& 1900 <= y <= 3000
    &&& 1 <= m <= 12
    &&& 1 <= d <= month_days(y, m)
}

/// Whether `y` is a leap year.
pub fn is_leap_year(y: i32) -> (b: bool)
    ensures
        b == spec_is_leap(y as int),
{
    (y % 4 == 0) && (y % 100 != 0 || y % 400 == 0)
}

/// Whether `y`, `m`, `d` is a date of the years 1900 to 3000.
pub fn validate_date(y: i32, m: i32, d: i32) -> (b: bool)
    ensures
        b == spec_valid_date(y as int, m as int, d as int),
{
    if y < 1900 || y > 3000 {
        return false;
    }
    if m < 1 || m > 12 {
        return false;
    }
    let mut limit: i32 = if m == 4 || m == 6 || m == 9 || m == 11 {
        30
    } else {
        31
    };
    if m == 2 {
        limit = if is_leap_year(y) {
            29
        } else {
            28
        };
    }
    d >= 1 && d <= limit
}

/// The dates that the `chrono` crate can represent: a real calendar date of
/// a year from -262143 to 262142.
pub open spec fn chrono_valid(y: int, m: int, d: int) -> bool {
    &&& -262143 <= y <= 262142
    &&& 1 <= m <= 12
    &&& 1 <= d <= month_days(y, m)
}

/// `NaiveDate::from_ymd_opt(y, m, d).is_some()`: the calendar date exists
/// and its year is in the range of `chrono`.
#[verifier::external_body]
pub(crate) fn chrono_date_exists(y: i32, m: u32, d: u32) -> (b: bool)
    ensures
        b == chrono_valid(y as int, m as int, d as int),
{
    chrono::NaiveDate::from_ymd_opt(y, m, d).is_some()
}

/// The days of the months of year `y` before month `m`.
pub open spec fn days_before_month(y: int, m: int) -> int
    decreases m,
{
    if m <= 1 {
        0
    } else {
        days_before_month(y, m - 1) + month_days(y, m - 1)
    }
}

/// The days from 1 January of year 1 to the date, in the Gregorian
/// calendar carried back before its start (year 0 and those before it
/// counted as the years before year 1).
pub open spec fn days_from_epoch(y: int, m: int, d: int) -> int {
    let p = y - 1;
    365 * p + p / 4 - p / 100 + p / 400 + days_before_month(y, m) + d - 1
}

/// The day of the week of a date, from 0 (Sunday) to 6; 1 January of
/// year 1 was a Monday.
pub open spec fn weekday_of(y: int, m: int, d: int) -> nat {
    ((days_from_epoch(y, m, d) + 1) % 7) as nat
}

/// `Datelike::weekday` of the date, then `Weekday::num_days_from_sunday`:
/// `chrono` dates follow the Gregorian calendar, carried back before its
/// start.
#[verifier::external_body]
pub(crate) fn weekday_from_sunday(y: i32, m: u32, d: u32) -> (w: u32)
    requires
        chrono_valid(y as int, m as int, d as int),
    ensures
        w == weekday_of(y as int, m as int, d as int),
        w < 7,
{
    let date = chrono::NaiveDate::from_ymd_opt(y, m, d).unwrap();
    chrono::Datelike::weekday(&date).num_days_from_sunday()
}

/// A calendar date.
#[derive(PartialEq, Eq, Structural, Clone, Copy, Debug)]
pub struct Date {
    pub year: i32,
    pub month: u32,
    pub day: u32,
}

/// Whether `c` is alphabetic or numeric (`char::is_alphanumeric`).
pub uninterp spec fn unicode_alphanumeric(c: char) -> bool;

/// Whether `c` is alphabetic (`char::is_alphabetic`).
pub uninterp spec fn unicode_alphabetic(c: char) -> bool;

/// Whether `c` is alphabetic: for an ASCII character, an ASCII letter;
/// otherwise as `char::is_alphabetic` says.
pub open spec fn alphabetic(c: char) -> bool {
    if c <= '\u{7f}' {
        crate::split::is_alpha(c)
    } else {
        unicode_alphabetic(c)
    }
}

/// `char::is_alphabetic`: for an ASCII character, a letter.
#[verifier::external_body]
pub(crate) fn is_alphabetic(c: char) -> (b: bool)
    ensures
        b == unicode_alphabetic(c),
        c <= '\u{7f}' ==> b == crate::split::is_alpha(c),
{
    c.is_alphabetic()
}

/// Whether `c` is alphabetic or numeric: for an ASCII character, an ASCII
/// letter or digit; otherwise as `char::is_alphanumeric` says.
pub open spec fn alphanumeric(c: char) -> bool {
    if c <= '\u{7f}' {
        crate::num::is_digit(c) || crate::split::is_alpha(c)
    } else {
        unicode_alphanumeric(c)
    }
}

/// `char::is_alphanumeric`: for an ASCII character, a letter or a digit.
#[verifier::external_body]
pub(crate) fn is_alphanumeric(c: char) -> (b: bool)
    ensures
        b == unicode_alphanumeric(c),
        c <= '\u{7f}' ==> b == (crate::num::is_digit(c) || crate::split::is_alpha(c)),
{
    c.is_alphanumeric()
}

/// Reads dates written as three parts with two separators, in the order
/// that a mask such as `d/m/y` gives.
pub struct MaskedDateReader {
    /// The order of day (`d`), month (`m`) and year (`y`).
    pub dmy: [char; 3],
    /// The two separators.
    pub sep: [String; 2],
    /// Two-digit years below `year_base - 1900` are in the 2000s, others in the 1900s.
    pub year_base: i32,
    /// The twelve month names, which a month part may abbreviate.
    pub month_names: Vec<String>,
}

/// `dmy` holds the letters `d`, `m` and `y`, each once.
pub open spec fn is_dmy_order(dmy: Seq<char>) -> bool {
    &&& dmy.len() == 3
    &&& forall|i: int| 0 <= i < 3 ==> (dmy[i] == 'd' || dmy[i] == 'm' || dmy[i] == 'y')
    &&& dmy[0] != dmy[1] && dmy[0] != dmy[2] && dmy[1] != dmy[2]
}

/// The English month names.
pub open spec fn default_months() -> Seq<Seq<char>> {
    split_seq(
        "January,February,March,April,May,June,July,August,September,October,November,December"@,
        ',',
    )
}

/// The reader that the mask `mask`, the month list `months` and the year
/// base `ybase` describe, or the first error in them.
pub open spec fn spec_new_reader(mask: Seq<char>, mask_bytes: nat, months: Seq<char>, ybase: i32) -> Result<
    (Seq<char>, Seq<Seq<char>>, Seq<Seq<char>>),
    Seq<char>,
> {
    if mask_bytes != 5 {
        Err("Invalid date mask: "@ + mask)
    } else if !(mask[0] == 'd' || mask[0] == 'm' || mask[0] == 'y') {
        Err("Invalid character in date mask: "@ + seq![mask[0]])
    } else if !(mask[2] == 'd' || mask[2] == 'm' || mask[2] == 'y') {
        Err("Invalid character in date mask: "@ + seq![mask[2]])
    } else if !(mask[4] == 'd' || mask[4] == 'm' || mask[4] == 'y') {
        Err("Invalid character in date mask: "@ + seq![mask[4]])
    } else if alphanumeric(mask[1]) || alphanumeric(mask[3]) {
        Err("Invalid separator in date mask: "@ + mask)
    } else if mask[0] as int + mask[2] as int + mask[4] as int != 'd' as int + 'm' as int + 'y' as int {
        Err("Invalid date mask: "@ + mask)
    } else {
        let names = if months.len() == 0 {
            default_months()
        } else {
            split_seq(months, ',')
        };
        if names.len() != 12 {
            Err("Invalid month list: "@ + months)
        } else {
            Ok((seq![mask[0], mask[2], mask[4]], seq![seq![mask[1]], seq![mask[3]]], names))
        }
    }
}

impl MaskedDateReader {
    /// The reader's order, separators and month names.
    pub open spec fn parts(&self) -> (Seq<char>, Seq<Seq<char>>, Seq<Seq<char>>) {
        (self.dmy@, seq![self.sep[0]@, self.sep[1]@], sview(self.month_names@))
    }

    /// A reader that a mask describes: each separator is one character.
    pub open spec fn wf(&self) -> bool {
        &&& self.sep[0]@.len() == 1
        &&& self.sep[1]@.len() == 1
        &&& is_dmy_order(self.dmy@)
        &&& self.month_names@.len() == 12
    }

    /// The reader for the mask `mask` (day, month, year letters in some
    /// order with a separator between them, such as `d/m/y`), the
    /// comma-separated month names `months` (English names when empty) and
    /// the year base `ybase`.
    pub fn new(mask: &str, months: &str, ybase: i32) -> (r: Result<Self, String>)
        requires
            mask.spec_bytes().len() == 5 ==> mask@.len() == 5,
        ensures
            match spec_new_reader(mask@, mask.spec_bytes().len(), months@, ybase) {
                Ok(p) => r matches Ok(m) && m.parts() == p && m.year_base == ybase && m.wf(),
                Err(e) => r matches Err(x) && x@ == e,
            },
    {
        if mask.as_bytes().len() != 5 {
            let mut m = lit("Invalid date mask: ");
            push_str(&mut m, mask);
            return Err(m);
        }
        let chars = chars_of(mask);
        let c0 = chars[0];
        let c2 = chars[2];
        let c4 = chars[4];
        if !(c0 == 'd' || c0 == 'm' || c0 == 'y') {
            let mut m = lit("Invalid character in date mask: ");
            string_push(&mut m, c0);
            return Err(m);
        }
        if !(c2 == 'd' || c2 == 'm' || c2 == 'y') {
            let mut m = lit("Invalid character in date mask: ");
            string_push(&mut m, c2);
            return Err(m);
        }
        if !(c4 == 'd' || c4 == 'm' || c4 == 'y') {
            let mut m = lit("Invalid character in date mask: ");
            string_push(&mut m, c4);
            return Err(m);
        }
        if is_alphanumeric(chars[1]) || is_alphanumeric(chars[3]) {
            let mut m = lit("Invalid separator in date mask: ");
            push_str(&mut m, mask);
            return Err(m);
        }
        if (c0 as u32) + (c2 as u32) + (c4 as u32) != ('d' as u32) + ('m' as u32) + ('y' as u32) {
            let mut m = lit("Invalid date mask: ");
            push_str(&mut m, mask);
            return Err(m);
        }
        let month_list = if months.is_empty() {
            split_str(
                "January,February,March,April,May,June,July,August,September,October,November,December",
                ',',
            )
        } else {
            split_str(months, ',')
        };
        if month_list.len() != 12 {
            let mut m = lit("Invalid month list: ");
            push_str(&mut m, months);
            return Err(m);
        }
        let mut s1 = String::new();
        string_push(&mut s1, chars[1]);
        let mut s3 = String::new();
        string_push(&mut s3, chars[3]);
        let r = MaskedDateReader {
            dmy: [c0, c2, c4],
            sep: [s1, s3],
            year_base: ybase,
            month_names: month_list,
        };
        assert(r.dmy@ =~= seq![c0, c2, c4]);
        assert(is_dmy_order(r.dmy@)) by {
            assert(c0 != c2 && c0 != c4 && c2 != c4) by {
                assert((c0 as u32) + (c2 as u32) + (c4 as u32) == 330);
            }
        }
        assert(r.parts().1 =~= seq![seq![chars@[1]], seq![chars@[3]]]);
        Ok(r)
    }
}


/// The index of the first `c` in `s` at or after `i`, or -1.
pub open spec fn index_from(s: Seq<char>, c: char, i: int) -> int
    decreases s.len() - i,
{
    if i < 0 || i >= s.len() {
        -1
    } else if s[i] == c {
        i
    } else {
        index_from(s, c, i + 1)
    }
}

/// The index of the last `c` in `s` before `j`, or -1.
pub open spec fn index_before(s: Seq<char>, c: char, j: int) -> int
    decreases j,
{
    if j <= 0 || j > s.len() {
        -1
    } else if s[j - 1] == c {
        j - 1
    } else {
        index_before(s, c, j - 1)
    }
}

/// `u8::to_ascii_lowercase`.
pub open spec fn ascii_lower(b: u8) -> u8 {
    if 65 <= b <= 90 {
        (b + 32) as u8
    } else {
        b
    }
}

/// The first `s.len()` bytes of `name` equal `s`, ASCII case ignored.
pub open spec fn prefix_eq_ignore_case(name: Seq<u8>, s: Seq<u8>) -> bool {
    &&& name.len() >= s.len()
    &&& forall|k: int| 0 <= k < s.len() ==> ascii_lower(name[k]) == ascii_lower(s[k])
}

/// The index of the first month name, at or after `i`, that `s` abbreviates.
pub open spec fn month_scan(names: Seq<Seq<u8>>, s: Seq<u8>, i: int) -> Option<int>
    decreases names.len() - i,
{
    if i < 0 || i >= names.len() {
        None
    } else if prefix_eq_ignore_case(names[i], s) {
        Some(i)
    } else {
        month_scan(names, s, i + 1)
    }
}

/// Cutting a month name at the length of `s` falls inside a character,
/// for a name that the scan reaches.
pub open spec fn month_scan_panics(names: Seq<Seq<u8>>, s: Seq<u8>, i: int) -> bool
    decreases names.len() - i,
{
    if i < 0 || i >= names.len() {
        false
    } else if names[i].len() >= s.len() && !vstd::utf8::is_char_boundary(names[i], s.len() as int) {
        true
    } else if prefix_eq_ignore_case(names[i], s) {
        false
    } else {
        month_scan_panics(names, s, i + 1)
    }
}

/// The UTF-8 bytes of each name.
pub open spec fn names_bytes(names: Seq<Seq<char>>) -> Seq<Seq<u8>> {
    names.map_values(|n: Seq<char>| vstd::utf8::encode_utf8(n))
}

/// The part of a date that the letter `c` of the mask stands for.
pub open spec fn part_for(dmy: Seq<char>, parts: Seq<Seq<char>>, c: char) -> Seq<char> {
    if dmy[0] == c {
        parts[0]
    } else if dmy[1] == c {
        parts[1]
    } else {
        parts[2]
    }
}

/// The three parts of `ds` around the first `sep0` and the last `sep1`,
/// if both occur and the first comes before the last.
pub open spec fn date_parts(ds: Seq<char>, sep0: char, sep1: char) -> Option<Seq<Seq<char>>> {
    let i1 = index_from(ds, sep0, 0);
    let i2 = index_before(ds, sep1, ds.len() as int);
    if i1 < 0 || i2 < 0 || i1 >= i2 {
        None
    } else {
        Some(seq![ds.subrange(0, i1), ds.subrange(i1 + 1, i2), ds.subrange(i2 + 1, ds.len() as int)])
    }
}

/// The day that a day part gives, or -1.
pub open spec fn day_value(p: Seq<char>) -> int {
    match spec_parse_i32(p) {
        Some(d) => d as int,
        None => -1,
    }
}

/// The month that a month part gives: a number, or an abbreviation of at
/// least three bytes of one of the names; otherwise -1.
pub open spec fn month_value(p: Seq<char>, names: Seq<Seq<char>>) -> int {
    match spec_parse_i32(p) {
        Some(m) => m as int,
        None => if vstd::utf8::encode_utf8(p).len() >= 3 {
            match month_scan(names_bytes(names), vstd::utf8::encode_utf8(p), 0) {
                Some(i) => i + 1,
                None => -1,
            }
        } else {
            -1
        },
    }
}

/// The year that a year part of two or four bytes gives, or -1; a
/// two-digit year below `year_base - 1900` is in the 2000s, any other in
/// the 1900s.
pub open spec fn year_value(p: Seq<char>, year_base: int) -> int {
    let n = vstd::utf8::encode_utf8(p).len();
    if n == 2 || n == 4 {
        match spec_parse_i32(p) {
            Some(y) => if n == 2 {
                if y < year_base - 1900 {
                    y + 2000
                } else {
                    y + 1900
                }
            } else {
                y as int
            },
            None => -1,
        }
    } else {
        -1
    }
}

impl MaskedDateReader {
    /// The first character of each separator.
    pub open spec fn sep_chars(&self) -> (char, char) {
        (self.sep[0]@[0], self.sep[1]@[0])
    }

    /// The date that `ds` holds by this reader's mask, if it is a valid
    /// date of the years 1900 to 3000.
    pub open spec fn spec_read(&self, ds: Seq<char>) -> Option<Date> {
        match date_parts(ds, self.sep_chars().0, self.sep_chars().1) {
            None => None,
            Some(parts) => {
                let d = day_value(part_for(self.dmy@, parts, 'd'));
                let m = month_value(part_for(self.dmy@, parts, 'm'), sview(self.month_names@));
                let y = year_value(part_for(self.dmy@, parts, 'y'), self.year_base as int);
                if spec_valid_date(y, m, d) {
                    Some(Date { year: y as i32, month: m as u32, day: d as u32 })
                } else {
                    None
                }
            },
        }
    }

    /// Reading `ds` would slice a month name inside a character, or the
    /// year base is too small to take 1900 from.
    pub open spec fn read_panics(&self, ds: Seq<char>) -> bool {
        match date_parts(ds, self.sep_chars().0, self.sep_chars().1) {
            None => false,
            Some(parts) => {
                let mp = part_for(self.dmy@, parts, 'm');
                let yp = part_for(self.dmy@, parts, 'y');
                ||| spec_parse_i32(mp) is None && vstd::utf8::encode_utf8(mp).len() >= 3
                    && month_scan_panics(
                    names_bytes(sview(self.month_names@)),
                    vstd::utf8::encode_utf8(mp),
                    0,
                )
                ||| vstd::utf8::encode_utf8(yp).len() == 2 && spec_parse_i32(yp) is Some
                    && self.year_base < i32::MIN + 1900
            },
        }
    }

    /// Reads `ds` as a date by the mask: the part before the first
    /// separator, the part up to the last occurrence of the second
    /// separator, and the rest.
    pub fn read(&self, ds: &str) -> (r: Option<Date>)
        requires
            self.wf(),
            !self.read_panics(ds@),
        ensures
            r == self.spec_read(ds@),
    {
        let chars = chars_of(ds);
        let sep0 = chars_of(self.sep[0].as_str());
        let sep1 = chars_of(self.sep[1].as_str());
        let c1 = sep0[0];
        let c2 = sep1[0];
        let n = chars.len();
        let mut i1: usize = 0;
        while i1 < n && chars[i1] != c1
            invariant
                i1 <= n == chars@.len(),
                chars@ == ds@,
                index_from(ds@, c1, 0) == index_from(ds@, c1, i1 as int),
            decreases n - i1,
        {
            i1 += 1;
        }
        if i1 == n {
            return None;
        }
        let mut i2: usize = n;
        while i2 > 0 && chars[i2 - 1] != c2
            invariant
                i2 <= n == chars@.len(),
                chars@ == ds@,
                index_before(ds@, c2, n as int) == index_before(ds@, c2, i2 as int),
            decreases i2,
        {
            i2 -= 1;
        }
        if i2 == 0 {
            return None;
        }
        let i2 = i2 - 1;
        if i1 >= i2 {
            return None;
        }
        let mut p0 = String::new();
        push_chars(&mut p0, &chars, 0, i1);
        let mut p1 = String::new();
        push_chars(&mut p1, &chars, i1 + 1, i2);
        let mut p2 = String::new();
        push_chars(&mut p2, &chars, i2 + 1, n);
        let ghost parts = seq![p0@, p1@, p2@];
        assert(date_parts(ds@, c1, c2) == Some(parts));
        let pd = if self.dmy[0] == 'd' {
            &p0
        } else if self.dmy[1] == 'd' {
            &p1
        } else {
            &p2
        };
        let pm = if self.dmy[0] == 'm' {
            &p0
        } else if self.dmy[1] == 'm' {
            &p1
        } else {
            &p2
        };
        let py = if self.dmy[0] == 'y' {
            &p0
        } else if self.dmy[1] == 'y' {
            &p1
        } else {
            &p2
        };
        assert(pd@ == part_for(self.dmy@, parts, 'd'));
        assert(pm@ == part_for(self.dmy@, parts, 'm'));
        assert(py@ == part_for(self.dmy@, parts, 'y'));
        let day: i32 = match parse_i32(pd.as_str()) {
            Some(d) => d,
            None => -1,
        };
        let month = self.month_part(pm.as_str());
        let year = self.year_part(py.as_str());
        assert(day == day_value(pd@));
        assert(month == month_value(pm@, sview(self.month_names@)));
        assert(year == year_value(py@, self.year_base as int));
        if validate_date(year, month, day) {
            if chrono_date_exists(year, month as u32, day as u32) {
                Some(Date { year, month: month as u32, day: day as u32 })
            } else {
                None
            }
        } else {
            None
        }
    }

    /// The month that the month part `p` gives.
    fn month_part(&self, p: &str) -> (m: i32)
        requires
            self.wf(),
            !(spec_parse_i32(p@) is None && vstd::utf8::encode_utf8(p@).len() >= 3
                && month_scan_panics(names_bytes(sview(self.month_names@)), vstd::utf8::encode_utf8(p@), 0)),
        ensures
            m == month_value(p@, sview(self.month_names@)),
    {
        match parse_i32(p) {
            Some(m) => m,
            None => {
                if p.as_bytes().len() >= 3 {
                    match self.find_month(p) {
                        Some(i) => (i + 1) as i32,
                        None => -1,
                    }
                } else {
                    -1
                }
            },
        }
    }

    /// The year that the year part `p` gives.
    fn year_part(&self, p: &str) -> (y: i32)
        requires
            !(vstd::utf8::encode_utf8(p@).len() == 2 && spec_parse_i32(p@) is Some && self.year_base
                < i32::MIN + 1900),
        ensures
            y == year_value(p@, self.year_base as int),
    {
        let ylen = p.as_bytes().len();
        if ylen == 2 || ylen == 4 {
            match parse_i32(p) {
                Some(y) => {
                    if ylen == 2 {
                        proof {
                            crate::num::lemma_two_byte_i32(p@);
                        }
                        if y < self.year_base - 1900 {
                            y + 2000
                        } else {
                            y + 1900
                        }
                    } else {
                        y
                    }
                },
                None => -1,
            }
        } else {
            -1
        }
    }

    /// The index of the first month name that `s` abbreviates, bytes
    /// compared with ASCII case ignored.
    fn find_month(&self, s: &str) -> (r: Option<usize>)
        requires
            !month_scan_panics(names_bytes(sview(self.month_names@)), s.spec_bytes(), 0),
        ensures
            r matches Some(i) ==> i < self.month_names@.len(),
            match r {
                Some(i) => month_scan(names_bytes(sview(self.month_names@)), s.spec_bytes(), 0) == Some(i as int),
                None => month_scan(names_bytes(sview(self.month_names@)), s.spec_bytes(), 0) is None,
            },
    {
        let sb = s.as_bytes();
        let ghost names = names_bytes(sview(self.month_names@));
        let mut idx: usize = 0;
        while idx < self.month_names.len()
            invariant
                idx <= self.month_names@.len(),
                names == names_bytes(sview(self.month_names@)),
                names.len() == self.month_names@.len(),
                sb@ == s.spec_bytes(),
                month_scan(names, sb@, 0) == month_scan(names, sb@, idx as int),
            decreases self.month_names@.len() - idx,
        {
            let nb = self.month_names[idx].as_str().as_bytes();
            assert(nb@ == names[idx as int]);
            if nb.len() >= sb.len() {
                let mut k: usize = 0;
                let mut same = true;
                while k < sb.len()
                    invariant
                        k <= sb@.len() <= nb@.len(),
                        same == (forall|j: int| 0 <= j < k ==> ascii_lower(nb@[j]) == ascii_lower(sb@[j])),
                    decreases sb@.len() - k,
                {
                    let a = nb[k];
                    let b = sb[k];
                    let la: u8 = if a >= 65 && a <= 90 { a + 32 } else { a };
                    let lb: u8 = if b >= 65 && b <= 90 { b + 32 } else { b };
                    if la != lb {
                        same = false;
                    }
                    k += 1;
                }
                if same {
                    return Some(idx);
                }
            }
            idx += 1;
        }
        None
    }
}

impl MaskedDateReader {
    fn month_would_panic(&self, s: &str) -> (b: bool)
        ensures
            b == month_scan_panics(names_bytes(sview(self.month_names@)), s.spec_bytes(), 0),
    {
        let sb = s.as_bytes();
        let ghost names = names_bytes(sview(self.month_names@));
        let mut idx: usize = 0;
        while idx < self.month_names.len()
            invariant
                idx <= self.month_names@.len(),
                names == names_bytes(sview(self.month_names@)),
                names.len() == self.month_names@.len(),
                sb@ == s.spec_bytes(),
                month_scan_panics(names, sb@, 0) == month_scan_panics(names, sb@, idx as int),
            decreases self.month_names@.len() - idx,
        {
            let name = self.month_names[idx].as_str();
            let nb = name.as_bytes();
            assert(nb@ == names[idx as int]);
            if nb.len() >= sb.len() {
                if !name.is_char_boundary(sb.len()) {
                    return true;
                }
                let mut k: usize = 0;
                let mut same = true;
                while k < sb.len()
                    invariant
                        k <= sb@.len() <= nb@.len(),
                        same == (forall|j: int| 0 <= j < k ==> ascii_lower(nb@[j]) == ascii_lower(sb@[j])),
                    decreases sb@.len() - k,
                {
                    let a = nb[k];
                    let b = sb[k];
                    let la: u8 = if a >= 65 && a <= 90 { a + 32 } else { a };
                    let lb: u8 = if b >= 65 && b <= 90 { b + 32 } else { b };
                    if la != lb {
                        same = false;
                    }
                    k += 1;
                }
                if same {
                    return false;
                }
            }
            idx += 1;
        }
        false
    }

    /// Whether reading `ds` would slice a month name inside a character or
    /// take 1900 from a year base too small for it.
    pub fn read_would_panic(&self, ds: &str) -> (b: bool)
        requires
            self.wf(),
        ensures
            b == self.read_panics(ds@),
    {
        let chars = chars_of(ds);
        let sep0 = chars_of(self.sep[0].as_str());
        let sep1 = chars_of(self.sep[1].as_str());
        let c1 = sep0[0];
        let c2 = sep1[0];
        let n = chars.len();
        let mut i1: usize = 0;
        while i1 < n && chars[i1] != c1
            invariant
                i1 <= n == chars@.len(),
                chars@ == ds@,
                index_from(ds@, c1, 0) == index_from(ds@, c1, i1 as int),
            decreases n - i1,
        {
            i1 += 1;
        }
        if i1 == n {
            return false;
        }
        let mut i2: usize = n;
        while i2 > 0 && chars[i2 - 1] != c2
            invariant
                i2 <= n == chars@.len(),
                chars@ == ds@,
                index_before(ds@, c2, n as int) == index_before(ds@, c2, i2 as int),
            decreases i2,
        {
            i2 -= 1;
        }
        if i2 == 0 {
            return false;
        }
        let i2 = i2 - 1;
        if i1 >= i2 {
            return false;
        }
        let mut p0 = String::new();
        push_chars(&mut p0, &chars, 0, i1);
        let mut p1 = String::new();
        push_chars(&mut p1, &chars, i1 + 1, i2);
        let mut p2 = String::new();
        push_chars(&mut p2, &chars, i2 + 1, n);
        let ghost parts = seq![p0@, p1@, p2@];
        assert(date_parts(ds@, c1, c2) == Some(parts));
        let pm = if self.dmy[0] == 'm' {
            &p0
        } else if self.dmy[1] == 'm' {
            &p1
        } else {
            &p2
        };
        let py = if self.dmy[0] == 'y' {
            &p0
        } else if self.dmy[1] == 'y' {
            &p1
        } else {
            &p2
        };
        assert(pm@ == part_for(self.dmy@, parts, 'm'));
        assert(py@ == part_for(self.dmy@, parts, 'y'));
        let month_bad = parse_i32(pm.as_str()).is_none() && pm.as_str().as_bytes().len() >= 3
            && self.month_would_panic(pm.as_str());
        let year_bad = py.as_str().as_bytes().len() == 2 && parse_i32(py.as_str()).is_some()
            && self.year_base < i32::MIN + 1900;
        month_bad || year_bad
    }
}

/// A date that the reader gives is a date of the years 1900 to 3000.
pub proof fn lemma_read_ok(reader: MaskedDateReader, ds: Seq<char>)
    requires
        reader.spec_read(ds) is Some,
    ensures
        spec_valid_date(
            reader.spec_read(ds)->0.year as int,
            reader.spec_read(ds)->0.month as int,
            reader.spec_read(ds)->0.day as int,
        ),
{
}

} // verus!
