//! Fixed-width layout of fields: padding and cutting by byte width, ASCII
//! tables and fixed-width records.
//!
//! Widths count the bytes of a field's UTF-8 encoding, and a field longer
//! than its width is cut to that many bytes; a cut that falls inside a
//! character is refused by `requires`, and [`cut_panics`] tells a caller
//! beforehand.
use vstd::prelude::*;
use vstd::utf8::*;
use vstd::string::*;
use crate::text::{string_push, push_str, sview};
use crate::rows::{contains_index, rows_view, lemma_rows_view_push};

verus! {

/// The number of bytes of the UTF-8 encoding of `s`.
pub open spec fn byte_len(s: Seq<char>) -> int {
    encode_utf8(s).len() as int
}

/// The text of the first `w` bytes of the encoding of `s`.
pub open spec fn byte_prefix(s: Seq<char>, w: int) -> Seq<char> {
    decode_utf8(encode_utf8(s).take(w))
}

/// Whether fitting `s` into `w` bytes needs no cut inside a character:
/// either `s` is shorter, or its first `w` bytes end on a character boundary.
pub open spec fn cut_ok(s: Seq<char>, w: int) -> bool {
    byte_len(s) >= w ==> is_char_boundary(encode_utf8(s), w)
}

/// The encoding of two texts one after the other is their encodings one
/// after the other.
pub proof fn lemma_encode_append(a: Seq<char>, b: Seq<char>)
    ensures
        encode_utf8(a + b) == encode_utf8(a) + encode_utf8(b),
    decreases a.len(),
{
    if a.len() == 0 {
        assert(a + b =~= b);
        assert(encode_utf8(a) + encode_utf8(b) =~= encode_utf8(b));
    } else {
        assert((a + b).drop_first() =~= a.drop_first() + b);
        assert((a + b)[0] == a[0]);
        lemma_encode_append(a.drop_first(), b);
        let e = encode_scalar(a[0] as u32);
        assert(e + (encode_utf8(a.drop_first()) + encode_utf8(b)) =~= e + encode_utf8(a.drop_first())
            + encode_utf8(b));
    }
}

/// A proper prefix of a text takes fewer bytes than the text.
pub proof fn lemma_prefix_bytes(s: Seq<char>, i: int)
    requires
        0 <= i < s.len(),
    ensures
        byte_len(s.take(i)) < byte_len(s),
{
    assert(s =~= s.take(i) + s.skip(i));
    lemma_encode_append(s.take(i), s.skip(i));
    assert(encode_utf8(s.skip(i)).len() >= 1);
}

/// `n` spaces.
pub open spec fn spaces(n: int) -> Seq<char> {
    Seq::new(n as nat, |_i: int| ' ')
}

/// `s` fitted to `w` bytes: cut to its first `w` bytes, or followed by
/// spaces.
pub open spec fn right_padded(s: Seq<char>, w: int) -> Seq<char> {
    if byte_len(s) >= w {
        byte_prefix(s, w)
    } else {
        s + spaces(w - byte_len(s))
    }
}

/// `s` fitted to `w` bytes: cut to its first `w` bytes, or preceded by
/// spaces.
pub open spec fn left_padded(s: Seq<char>, w: int) -> Seq<char> {
    if byte_len(s) >= w {
        byte_prefix(s, w)
    } else {
        spaces(w - byte_len(s)) + s
    }
}

/// `s` fitted to `w` bytes: cut to its first `w` bytes, or centred between
/// spaces, the odd space going to the right.
pub open spec fn centred(s: Seq<char>, w: int) -> Seq<char> {
    if byte_len(s) >= w {
        byte_prefix(s, w)
    } else {
        let d = w - byte_len(s);
        spaces(d / 2) + s + spaces(d - d / 2)
    }
}

/// Appends `n` spaces to `s`.
fn push_spaces(s: &mut String, n: usize)
    ensures
        final(s)@ == old(s)@ + spaces(n as int),
{
    let mut i: usize = 0;
    while i < n
        invariant
            i <= n,
            s@ == old(s)@ + spaces(i as int),
        decreases n - i,
    {
        string_push(s, ' ');
        i += 1;
        assert(s@ =~= old(s)@ + spaces(i as int));
    }
}

/// The first `width` bytes of `s`, as a string.
fn byte_cut(s: &str, width: usize) -> (r: String)
    requires
        is_char_boundary(s.spec_bytes(), width as int),
    ensures
        r@ == byte_prefix(s@, width as int),
{
    let (a, _b) = s.split_at(width);
    let r = a.to_owned();
    proof {
        encode_utf8_decode_utf8(a@);
        assert(a.spec_bytes() =~= encode_utf8(s@).take(width as int));
    }
    r
}

/// Whether fitting `s` into `width` bytes would cut inside a character.
pub fn cut_panics(s: &str, width: usize) -> (b: bool)
    ensures
        b == !cut_ok(s@, width as int),
{
    s.as_bytes().len() >= width && !s.is_char_boundary(width)
}

/// `s` fitted to `width` bytes, padded on the left.
pub fn left_pad_str(s: &str, width: usize) -> (r: String)
    requires
        cut_ok(s@, width as int),
    ensures
        r@ == left_padded(s@, width as int),
{
    let n = s.as_bytes().len();
    if n >= width {
        byte_cut(s, width)
    } else {
        let mut r = String::new();
        push_spaces(&mut r, width - n);
        push_str(&mut r, s);
        r
    }
}

/// `s` fitted to `width` bytes, padded on the right.
pub fn right_pad_str(s: &str, width: usize) -> (r: String)
    requires
        cut_ok(s@, width as int),
    ensures
        r@ == right_padded(s@, width as int),
{
    let n = s.as_bytes().len();
    if n >= width {
        byte_cut(s, width)
    } else {
        let mut r = String::new();
        push_str(&mut r, s);
        push_spaces(&mut r, width - n);
        r
    }
}

/// `s` fitted to `width` bytes, centred.
pub fn centre_align(s: &str, width: usize) -> (r: String)
    requires
        cut_ok(s@, width as int),
    ensures
        r@ == centred(s@, width as int),
{
    let n = s.as_bytes().len();
    if n >= width {
        byte_cut(s, width)
    } else {
        let diff = width - n;
        let left = diff / 2;
        let right = diff - left;
        let mut r = String::new();
        push_spaces(&mut r, left);
        push_str(&mut r, s);
        push_spaces(&mut r, right);
        r
    }
}


/// Fitting a field into a width no smaller than its byte length never cuts
/// inside a character.
proof fn lemma_cut_fits(s: Seq<char>, w: int)
    requires
        byte_len(s) <= w,
    ensures
        cut_ok(s, w),
{
    encode_utf8_valid_utf8(s);
    is_char_boundary_start_end_of_seq(encode_utf8(s));
}

/// The larger of two integers.
pub open spec fn max_int(a: int, b: int) -> int {
    if a >= b {
        a
    } else {
        b
    }
}

/// Column `i` of a row, empty past its end.
pub open spec fn cell(r: Seq<Seq<char>>, i: int) -> Seq<char> {
    if 0 <= i < r.len() {
        r[i]
    } else {
        seq![]
    }
}

/// The width of column `i` once `row` has been added to a table whose
/// column widths were `widths`: the larger of the old width (0 for a new
/// column) and the byte length of the row's field.
pub open spec fn widened_at(widths: Seq<usize>, row: Seq<Seq<char>>, i: int) -> int {
    max_int(
        if i < widths.len() {
            widths[i] as int
        } else {
            0
        },
        byte_len(cell(row, i)),
    )
}

/// No row has more fields than there are columns, and no field is more
/// bytes long than its column is wide.
pub open spec fn table_fits(rows: Seq<Seq<Seq<char>>>, widths: Seq<usize>) -> bool {
    &&& forall|r: int| 0 <= r < rows.len() ==> (#[trigger] rows[r]).len() <= widths.len()
    &&& forall|r: int, i: int|
        0 <= r < rows.len() && 0 <= i < rows[r].len() ==> byte_len(#[trigger] rows[r][i])
            <= widths[i]
}

/// Adding a row and widening the columns as [`widened_at`] says keeps every
/// field within its column.
proof fn lemma_fits_push(
    rows: Seq<Seq<Seq<char>>>,
    w0: Seq<usize>,
    w1: Seq<usize>,
    row: Seq<Seq<char>>,
)
    requires
        table_fits(rows, w0),
        w1.len() == max_int(w0.len() as int, row.len() as int),
        forall|k: int| 0 <= k < w1.len() ==> w1[k] as int == widened_at(w0, row, k),
    ensures
        table_fits(rows.push(row), w1),
{
    assert forall|r: int| 0 <= r < rows.push(row).len() implies (#[trigger] rows.push(row)[r]).len()
        <= w1.len() by {
        if r < rows.len() {
            assert(rows.push(row)[r] == rows[r]);
        }
    }
    assert forall|r: int, i: int|
        0 <= r < rows.push(row).len() && 0 <= i < rows.push(row)[r].len() implies byte_len(
        #[trigger] rows.push(row)[r][i]) <= w1[i] by {
        if r < rows.len() {
            assert(rows.push(row)[r] == rows[r]);
            assert(byte_len(rows[r][i]) <= w0[i]);
            assert(w1[i] as int == widened_at(w0, row, i));
        } else {
            assert(rows.push(row)[r] == row);
            assert(cell(row, i) == row[i]);
            assert(w1[i] as int == widened_at(w0, row, i));
        }
    }
}

/// The rows of an ASCII table and the byte width of each column.
pub struct AsciiTable {
    pub rows: Vec<Vec<String>>,
    pub widths: Vec<usize>,
}

impl AsciiTable {
    /// Every field fits its column (see [`table_fits`]).
    pub open spec fn wf(self) -> bool {
        table_fits(rows_view(self.rows@), self.widths@)
    }

    /// An empty table.
    pub fn new() -> (t: AsciiTable)
        ensures
            t.wf(),
            t.rows@.len() == 0,
            t.widths@.len() == 0,
    {
        AsciiTable { rows: Vec::new(), widths: Vec::new() }
    }

    /// Adds a row, widening the columns that it needs.
    pub fn add_ascii_row(&mut self, row: Vec<String>)
        requires
            old(self).wf(),
        ensures
            final(self).wf(),
            final(self).rows@ == old(self).rows@.push(row),
            final(self).widths@.len() == max_int(old(self).widths@.len() as int, row@.len() as int),
            forall|i: int|
                0 <= i < final(self).widths@.len() ==> final(self).widths@[i] as int == widened_at(
                    old(self).widths@,
                    sview(row@),
                    i,
                ),
    {
        let ghost w0 = self.widths@;
        let n = row.len();
        while self.widths.len() < n
            invariant
                self.rows@ == old(self).rows@,
                w0 == old(self).widths@,
                n == row@.len(),
                self.widths@.len() <= max_int(w0.len() as int, n as int),
                self.widths@.len() >= w0.len(),
                forall|i: int| 0 <= i < w0.len() ==> self.widths@[i] == w0[i],
                forall|i: int| w0.len() <= i < self.widths@.len() ==> self.widths@[i] == 0,
            decreases n - self.widths@.len(),
        {
            self.widths.push(0);
        }
        let ghost w1 = self.widths@;
        assert(w1.len() == max_int(w0.len() as int, n as int));
        let mut i: usize = 0;
        while i < n
            invariant
                self.rows@ == old(self).rows@,
                w0 == old(self).widths@,
                i <= n == row@.len(),
                w1.len() == max_int(w0.len() as int, n as int),
                self.widths@.len() == w1.len(),
                forall|k: int| 0 <= k < w0.len() ==> w1[k] == w0[k],
                forall|k: int| w0.len() <= k < w1.len() ==> w1[k] == 0,
                forall|k: int|
                    0 <= k < i ==> self.widths@[k] as int == widened_at(w0, sview(row@), k),
                forall|k: int| i <= k < w1.len() ==> self.widths@[k] == w1[k],
            decreases n - i,
        {
            let b = row[i].as_str().as_bytes().len();
            assert(sview(row@)[i as int] == row@[i as int]@);
            assert(cell(sview(row@), i as int) == row@[i as int]@);
            assert(b as int == byte_len(row@[i as int]@));
            let ghost before = self.widths@;
            proof {
                assert(before[i as int] == w1[i as int]);
                if (i as int) < w0.len() {
                    assert(w1[i as int] == w0[i as int]);
                } else {
                    assert(w1[i as int] == 0);
                }
            }
            if self.widths[i] < b {
                self.widths.set(i, b);
            }
            assert(self.widths@[i as int] as int == widened_at(w0, sview(row@), i as int));
            assert forall|k: int| 0 <= k < i implies self.widths@[k] == before[k] by {}
            i += 1;
        }
        proof {
            assert forall|k: int| 0 <= k < self.widths@.len() implies self.widths@[k] as int
                == widened_at(w0, sview(row@), k) by {
                if k >= n {
                    assert(cell(sview(row@), k) =~= seq![]);
                    assert(encode_utf8(seq![]) =~= Seq::<u8>::empty());
                }
            }
        }
        let ghost rv = sview(row@);
        proof {
            lemma_fits_push(rows_view(old(self).rows@), w0, self.widths@, rv);
            lemma_rows_view_push(old(self).rows@, row);
        }
        self.rows.push(row);
    }
}

/// The cell text of column `i` of row `r`: centred in a header line, else
/// padded on the left in the columns of `ra`, on the right in the others.
pub open spec fn cell_text(
    r: Seq<Seq<char>>,
    widths: Seq<usize>,
    ra: Seq<usize>,
    header: bool,
    i: int,
) -> Seq<char> {
    if header {
        centred(cell(r, i), widths[i] as int)
    } else if ra.contains(i as usize) {
        left_padded(cell(r, i), widths[i] as int)
    } else {
        right_padded(cell(r, i), widths[i] as int)
    }
}

/// The line of a row over its first `n` columns: `|`, then ` cell |` for
/// each column.
pub open spec fn row_text(
    r: Seq<Seq<char>>,
    widths: Seq<usize>,
    ra: Seq<usize>,
    header: bool,
    n: int,
) -> Seq<char>
    decreases n,
{
    if n <= 0 {
        seq!['|']
    } else {
        row_text(r, widths, ra, header, n - 1) + seq![' '] + cell_text(r, widths, ra, header, n - 1)
            + seq![' ', '|']
    }
}

/// `n` dashes.
pub open spec fn dashes(n: int) -> Seq<char> {
    Seq::new(n as nat, |_i: int| '-')
}

/// The separator line over the first `n` columns: `+`, then `-...-+` for
/// each column, two dashes wider than it.
pub open spec fn sep_text(widths: Seq<usize>, n: int) -> Seq<char>
    decreases n,
{
    if n <= 0 {
        seq!['+']
    } else {
        sep_text(widths, n - 1) + seq!['-'] + dashes(widths[n - 1] as int) + seq!['-', '+']
    }
}

/// The lines of the first `k` rows: each row's line, followed by a
/// separator after the header row and, with `line_sep`, after every row.
pub open spec fn rows_text(
    rows: Seq<Seq<Seq<char>>>,
    widths: Seq<usize>,
    ra: Seq<usize>,
    has_header: bool,
    line_sep: bool,
    k: int,
) -> Seq<Seq<char>>
    decreases k,
{
    if k <= 0 {
        seq![]
    } else {
        let prev = rows_text(rows, widths, ra, has_header, line_sep, k - 1);
        let sep = sep_text(widths, widths.len() as int);
        let header = k - 1 == 0 && has_header;
        let line = row_text(rows[k - 1], widths, ra, header, widths.len() as int);
        if header || line_sep {
            prev + seq![line, sep]
        } else {
            prev.push(line)
        }
    }
}

/// The lines of an ASCII table: nothing for no rows; else the separator
/// followed by a space, the rows' lines, and, without `line_sep`, a closing
/// separator.
pub open spec fn table_text(
    rows: Seq<Seq<Seq<char>>>,
    widths: Seq<usize>,
    ra: Seq<usize>,
    has_header: bool,
    line_sep: bool,
) -> Seq<Seq<char>> {
    if rows.len() == 0 {
        seq![]
    } else {
        let sep = sep_text(widths, widths.len() as int);
        let body = seq![sep.push(' ')] + rows_text(
            rows,
            widths,
            ra,
            has_header,
            line_sep,
            rows.len() as int,
        );
        if line_sep {
            body
        } else {
            body.push(sep)
        }
    }
}

/// The separator line of the given column widths.
fn sep_line(widths: &Vec<usize>) -> (s: String)
    ensures
        s@ == sep_text(widths@, widths@.len() as int),
{
    let mut s = String::new();
    string_push(&mut s, '+');
    let mut i: usize = 0;
    while i < widths.len()
        invariant
            i <= widths@.len(),
            s@ == sep_text(widths@, i as int),
        decreases widths@.len() - i,
    {
        string_push(&mut s, '-');
        let w = widths[i];
        let mut j: usize = 0;
        let ghost s0 = s@;
        while j < w
            invariant
                j <= w,
                s@ == s0 + dashes(j as int),
            decreases w - j,
        {
            string_push(&mut s, '-');
            j += 1;
            assert(s@ =~= s0 + dashes(j as int));
        }
        string_push(&mut s, '-');
        string_push(&mut s, '+');
        i += 1;
        assert(s@ =~= sep_text(widths@, i as int));
    }
    s
}

impl AsciiTable {
    /// The line of row `r` of the table.
    fn row_line(&self, r: usize, ra_cols: &Vec<usize>, header: bool) -> (line: String)
        requires
            self.wf(),
            r < self.rows@.len(),
        ensures
            line@ == row_text(
                sview(self.rows@[r as int]@),
                self.widths@,
                ra_cols@,
                header,
                self.widths@.len() as int,
            ),
    {
        let row = &self.rows[r];
        let ghost rv = sview(row@);
        let empty = String::new();
        let mut line = String::new();
        string_push(&mut line, '|');
        let mut i: usize = 0;
        while i < self.widths.len()
            invariant
                self.wf(),
                r < self.rows@.len(),
                row == self.rows@[r as int],
                rv == sview(row@),
                empty@.len() == 0,
                i <= self.widths@.len(),
                line@ == row_text(rv, self.widths@, ra_cols@, header, i as int),
            decreases self.widths@.len() - i,
        {
            let w = self.widths[i];
            let val: &str = if i < row.len() {
                row[i].as_str()
            } else {
                empty.as_str()
            };
            proof {
                if (i as int) < row@.len() {
                    assert(rv[i as int] == row@[i as int]@);
                    assert(rows_view(self.rows@)[r as int] == rv);
                    assert(byte_len(self.rows@[r as int]@[i as int]@) <= self.widths@[i as int]);
                } else {
                    assert(val@ =~= seq![]);
                    assert(encode_utf8(seq![]) =~= Seq::<u8>::empty());
                }
                assert(val@ == cell(rv, i as int));
                lemma_cut_fits(val@, w as int);
            }
            let text = if header {
                centre_align(val, w)
            } else if contains_index(ra_cols, i) {
                left_pad_str(val, w)
            } else {
                right_pad_str(val, w)
            };
            string_push(&mut line, ' ');
            push_str(&mut line, text.as_str());
            string_push(&mut line, ' ');
            string_push(&mut line, '|');
            i += 1;
            assert(line@ =~= row_text(rv, self.widths@, ra_cols@, header, i as int));
        }
        line
    }

    /// The lines of the table, as `table_text` gives them; `ra_cols` holds
    /// the 0-based columns to pad on the left, `has_header` tells that the
    /// first row is a header to centre.
    pub fn render(&self, ra_cols: &Vec<usize>, has_header: bool, line_sep: bool) -> (lines: Vec<
        String,
    >)
        requires
            self.wf(),
        ensures
            sview(lines@) == table_text(
                rows_view(self.rows@),
                self.widths@,
                ra_cols@,
                has_header,
                line_sep,
            ),
    {
        let ghost rows = rows_view(self.rows@);
        let mut lines: Vec<String> = Vec::new();
        if self.rows.len() == 0 {
            assert(sview(lines@) =~= table_text(rows, self.widths@, ra_cols@, has_header, line_sep));
            return lines;
        }
        let sep = sep_line(&self.widths);
        let mut first = sep.clone();
        string_push(&mut first, ' ');
        lines.push(first);
        let mut k: usize = 0;
        while k < self.rows.len()
            invariant
                self.wf(),
                rows == rows_view(self.rows@),
                sep@ == sep_text(self.widths@, self.widths@.len() as int),
                k <= self.rows@.len(),
                sview(lines@) == seq![sep@.push(' ')] + rows_text(
                    rows,
                    self.widths@,
                    ra_cols@,
                    has_header,
                    line_sep,
                    k as int,
                ),
            decreases self.rows@.len() - k,
        {
            let header = k == 0 && has_header;
            let line = self.row_line(k, ra_cols, header);
            assert(rows[k as int] == sview(self.rows@[k as int]@));
            let ghost before = sview(lines@);
            let ghost lv = line@;
            lines.push(line);
            if header || line_sep {
                lines.push(sep.clone());
                assert(sview(lines@) =~= before + seq![lv, sep@]);
            } else {
                assert(sview(lines@) =~= before.push(lv));
            }
            proof {
                let kk = (k + 1) as int;
                assert(kk - 1 == k);
                assert(rows_text(rows, self.widths@, ra_cols@, has_header, line_sep, kk) == if header
                    || line_sep {
                    rows_text(rows, self.widths@, ra_cols@, has_header, line_sep, k as int) + seq![lv, sep@]
                } else {
                    rows_text(rows, self.widths@, ra_cols@, has_header, line_sep, k as int).push(lv)
                });
            }
            k += 1;
            assert(sview(lines@) =~= seq![sep@.push(' ')] + rows_text(
                rows,
                self.widths@,
                ra_cols@,
                has_header,
                line_sep,
                k as int,
            ));
        }
        if !line_sep {
            lines.push(sep);
        }
        assert(sview(lines@) =~= table_text(rows, self.widths@, ra_cols@, has_header, line_sep));
        lines
    }
}

/// The record line of `row` for fixed-width output: for each `(field,
/// width)` of `specs` (fields counted from 1, empty past the row's end),
/// the field fitted to `width` bytes and padded on the right.
pub open spec fn fixed_line(row: Seq<Seq<char>>, specs: Seq<(usize, usize)>) -> Seq<char>
    decreases specs.len(),
{
    if specs.len() == 0 {
        seq![]
    } else {
        fixed_line(row, specs.drop_last()) + right_padded(
            cell(row, specs.last().0 - 1),
            specs.last().1 as int,
        )
    }
}

/// Whether every field of a fixed-width record fits its width without a
/// cut inside a character.
pub open spec fn fixed_cuts_ok(row: Seq<Seq<char>>, specs: Seq<(usize, usize)>) -> bool {
    forall|k: int| 0 <= k < specs.len() ==> cut_ok(cell(row, (#[trigger] specs[k]).0 - 1), specs[k].1 as int)
}

/// Whether writing `row` as a fixed-width record would cut a field inside a
/// character.
pub fn write_fixed_panics(row: &Vec<String>, specs: &Vec<(usize, usize)>) -> (b: bool)
    requires
        forall|k: int| 0 <= k < specs@.len() ==> (#[trigger] specs@[k]).0 >= 1,
    ensures
        b == !fixed_cuts_ok(sview(row@), specs@),
{
    let ghost rv = sview(row@);
    let empty = String::new();
    let mut k: usize = 0;
    while k < specs.len()
        invariant
            k <= specs@.len(),
            rv == sview(row@),
            empty@.len() == 0,
            forall|j: int| 0 <= j < specs@.len() ==> (#[trigger] specs@[j]).0 >= 1,
            forall|j: int| 0 <= j < k ==> cut_ok(cell(rv, (#[trigger] specs@[j]).0 - 1), specs@[j].1 as int),
        decreases specs@.len() - k,
    {
        let (f, w) = specs[k];
        let val: &str = if f > row.len() {
            empty.as_str()
        } else {
            row[f - 1].as_str()
        };
        proof {
            if f > row@.len() {
                assert(val@ =~= cell(rv, f - 1));
            } else {
                assert(rv[f - 1] == row@[f - 1]@);
            }
        }
        if cut_panics(val, w) {
            return true;
        }
        k += 1;
    }
    false
}

/// The record line of `row` for fixed-width output (see [`fixed_line`]);
/// `specs` holds `(field, width)` pairs, fields counted from 1.
pub fn write_fixed_line(row: &Vec<String>, specs: &Vec<(usize, usize)>) -> (line: String)
    requires
        forall|k: int| 0 <= k < specs@.len() ==> (#[trigger] specs@[k]).0 >= 1,
        fixed_cuts_ok(sview(row@), specs@),
    ensures
        line@ == fixed_line(sview(row@), specs@),
{
    let ghost rv = sview(row@);
    let empty = String::new();
    let mut line = String::new();
    let mut k: usize = 0;
    while k < specs.len()
        invariant
            k <= specs@.len(),
            rv == sview(row@),
            empty@.len() == 0,
            forall|j: int| 0 <= j < specs@.len() ==> (#[trigger] specs@[j]).0 >= 1,
            fixed_cuts_ok(rv, specs@),
            line@ == fixed_line(rv, specs@.take(k as int)),
        decreases specs@.len() - k,
    {
        let (f, w) = specs[k];
        let val: &str = if f > row.len() {
            empty.as_str()
        } else {
            row[f - 1].as_str()
        };
        proof {
            if f > row@.len() {
                assert(val@ =~= cell(rv, f - 1));
            } else {
                assert(rv[f - 1] == row@[f - 1]@);
            }
            assert(cut_ok(cell(rv, specs@[k as int].0 - 1), specs@[k as int].1 as int));
        }
        let padded = right_pad_str(val, w);
        push_str(&mut line, padded.as_str());
        proof {
            let t = specs@.take(k + 1);
            assert(t.drop_last() =~= specs@.take(k as int));
            assert(t.last() == specs@[k as int]);
        }
        k += 1;
    }
    assert(specs@.take(specs@.len() as int) =~= specs@);
    line
}

/// The ruler line of fixed-width output: `123456789 ` eight times.
pub open spec fn ruler_text() -> Seq<char> {
    Seq::new(80, |i: int| if i % 10 == 9 { ' ' } else { ((i % 10) + 49) as char })
}

/// The ruler line of fixed-width output (see [`ruler_text`]).
pub fn fixed_ruler() -> (r: String)
    ensures
        r@ == ruler_text(),
{
    let digits = ['1', '2', '3', '4', '5', '6', '7', '8', '9', ' '];
    let mut r = String::new();
    let mut i: usize = 0;
    while i < 80
        invariant
            i <= 80,
            digits@ == seq!['1', '2', '3', '4', '5', '6', '7', '8', '9', ' '],
            r@ == ruler_text().take(i as int),
        decreases 80 - i,
    {
        let c = digits[i % 10];
        string_push(&mut r, c);
        proof {
            let m = (i % 10) as int;
            assert(ruler_text()[i as int] == c) by {
                assert(0 <= m < 10);
                if m == 9 {
                } else {
                    assert(((m + 49) as char) == digits@[m]);
                }
            }
            assert(r@ =~= ruler_text().take(i + 1));
        }
        i += 1;
    }
    assert(ruler_text().take(80) =~= ruler_text());
    r
}

proof fn lemma_ascii_bytes(s: Seq<char>)
    requires
        is_ascii_chars(s),
    ensures
        byte_len(s) == s.len(),
{
    is_ascii_chars_encode_utf8(s);
}

proof fn lemma_bytes_append(a: Seq<char>, b: Seq<char>)
    ensures
        byte_len(a + b) == byte_len(a) + byte_len(b),
{
    lemma_encode_append(a, b);
}

/// A field no wider than its column is padded to exactly the column's
/// width in bytes, whichever way it is aligned.
proof fn lemma_padded_width(s: Seq<char>, w: int)
    requires
        0 <= byte_len(s) <= w,
    ensures
        byte_len(right_padded(s, w)) == w,
        byte_len(left_padded(s, w)) == w,
        byte_len(centred(s, w)) == w,
{
    if byte_len(s) == w {
        encode_utf8_decode_utf8(s);
        assert(encode_utf8(s).take(w) =~= encode_utf8(s));
    } else {
        let d = w - byte_len(s);
        lemma_ascii_bytes(spaces(d));
        lemma_ascii_bytes(spaces(d / 2));
        lemma_ascii_bytes(spaces(d - d / 2));
        lemma_bytes_append(s, spaces(d));
        lemma_bytes_append(spaces(d), s);
        lemma_bytes_append(spaces(d / 2), s);
        lemma_bytes_append(spaces(d / 2) + s, spaces(d - d / 2));
    }
}

proof fn lemma_row_width(
    r: Seq<Seq<char>>,
    widths: Seq<usize>,
    ra: Seq<usize>,
    header: bool,
    n: int,
)
    requires
        0 <= n <= widths.len(),
        r.len() <= widths.len(),
        forall|i: int| 0 <= i < r.len() ==> byte_len(#[trigger] r[i]) <= widths[i],
    ensures
        byte_len(row_text(r, widths, ra, header, n)) == byte_len(sep_text(widths, n)),
    decreases n,
{
    if n == 0 {
        lemma_ascii_bytes(seq!['|']);
        lemma_ascii_bytes(seq!['+']);
    } else {
        lemma_row_width(r, widths, ra, header, n - 1);
        let c = cell(r, n - 1);
        let w = widths[n - 1] as int;
        assert(byte_len(c) <= w) by {
            if n - 1 >= r.len() {
                assert(c =~= Seq::<char>::empty());
                lemma_ascii_bytes(c);
            }
        }
        lemma_padded_width(c, w);
        let ct = cell_text(r, widths, ra, header, n - 1);
        assert(byte_len(ct) == w);
        let prev = row_text(r, widths, ra, header, n - 1);
        lemma_bytes_append(prev, seq![' ']);
        lemma_bytes_append(prev + seq![' '], ct);
        lemma_bytes_append(prev + seq![' '] + ct, seq![' ', '|']);
        lemma_ascii_bytes(seq![' ']);
        lemma_ascii_bytes(seq![' ', '|']);
        let sp = sep_text(widths, n - 1);
        lemma_ascii_bytes(dashes(w));
        lemma_ascii_bytes(seq!['-']);
        lemma_ascii_bytes(seq!['-', '+']);
        lemma_bytes_append(sp, seq!['-']);
        lemma_bytes_append(sp + seq!['-'], dashes(w));
        lemma_bytes_append(sp + seq!['-'] + dashes(w), seq!['-', '+']);
    }
}

proof fn lemma_rows_width(
    rows: Seq<Seq<Seq<char>>>,
    widths: Seq<usize>,
    ra: Seq<usize>,
    has_header: bool,
    line_sep: bool,
    k: int,
)
    requires
        table_fits(rows, widths),
        0 <= k <= rows.len(),
    ensures
        forall|i: int|
            0 <= i < rows_text(rows, widths, ra, has_header, line_sep, k).len() ==> byte_len(
                #[trigger] rows_text(rows, widths, ra, has_header, line_sep, k)[i],
            ) == byte_len(sep_text(widths, widths.len() as int)),
    decreases k,
{
    if k > 0 {
        lemma_rows_width(rows, widths, ra, has_header, line_sep, k - 1);
        let header = k - 1 == 0 && has_header;
        let r = rows[k - 1];
        assert forall|i: int| 0 <= i < r.len() implies byte_len(#[trigger] r[i]) <= widths[i] by {
            assert(byte_len(rows[k - 1][i]) <= widths[i]);
        }
        lemma_row_width(r, widths, ra, header, widths.len() as int);
        let prev = rows_text(rows, widths, ra, has_header, line_sep, k - 1);
        let cur = rows_text(rows, widths, ra, has_header, line_sep, k);
        assert forall|i: int| 0 <= i < cur.len() implies byte_len(#[trigger] cur[i]) == byte_len(
            sep_text(widths, widths.len() as int),
        ) by {
            if i < prev.len() {
                assert(cur[i] == prev[i]);
            }
        }
    }
}

/// Every line of an ASCII table is as wide, in bytes, as its separator
/// line, the first line (a separator followed by a space) one byte more:
/// the columns line up.
pub proof fn lemma_table_lines_align(
    rows: Seq<Seq<Seq<char>>>,
    widths: Seq<usize>,
    ra: Seq<usize>,
    has_header: bool,
    line_sep: bool,
)
    requires
        table_fits(rows, widths),
    ensures
        forall|i: int|
            0 <= i < table_text(rows, widths, ra, has_header, line_sep).len() ==> byte_len(
                #[trigger] table_text(rows, widths, ra, has_header, line_sep)[i],
            ) == byte_len(sep_text(widths, widths.len() as int)) + if i == 0 {
                1int
            } else {
                0int
            },
{
    if rows.len() > 0 {
        let sep = sep_text(widths, widths.len() as int);
        lemma_rows_width(rows, widths, ra, has_header, line_sep, rows.len() as int);
        lemma_bytes_append(sep, seq![' ']);
        lemma_ascii_bytes(seq![' ']);
        assert(sep.push(' ') =~= sep + seq![' ']);
        let body_rows = rows_text(rows, widths, ra, has_header, line_sep, rows.len() as int);
        let t = table_text(rows, widths, ra, has_header, line_sep);
        assert forall|i: int| 0 <= i < t.len() implies byte_len(#[trigger] t[i]) == byte_len(sep)
            + if i == 0 {
            1int
        } else {
            0int
        } by {
            if i > 0 && i - 1 < body_rows.len() {
                assert(t[i] == body_rows[i - 1]);
            }
        }
    }
}

} // verus!
