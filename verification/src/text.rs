//! Character-level text utilities shared by the commands: conversions between
//! `String` and character vectors, whitespace trimming, splitting, decimal
//! integer parsing and formatting.
use vstd::prelude::*;

verus! {

/// The character sequences of a row of strings.
pub open spec fn sview(row: Seq<String>) -> Seq<Seq<char>> {
    row.map_values(|s: String| s@)
}

/// Appends one character to a `String` (`String::push`).
#[verifier::external_body]
pub(crate) fn string_push(s: &mut String, c: char)
    ensures
        final(s)@ == old(s)@.push(c),
{
    s.push(c);
}

/// The characters of `s`, in order.
pub fn chars_of(s: &str) -> (v: Vec<char>)
    ensures
        v@ == s@,
{
    let mut v: Vec<char> = Vec::new();
    broadcast use vstd::string::group_string_axioms;

    for c in it: s.chars()
        invariant
            it.seq() == s@,
            v@ == it.seq().take(it.index() as int),
    {
        v.push(c);
    }
    v
}

/// The string holding the characters of `cs`.
pub fn string_of(cs: &[char]) -> (s: String)
    ensures
        s@ == cs@,
{
    let mut s = String::new();
    let mut i: usize = 0;
    while i < cs.len()
        invariant
            i <= cs.len(),
            s@ == cs@.take(i as int),
        decreases cs.len() - i,
    {
        string_push(&mut s, cs[i]);
        assert(cs@.take(i + 1) =~= cs@.take(i as int).push(cs[i as int]));
        i += 1;
    }
    assert(cs@.take(cs.len() as int) =~= cs@);
    s
}

/// Appends the characters of `cs[from..to]` to `s`.
pub fn push_chars(s: &mut String, cs: &[char], from: usize, to: usize)
    requires
        from <= to <= cs.len(),
    ensures
        final(s)@ == old(s)@ + cs@.subrange(from as int, to as int),
{
    let mut i: usize = from;
    while i < to
        invariant
            from <= i <= to <= cs.len(),
            s@ == old(s)@ + cs@.subrange(from as int, i as int),
        decreases to - i,
    {
        string_push(s, cs[i]);
        assert(cs@.subrange(from as int, i + 1) =~= cs@.subrange(from as int, i as int).push(
            cs[i as int],
        ));
        i += 1;
    }
}

/// Appends the characters of `t` to `s`.
pub fn push_str(s: &mut String, t: &str)
    ensures
        final(s)@ == old(s)@ + t@,
{
    let cs = chars_of(t);
    push_chars(s, &cs, 0, cs.len());
    assert(cs@.subrange(0, cs@.len() as int) =~= cs@);
}

/// Rust's `char::is_whitespace`: the Unicode `White_Space` property.
pub open spec fn is_ws(c: char) -> bool {
    ||| '\u{9}' <= c <= '\u{d}'
    ||| c == ' '
    ||| c == '\u{85}'
    ||| c == '\u{a0}'
    ||| c == '\u{1680}'
    ||| '\u{2000}' <= c <= '\u{200a}'
    ||| c == '\u{2028}'
    ||| c == '\u{2029}'
    ||| c == '\u{202f}'
    ||| c == '\u{205f}'
    ||| c == '\u{3000}'
}

/// Whether `c` is a whitespace character.
pub fn is_whitespace(c: char) -> (b: bool)
    ensures
        b == is_ws(c),
{
    ('\u{9}' <= c && c <= '\u{d}') || c == ' ' || c == '\u{85}' || c == '\u{a0}' || c
        == '\u{1680}' || ('\u{2000}' <= c && c <= '\u{200a}') || c == '\u{2028}' || c
        == '\u{2029}' || c == '\u{202f}' || c == '\u{205f}' || c == '\u{3000}'
}

/// `s` without its leading whitespace.
pub open spec fn trim_start_seq(s: Seq<char>) -> Seq<char>
    decreases s.len(),
{
    if s.len() > 0 && is_ws(s[0]) {
        trim_start_seq(s.drop_first())
    } else {
        s
    }
}

/// `s` without its trailing whitespace.
pub open spec fn trim_end_seq(s: Seq<char>) -> Seq<char>
    decreases s.len(),
{
    if s.len() > 0 && is_ws(s.last()) {
        trim_end_seq(s.drop_last())
    } else {
        s
    }
}

/// `s` without leading and trailing whitespace.
pub open spec fn trim_seq(s: Seq<char>) -> Seq<char> {
    trim_end_seq(trim_start_seq(s))
}

/// Leading whitespace ends at the returned index.
fn first_non_ws(cs: &[char]) -> (i: usize)
    ensures
        i <= cs.len(),
        trim_start_seq(cs@) == cs@.subrange(i as int, cs@.len() as int),
{
    let mut i: usize = 0;
    assert(cs@.subrange(0, cs@.len() as int) =~= cs@);
    while i < cs.len() && is_whitespace(cs[i])
        invariant
            i <= cs.len(),
            trim_start_seq(cs@) == trim_start_seq(cs@.subrange(i as int, cs@.len() as int)),
        decreases cs.len() - i,
    {
        assert(cs@.subrange(i as int, cs@.len() as int).drop_first() =~= cs@.subrange(
            i + 1,
            cs@.len() as int,
        ));
        i += 1;
    }
    i
}

/// Trailing whitespace of `cs[..to]` starts at the returned index.
fn last_non_ws(cs: &[char], to: usize) -> (j: usize)
    requires
        to <= cs.len(),
    ensures
        j <= to,
        trim_end_seq(cs@.take(to as int)) == cs@.take(j as int),
{
    let mut j: usize = to;
    while j > 0 && is_whitespace(cs[j - 1])
        invariant
            j <= to <= cs.len(),
            trim_end_seq(cs@.take(to as int)) == trim_end_seq(cs@.take(j as int)),
        decreases j,
    {
        assert(cs@.take(j as int).drop_last() =~= cs@.take(j - 1));
        j -= 1;
    }
    j
}

/// `s` with leading and trailing whitespace removed (`str::trim`).
pub fn trim(s: &str) -> (t: String)
    ensures
        t@ == trim_seq(s@),
{
    let cs = chars_of(s);
    let i = first_non_ws(&cs);
    let rest = cs_slice(&cs, i);
    let j = last_non_ws(&rest, rest.len());
    assert(rest@.take(rest@.len() as int) =~= rest@);
    let mut t = String::new();
    push_chars(&mut t, &rest, 0, j);
    assert(rest@.subrange(0, j as int) =~= rest@.take(j as int));
    t
}

/// `s` with leading whitespace removed (`str::trim_start`).
pub fn trim_start(s: &str) -> (t: String)
    ensures
        t@ == trim_start_seq(s@),
{
    let cs = chars_of(s);
    let i = first_non_ws(&cs);
    let mut t = String::new();
    push_chars(&mut t, &cs, i, cs.len());
    t
}

/// `s` with trailing whitespace removed (`str::trim_end`).
pub fn trim_end(s: &str) -> (t: String)
    ensures
        t@ == trim_end_seq(s@),
{
    let cs = chars_of(s);
    let j = last_non_ws(&cs, cs.len());
    assert(cs@.take(cs@.len() as int) =~= cs@);
    let mut t = String::new();
    push_chars(&mut t, &cs, 0, j);
    assert(cs@.subrange(0, j as int) =~= cs@.take(j as int));
    t
}

/// The characters of `cs` from index `i` on.
pub fn cs_slice(cs: &[char], i: usize) -> (r: Vec<char>)
    requires
        i <= cs.len(),
    ensures
        r@ == cs@.subrange(i as int, cs@.len() as int),
{
    let mut r: Vec<char> = Vec::new();
    let mut k: usize = i;
    while k < cs.len()
        invariant
            i <= k <= cs.len(),
            r@ == cs@.subrange(i as int, k as int),
        decreases cs.len() - k,
    {
        r.push(cs[k]);
        assert(cs@.subrange(i as int, k + 1) =~= cs@.subrange(i as int, k as int).push(
            cs[k as int],
        ));
        k += 1;
    }
    r
}

/// The character sequences of a vector of character vectors.
pub open spec fn cview(v: Seq<Vec<char>>) -> Seq<Seq<char>> {
    v.map_values(|x: Vec<char>| x@)
}

/// The pieces of `s` between occurrences of `c` (`str::split` with a
/// character): there is always at least one piece.
pub open spec fn split_seq(s: Seq<char>, c: char) -> Seq<Seq<char>>
    decreases s.len(),
{
    if s.len() == 0 {
        seq![seq![]]
    } else {
        let r = split_seq(s.drop_last(), c);
        if s.last() == c {
            r.push(seq![])
        } else {
            r.update(r.len() - 1, r.last().push(s.last()))
        }
    }
}

pub proof fn lemma_split_nonempty(s: Seq<char>, c: char)
    ensures
        split_seq(s, c).len() >= 1,
    decreases s.len(),
{
    if s.len() > 0 {
        lemma_split_nonempty(s.drop_last(), c);
    }
}

/// The pieces of `cs` between occurrences of `c`.
pub fn split_chars(cs: &[char], c: char) -> (r: Vec<Vec<char>>)
    ensures
        cview(r@) == split_seq(cs@, c),
{
    let mut pieces: Vec<Vec<char>> = Vec::new();
    let mut cur: Vec<char> = Vec::new();
    let mut i: usize = 0;
    while i < cs.len()
        invariant
            i <= cs.len(),
            cview(pieces@).push(cur@) == split_seq(cs@.take(i as int), c),
        decreases cs.len() - i,
    {
        let x = cs[i];
        proof {
            assert(cs@.take(i + 1).drop_last() =~= cs@.take(i as int));
            lemma_split_nonempty(cs@.take(i as int), c);
        }
        let ghost before = cview(pieces@);
        if x == c {
            pieces.push(cur);
            cur = Vec::new();
            assert(cview(pieces@) =~= before.push(old_cur_view(before, cs@.take(i as int), c)));
        } else {
            cur.push(x);
        }
        proof {
            assert(cview(pieces@).push(cur@) =~= split_seq(cs@.take(i + 1), c));
        }
        i += 1;
    }
    assert(cs@.take(cs.len() as int) =~= cs@);
    pieces.push(cur);
    assert(cview(pieces@) =~= split_seq(cs@, c));
    pieces
}

spec fn old_cur_view(before: Seq<Seq<char>>, s: Seq<char>, c: char) -> Seq<char> {
    split_seq(s, c).last()
}

/// The pieces of `s` between occurrences of `c`, as strings.
pub fn split_str(s: &str, c: char) -> (r: Vec<String>)
    ensures
        sview(r@) == split_seq(s@, c),
{
    let cs = chars_of(s);
    let pieces = split_chars(&cs, c);
    let mut r: Vec<String> = Vec::new();
    let mut i: usize = 0;
    while i < pieces.len()
        invariant
            i <= pieces.len(),
            cview(pieces@) == split_seq(s@, c),
            sview(r@) == cview(pieces@).take(i as int),
        decreases pieces.len() - i,
    {
        let piece = string_of(pieces[i].as_slice());
        assert(piece@ == pieces@[i as int]@);
        let ghost prev = r@;
        r.push(piece);
        assert(r@ == prev.push(piece));
        assert(cview(pieces@).len() == pieces@.len());
        assert(sview(prev).len() == prev.len());
        assert(sview(prev).len() == i);
        assert(prev.len() == i);
        assert(r@.len() == i + 1);
        assert(sview(r@).len() == i + 1);
        assert(r@[i as int] == piece);
        assert(sview(r@)[i as int] == piece@);
        assert(sview(r@)[i as int] == cview(pieces@)[i as int]);
        assert(sview(r@) =~= cview(pieces@).take(i + 1));
        i += 1;
    }
    assert(cview(pieces@).take(pieces.len() as int) =~= cview(pieces@));
    r
}

/// Whether `cs` holds `c`.
pub fn has_char(cs: &[char], c: char) -> (b: bool)
    ensures
        b == cs@.contains(c),
{
    let mut k: usize = 0;
    while k < cs.len()
        invariant
            k <= cs.len(),
            forall|j: int| 0 <= j < k ==> cs@[j] != c,
        decreases cs.len() - k,
    {
        if cs[k] == c {
            return true;
        }
        k += 1;
    }
    false
}

/// A string holding the characters of the literal `lit`.
pub fn lit(t: &str) -> (s: String)
    ensures
        s@ == t@,
{
    let mut s = String::new();
    push_str(&mut s, t);
    s
}

/// What `str::to_uppercase` gives for `s`.
pub uninterp spec fn unicode_upper(s: Seq<char>) -> Seq<char>;

/// What `str::to_lowercase` gives for `s`.
pub uninterp spec fn unicode_lower(s: Seq<char>) -> Seq<char>;

/// The upper case of `s`: on ASCII text each small letter made a capital,
/// otherwise as `str::to_uppercase` gives it.
pub open spec fn upper_text(s: Seq<char>) -> Seq<char> {
    if all_ascii(s) {
        s.map_values(|c: char| crate::rowops::ascii_upper(c))
    } else {
        unicode_upper(s)
    }
}

/// The lower case of `s`: on ASCII text each capital made a small letter,
/// otherwise as `str::to_lowercase` gives it.
pub open spec fn lower_text(s: Seq<char>) -> Seq<char> {
    if all_ascii(s) {
        s.map_values(|c: char| crate::reshape::lower_char(c))
    } else {
        unicode_lower(s)
    }
}

/// All characters of `s` are ASCII.
pub open spec fn all_ascii(s: Seq<char>) -> bool {
    forall|i: int| 0 <= i < s.len() ==> s[i] <= '\x7f'
}

/// `str::to_uppercase`: the Unicode upper case of `s`; on ASCII text each
/// small letter becomes its capital and nothing else changes.
#[verifier::external_body]
pub(crate) fn to_upper(s: &str) -> (r: String)
    ensures
        r@ == unicode_upper(s@),
        all_ascii(s@) ==> r@ == s@.map_values(|c: char| crate::rowops::ascii_upper(c)),
{
    s.to_uppercase()
}

/// `str::to_lowercase`: the Unicode lower case of `s`; on ASCII text each
/// capital becomes its small letter and nothing else changes.
#[verifier::external_body]
pub(crate) fn to_lower(s: &str) -> (r: String)
    ensures
        r@ == unicode_lower(s@),
        all_ascii(s@) ==> r@ == s@.map_values(|c: char| crate::reshape::lower_char(c)),
{
    s.to_lowercase()
}

} // verus!
