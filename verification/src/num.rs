//! Decimal integers: parsing with the rules of Rust's `str::parse` for
//! integer types, and formatting.
use vstd::prelude::*;

verus! {

/// An ASCII decimal digit.
pub open spec fn is_digit(c: char) -> bool {
    '0' <= c <= '9'
}

/// Every character of `s` is a decimal digit.
pub open spec fn all_digits(s: Seq<char>) -> bool {
    forall|i: int| 0 <= i < s.len() ==> is_digit(#[trigger] s[i])
}

/// The value of a digit character.
pub open spec fn digit_value(c: char) -> nat {
    (c as int - '0' as int) as nat
}

/// The value of the digit string `s`, read in base ten.
pub open spec fn dec_value(s: Seq<char>) -> nat
    decreases s.len(),
{
    if s.len() == 0 {
        0
    } else {
        dec_value(s.drop_last()) * 10 + digit_value(s.last())
    }
}

/// The integer that `str::parse` reads from `s` for a signed type of
/// unbounded range: an optional `+` or `-`, then one or more digits.
pub open spec fn spec_parse_int(s: Seq<char>) -> Option<int> {
    if s.len() > 0 && (s[0] == '+' || s[0] == '-') {
        let d = s.drop_first();
        if d.len() > 0 && all_digits(d) {
            if s[0] == '-' {
                Some(-(dec_value(d) as int))
            } else {
                Some(dec_value(d) as int)
            }
        } else {
            None
        }
    } else if s.len() > 0 && all_digits(s) {
        Some(dec_value(s) as int)
    } else {
        None
    }
}

/// The integer that `str::parse` reads from `s` for an unsigned type of
/// unbounded range: an optional `+`, then one or more digits.
pub open spec fn spec_parse_nat(s: Seq<char>) -> Option<int> {
    if s.len() > 0 && s[0] == '+' {
        let d = s.drop_first();
        if d.len() > 0 && all_digits(d) {
            Some(dec_value(d) as int)
        } else {
            None
        }
    } else if s.len() > 0 && all_digits(s) {
        Some(dec_value(s) as int)
    } else {
        None
    }
}

/// What `s.parse::<i32>()` gives, as an option.
pub open spec fn spec_parse_i32(s: Seq<char>) -> Option<i32> {
    match spec_parse_int(s) {
        Some(v) => if i32::MIN <= v <= i32::MAX {
            Some(v as i32)
        } else {
            None
        },
        None => None,
    }
}

/// A number that `str::parse` reads from two bytes lies in -9 to 99.
pub proof fn lemma_two_byte_i32(p: Seq<char>)
    requires
        spec_parse_i32(p) is Some,
        vstd::utf8::encode_utf8(p).len() == 2,
    ensures
        -9 <= spec_parse_i32(p)->0 <= 99,
{
    assert(vstd::utf8::is_ascii_chars(p)) by {
        assert forall|i: int| 0 <= i < p.len() implies '\0' <= #[trigger] p[i] <= '\u{7f}' by {
            if i > 0 && (p[0] == '+' || p[0] == '-') {
                assert(p[i] == p.drop_first()[i - 1]);
            }
        }
    }
    vstd::utf8::is_ascii_chars_encode_utf8(p);
    assert(p.len() == 2);
    if p[0] == '+' || p[0] == '-' {
        let d = p.drop_first();
        assert(d.len() == 1);
        assert(d.drop_last().len() == 0);
        assert(dec_value(d.drop_last()) == 0);
        assert(d.last() == d[0]);
        assert(dec_value(d) == digit_value(d[0]));
    } else {
        assert(p.drop_last().drop_last().len() == 0);
        assert(dec_value(p.drop_last().drop_last()) == 0);
        assert(p.drop_last().last() == p[0]);
        assert(dec_value(p.drop_last()) == digit_value(p[0]));
        assert(dec_value(p) <= 99);
    }
}

/// What `s.parse::<usize>()` gives, as an option.
pub open spec fn spec_parse_usize(s: Seq<char>) -> Option<usize> {
    match spec_parse_nat(s) {
        Some(v) => if v <= usize::MAX {
            Some(v as usize)
        } else {
            None
        },
        None => None,
    }
}

proof fn lemma_dec_value_step(s: Seq<char>, i: int)
    requires
        0 <= i < s.len(),
    ensures
        dec_value(s.take(i + 1)) == dec_value(s.take(i)) * 10 + digit_value(s[i]),
{
    assert(s.take(i + 1).drop_last() =~= s.take(i));
}

/// Reads the digits `cs[from..]`, all of which must be digits, into a value
/// no larger than `limit`; `None` when some character is no digit or the
/// value exceeds `limit`.
fn read_digits(cs: &[char], from: usize, limit: u64) -> (r: Option<u64>)
    requires
        from <= cs.len(),
        9 <= limit,
    ensures
        ({
            let d = cs@.subrange(from as int, cs@.len() as int);
            match r {
                Some(v) => all_digits(d) && v == dec_value(d) && v <= limit,
                None => !all_digits(d) || dec_value(d) > limit,
            }
        }),
{
    let ghost d = cs@.subrange(from as int, cs@.len() as int);
    let mut acc: u64 = 0;
    let mut i: usize = from;
    while i < cs.len()
        invariant
            from <= i <= cs.len(),
            9 <= limit,
            d == cs@.subrange(from as int, cs@.len() as int),
            all_digits(d.take(i - from)),
            acc == dec_value(d.take(i - from)),
            acc <= limit,
        decreases cs.len() - i,
    {
        let c = cs[i];
        proof {
            assert(d[i - from] == c);
            lemma_dec_value_step(d, i - from);
            assert(d.take(i - from + 1) =~= d.take(i - from).push(c));
        }
        if !('0' <= c && c <= '9') {
            proof {
                assert(!is_digit(d[i - from]));
            }
            return None;
        }
        let dv = (c as u64) - ('0' as u64);
        if acc > (limit - dv) / 10 {
            proof {
                assert(acc * 10 + dv > limit) by (nonlinear_arith)
                    requires
                        acc > (limit - dv) / 10,
                        dv <= 9,
                        9 <= limit,
                ;
                lemma_prefix_value_grows(d, i - from + 1);
            }
            return None;
        }
        proof {
            assert(acc * 10 + dv <= limit) by (nonlinear_arith)
                requires
                    acc <= (limit - dv) / 10,
                    dv <= 9,
                    9 <= limit,
            ;
        }
        acc = acc * 10 + dv;
        i += 1;
    }
    assert(d.take(i - from) =~= d);
    Some(acc)
}

/// Appending digits never makes the value of a digit string smaller.
proof fn lemma_prefix_value_grows(s: Seq<char>, i: int)
    requires
        0 <= i <= s.len(),
    ensures
        all_digits(s) ==> dec_value(s.take(i)) <= dec_value(s),
    decreases s.len() - i,
{
    if i < s.len() && all_digits(s) {
        lemma_prefix_value_grows(s, i + 1);
        lemma_dec_value_step(s, i);
    }
    if i == s.len() {
        assert(s.take(i) =~= s);
    }
}

/// Parses `s` as Rust's `s.parse::<i32>()` does.
pub fn parse_i32(s: &str) -> (r: Option<i32>)
    ensures
        r == spec_parse_i32(s@),
{
    let cs = crate::text::chars_of(s);
    if cs.len() == 0 {
        return None;
    }
    let neg = cs[0] == '-';
    let start: usize = if cs[0] == '+' || cs[0] == '-' {
        1
    } else {
        0
    };
    if start == 1 && cs.len() == 1 {
        return None;
    }
    let limit: u64 = if neg {
        2147483648
    } else {
        2147483647
    };
    proof {
        if start == 1 {
            assert(cs@.subrange(1, cs@.len() as int) =~= s@.drop_first());
        } else {
            assert(cs@.subrange(0, cs@.len() as int) =~= s@);
        }
    }
    match read_digits(&cs, start, limit) {
        Some(v) => {
            if neg {
                Some((0 - (v as i64)) as i32)
            } else {
                Some(v as i32)
            }
        },
        None => None,
    }
}

/// Parses `s` as Rust's `s.parse::<usize>()` does.
pub fn parse_usize(s: &str) -> (r: Option<usize>)
    ensures
        r == spec_parse_usize(s@),
{
    let cs = crate::text::chars_of(s);
    if cs.len() == 0 {
        return None;
    }
    let start: usize = if cs[0] == '+' {
        1
    } else {
        0
    };
    if start == 1 && cs.len() == 1 {
        return None;
    }
    proof {
        if start == 1 {
            assert(cs@.subrange(1, cs@.len() as int) =~= s@.drop_first());
        } else {
            assert(cs@.subrange(0, cs@.len() as int) =~= s@);
        }
    }
    match read_digits(&cs, start, usize::MAX as u64) {
        Some(v) => Some(v as usize),
        None => None,
    }
}

/// The digit character of `d < 10`.
pub open spec fn digit_char(d: nat) -> char {
    (d + '0' as nat) as char
}

/// The decimal representation of `n`, without leading zeros.
pub open spec fn dec_string(n: nat) -> Seq<char>
    decreases n,
{
    if n < 10 {
        seq![digit_char(n)]
    } else {
        dec_string(n / 10).push(digit_char(n % 10))
    }
}

/// The decimal representation of `i` as `to_string` writes it.
pub open spec fn int_string(i: int) -> Seq<char> {
    if i < 0 {
        seq!['-'] + dec_string((-i) as nat)
    } else {
        dec_string(i as nat)
    }
}

fn push_dec(out: &mut String, n: u64)
    ensures
        final(out)@ == old(out)@ + dec_string(n as nat),
    decreases n,
{
    if n >= 10 {
        push_dec(out, n / 10);
    }
    let d = (n % 10) as u32;
    let c = char_of_digit(d);
    crate::text::string_push(out, c);
    proof {
        assert(c == digit_char((n % 10) as nat));
        if n >= 10 {
            assert(old(out)@ + dec_string(n as nat) =~= old(out)@ + dec_string((n / 10) as nat)
                + seq![c]);
        } else {
            assert(old(out)@ + dec_string(n as nat) =~= old(out)@.push(c));
        }
    }
}

fn char_of_digit(d: u32) -> (c: char)
    requires
        d < 10,
    ensures
        c == digit_char(d as nat),
{
    if d == 0 {
        '0'
    } else if d == 1 {
        '1'
    } else if d == 2 {
        '2'
    } else if d == 3 {
        '3'
    } else if d == 4 {
        '4'
    } else if d == 5 {
        '5'
    } else if d == 6 {
        '6'
    } else if d == 7 {
        '7'
    } else if d == 8 {
        '8'
    } else {
        '9'
    }
}

/// `n.to_string()`.
pub fn usize_to_string(n: usize) -> (s: String)
    ensures
        s@ == dec_string(n as nat),
{
    let mut s = String::new();
    push_dec(&mut s, n as u64);
    s
}

/// `i.to_string()`.
pub fn i64_to_string(i: i64) -> (s: String)
    ensures
        s@ == int_string(i as int),
{
    let mut s = String::new();
    if i < 0 {
        crate::text::string_push(&mut s, '-');
        let m: u64 = if i == i64::MIN {
            9223372036854775808
        } else {
            (-i) as u64
        };
        push_dec(&mut s, m);
    } else {
        push_dec(&mut s, i as u64);
    }
    s
}

/// The decimal text of `n` reads back as `n`.
pub proof fn lemma_dec_value(n: nat)
    ensures
        dec_value(dec_string(n)) == n,
        all_digits(dec_string(n)),
        dec_string(n).len() > 0,
    decreases n,
{
    if n >= 10 {
        lemma_dec_value(n / 10);
        let s = dec_string(n / 10);
        let t = s.push(digit_char(n % 10));
        assert(t.drop_last() =~= s);
        assert(t.last() == digit_char(n % 10));
        assert forall|i: int| 0 <= i < t.len() implies is_digit(#[trigger] t[i]) by {
            if i < s.len() {
                assert(t[i] == s[i]);
            }
        }
    } else {
        let t = dec_string(n);
        assert(t.drop_last().len() == 0);
        assert(dec_value(t.drop_last()) == 0);
    }
}

/// The decimal text of a number that fits an `i32` parses back to it.
pub proof fn lemma_parse_dec_small(n: nat)
    requires
        n <= i32::MAX,
    ensures
        spec_parse_i32(dec_string(n)) == Some(n as i32),
{
    lemma_dec_value(n);
    let s = dec_string(n);
    assert(is_digit(s[0]));
}

} // verus!
