//! Field lists and other option values of the commands.
use vstd::prelude::*;
use crate::num::{spec_parse_i32, parse_i32};
use crate::text::{split_seq, split_str, sview, lit, push_str, chars_of, has_char};
use crate::dates::{alphabetic, is_alphabetic};
use crate::table::byte_len;

verus! {

/// The 0-based indices of the 1-based range `n1:n2`, in the range's order:
/// upwards when `n1 < n2`, downwards otherwise.
pub open spec fn range_indices(n1: int, n2: int) -> Seq<usize> {
    if n1 < n2 {
        Seq::new((n2 - n1 + 1) as nat, |k: int| (n1 - 1 + k) as usize)
    } else {
        Seq::new((n1 - n2 + 1) as nat, |k: int| (n1 - 1 - k) as usize)
    }
}

/// The indices one item of a field list stands for, or the error it gives.
pub open spec fn index_item(p: Seq<char>) -> Result<Seq<usize>, Seq<char>> {
    if p.contains(':') {
        let fl = split_seq(p, ':');
        if fl.len() != 2 {
            Err("Invalid field: "@ + p)
        } else {
            match (spec_parse_i32(fl[0]), spec_parse_i32(fl[1])) {
                (Some(n1), Some(n2)) => if n1 < 1 || n2 < 1 {
                    Err("Invalid range: "@ + p)
                } else {
                    Ok(range_indices(n1 as int, n2 as int))
                },
                _ => Err("Invalid range: "@ + p),
            }
        }
    } else {
        match spec_parse_i32(p) {
            None => Err("Need integer, not '"@ + p + "'"@),
            Some(n) => if n < 1 {
                Err("Index must be greater than zero, not '"@ + p + "'"@)
            } else {
                Ok(seq![(n - 1) as usize])
            },
        }
    }
}

/// The indices of a list of items, in order, or the first item's error.
pub open spec fn index_items(ps: Seq<Seq<char>>) -> Result<Seq<usize>, Seq<char>>
    decreases ps.len(),
{
    if ps.len() == 0 {
        Ok(seq![])
    } else {
        match index_items(ps.drop_last()) {
            Err(e) => Err(e),
            Ok(v) => match index_item(ps.last()) {
                Err(e) => Err(e),
                Ok(w) => Ok(v + w),
            },
        }
    }
}

/// A list of items parses exactly when each item does; the indices are
/// then those of the items, one after the other, and otherwise the error
/// is that of the first item that fails.
pub proof fn lemma_index_items(ps: Seq<Seq<char>>)
    ensures
        index_items(ps) is Ok <==> (forall|i: int| 0 <= i < ps.len() ==> index_item(#[trigger] ps[i]) is Ok),
        index_items(ps) is Ok ==> index_items(ps) == Ok::<Seq<usize>, Seq<char>>(
            ps.map_values(|p: Seq<char>| index_item(p)->Ok_0).flatten(),
        ),
        index_items(ps) is Err ==> exists|i: int|
            0 <= i < ps.len() && index_item(#[trigger] ps[i]) is Err && (forall|j: int|
                0 <= j < i ==> index_item(#[trigger] ps[j]) is Ok) && index_items(ps) == index_item(ps[i]),
    decreases ps.len(),
{
    if ps.len() > 0 {
        let q = ps.drop_last();
        lemma_index_items(q);
        let f = |p: Seq<char>| index_item(p)->Ok_0;
        assert(ps.map_values(f) =~= q.map_values(f).push(f(ps.last())));
        q.map_values(f).lemma_flatten_push(f(ps.last()));
        assert forall|i: int| 0 <= i < q.len() implies q[i] == ps[i] by {}
        if index_items(q) is Err {
            let i = choose|i: int|
                0 <= i < q.len() && index_item(#[trigger] q[i]) is Err && (forall|j: int|
                    0 <= j < i ==> index_item(#[trigger] q[j]) is Ok) && index_items(q) == index_item(q[i]);
            assert(ps[i] == q[i]);
            assert forall|j: int| 0 <= j < i implies index_item(#[trigger] ps[j]) is Ok by {
                assert(ps[j] == q[j]);
            }
        } else if index_item(ps.last()) is Err {
            let i = ps.len() - 1;
            assert(ps[i] == ps.last());
            assert forall|j: int| 0 <= j < i implies index_item(#[trigger] ps[j]) is Ok by {
                assert(ps[j] == q[j]);
            }
        } else {
            assert forall|i: int| 0 <= i < ps.len() implies index_item(#[trigger] ps[i]) is Ok by {
                if i < q.len() {
                    assert(ps[i] == q[i]);
                }
            }
        }
    }
}

/// The 0-based indices that a field list such as `1,3:5,9:7` names: each
/// comma-separated item is a 1-based index or a range `n1:n2`.
pub open spec fn spec_parse_indices(s: Seq<char>) -> Result<Seq<usize>, Seq<char>> {
    if s.len() == 0 {
        Ok(seq![])
    } else {
        index_items(split_seq(s, ','))
    }
}

/// The indices of one item of a field list, appended to `idx`.
fn push_item_indices(idx: &mut Vec<usize>, item: &str) -> (r: Result<(), String>)
    ensures
        match index_item(item@) {
            Ok(w) => r is Ok && final(idx)@ == old(idx)@ + w,
            Err(e) => r matches Err(m) && m@ == e,
        },
{
    let cs = chars_of(item);
    if has_char(&cs, ':') {
        let fl = split_str(item, ':');
        if fl.len() != 2 {
            let mut m = lit("Invalid field: ");
            push_str(&mut m, item);
            return Err(m);
        }
        let n1 = parse_i32(fl[0].as_str());
        let n2 = parse_i32(fl[1].as_str());
        match (n1, n2) {
            (Some(n1), Some(n2)) => {
                if n1 < 1 || n2 < 1 {
                    let mut m = lit("Invalid range: ");
                    push_str(&mut m, item);
                    return Err(m);
                }
                let ghost start = idx@;
                if n1 < n2 {
                    let mut current: i64 = n1 as i64;
                    while current <= n2 as i64
                        invariant
                            1 <= n1 < n2,
                            n1 <= current <= n2 + 1,
                            idx@ == start + range_indices(n1 as int, n2 as int).take(
                                current - n1,
                            ),
                        decreases n2 + 1 - current,
                    {
                        idx.push((current - 1) as usize);
                        assert(range_indices(n1 as int, n2 as int).take(current - n1 + 1)
                            =~= range_indices(n1 as int, n2 as int).take(current - n1).push(
                            (current - 1) as usize,
                        ));
                        current += 1;
                    }
                    assert(range_indices(n1 as int, n2 as int).take(n2 - n1 + 1) =~= range_indices(
                        n1 as int,
                        n2 as int,
                    ));
                } else {
                    let mut current: i64 = n1 as i64;
                    while current >= n2 as i64
                        invariant
                            1 <= n2 <= n1,
                            n2 - 1 <= current <= n1,
                            idx@ == start + range_indices(n1 as int, n2 as int).take(
                                n1 - current,
                            ),
                        decreases current,
                    {
                        idx.push((current - 1) as usize);
                        assert(range_indices(n1 as int, n2 as int).take(n1 - current + 1)
                            =~= range_indices(n1 as int, n2 as int).take(n1 - current).push(
                            (current - 1) as usize,
                        ));
                        current -= 1;
                    }
                    assert(range_indices(n1 as int, n2 as int).take(n1 - n2 + 1) =~= range_indices(
                        n1 as int,
                        n2 as int,
                    ));
                }
                Ok(())
            },
            _ => {
                let mut m = lit("Invalid range: ");
                push_str(&mut m, item);
                Err(m)
            },
        }
    } else {
        match parse_i32(item) {
            None => {
                let mut m = lit("Need integer, not '");
                push_str(&mut m, item);
                push_str(&mut m, "'");
                Err(m)
            },
            Some(n) => {
                if n < 1 {
                    let mut m = lit("Index must be greater than zero, not '");
                    push_str(&mut m, item);
                    push_str(&mut m, "'");
                    Err(m)
                } else {
                    idx.push((n - 1) as usize);
                    Ok(())
                }
            },
        }
    }
}

/// The 0-based indices named by a field list such as `1,3:5,9:7` (see
/// [`spec_parse_indices`]), or the error of its first bad item.
pub fn parse_indices(s: &str) -> (r: Result<Vec<usize>, String>)
    ensures
        match spec_parse_indices(s@) {
            Ok(v) => r matches Ok(idx) && idx@ == v,
            Err(e) => r matches Err(m) && m@ == e,
        },
{
    let mut idx: Vec<usize> = Vec::new();
    if s.is_empty() {
        return Ok(idx);
    }
    let items = split_str(s, ',');
    let ghost ps = sview(items@);
    let mut i: usize = 0;
    while i < items.len()
        invariant
            i <= items.len(),
            ps == sview(items@),
            ps == split_seq(s@, ','),
            s@.len() > 0,
            index_items(ps.take(i as int)) == Ok::<Seq<usize>, Seq<char>>(idx@),
        decreases items.len() - i,
    {
        proof {
            assert(ps.take(i + 1).drop_last() =~= ps.take(i as int));
            assert(ps.take(i + 1).last() == items@[i as int]@);
        }
        let ghost before = idx@;
        match push_item_indices(&mut idx, items[i].as_str()) {
            Ok(()) => {},
            Err(m) => {
                proof {
                    assert(index_items(ps.take(i + 1)) == Err::<Seq<usize>, Seq<char>>(m@));
                    lemma_items_err_prefix(ps, i as int + 1);
                    assert(s@.len() > 0);
                    assert(index_items(ps) == Err::<Seq<usize>, Seq<char>>(m@));
                    assert(spec_parse_indices(s@) == Err::<Seq<usize>, Seq<char>>(m@));
                }
                return Err(m);
            },
        }
        i += 1;
    }
    assert(ps.take(items.len() as int) =~= ps);
    Ok(idx)
}

/// Once a prefix of the items gives an error, the whole list gives it.
proof fn lemma_items_err_prefix(ps: Seq<Seq<char>>, k: int)
    requires
        0 <= k <= ps.len(),
        index_items(ps.take(k)) is Err,
    ensures
        index_items(ps) == index_items(ps.take(k)),
    decreases ps.len() - k,
{
    if k == ps.len() {
        assert(ps.take(k) =~= ps);
    } else {
        assert(ps.take(k + 1).drop_last() =~= ps.take(k));
        lemma_items_err_prefix(ps, k + 1);
    }
}

/// The indices of a field list are below the largest `i32`.
pub proof fn lemma_indices_small(s: Seq<char>)
    ensures
        spec_parse_indices(s) matches Ok(v) ==> forall|k: int| 0 <= k < v.len() ==> #[trigger] v[k] < i32::MAX,
{
    if s.len() > 0 {
        lemma_items_small(split_seq(s, ','));
    }
}

proof fn lemma_items_small(ps: Seq<Seq<char>>)
    ensures
        index_items(ps) matches Ok(v) ==> forall|k: int| 0 <= k < v.len() ==> #[trigger] v[k] < i32::MAX,
    decreases ps.len(),
{
    if ps.len() > 0 {
        lemma_items_small(ps.drop_last());
        match index_items(ps.drop_last()) {
            Ok(v) => match index_item(ps.last()) {
                Ok(w) => {
                    assert forall|k: int| 0 <= k < w.len() implies #[trigger] w[k] < i32::MAX by {
                    }
                    assert forall|k: int| 0 <= k < (v + w).len() implies #[trigger] (v + w)[k] < i32::MAX by {
                        if k < v.len() {
                            assert((v + w)[k] == v[k]);
                        } else {
                            assert((v + w)[k] == w[k - v.len()]);
                        }
                    }
                },
                Err(_) => {},
            },
            Err(_) => {},
        }
    }
}


/// A command-line argument as the option parser is to see it: a single
/// dash followed by a letter or `_` and more (`-xy`) is a long option and
/// gets a second dash; every other argument is left as it is.
pub open spec fn spec_long_flag(a: Seq<char>) -> Seq<char> {
    if byte_len(a) > 2 && a[0] == '-' && a[1] != '-' && (alphabetic(a[1]) || a[1] == '_') {
        seq!['-'] + a
    } else {
        a
    }
}

/// The argument `arg` as the option parser is to see it (see
/// [`spec_long_flag`]).
pub fn long_flag(arg: &str) -> (r: String)
    ensures
        r@ == spec_long_flag(arg@),
{
    let n = arg.as_bytes().len();
    assert(n == byte_len(arg@));
    let cs = chars_of(arg);
    if n > 2 && cs.len() >= 2 && cs[0] == '-' && cs[1] != '-' && (is_alphabetic(cs[1]) || cs[1] == '_') {
        let mut r = lit("-");
        proof {
            reveal_strlit("-");
        }
        push_str(&mut r, arg);
        assert(r@ =~= seq!['-'] + arg@);
        r
    } else {
        proof {
            if byte_len(arg@) > 2 && arg@[0] == '-' {
                lemma_two_chars(arg@);
            }
        }
        lit(arg)
    }
}

/// A text of more than two bytes that starts with a one-byte character
/// has at least two characters.
proof fn lemma_two_chars(a: Seq<char>)
    requires
        byte_len(a) > 2,
        a.len() >= 1,
        a[0] == '-',
    ensures
        a.len() >= 2,
{
    if a.len() == 1 {
        assert(a =~= seq!['-']);
        assert(byte_len(a) == 1) by {
            reveal_with_fuel(vstd::utf8::encode_utf8, 2);
        }
    }
}

} // verus!
