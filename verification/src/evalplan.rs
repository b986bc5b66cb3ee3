//! The decisions of the eval command around its expressions: the checks
//! on `-if` options, which expression comes next, and where a computed
//! value goes. The expressions themselves are evaluated by the caller.
use vstd::prelude::*;
use crate::text::lit;

verus! {

/// The error of the `-if` options, if any: an `-if` needs two expressions
/// after it, and two `-if` options cannot follow each other as condition
/// and else-branch. The first offending option decides.
pub open spec fn if_options_error(is_if: Seq<bool>, idx: int) -> Option<Seq<char>>
    decreases is_if.len() - idx,
{
    if idx < 0 || idx >= is_if.len() {
        None
    } else if is_if[idx] && idx < is_if.len() - 2 && is_if[idx + 2] {
        Some("Cannot have consecutive -if options"@)
    } else if is_if[idx] && idx >= is_if.len() - 2 {
        Some("Need two -e options after -if"@)
    } else {
        if_options_error(is_if, idx + 1)
    }
}

/// Whether checking the `-if` options subtracts 2 from a length below 2:
/// an `-if` among fewer than two expressions.
pub open spec fn if_options_panic(is_if: Seq<bool>) -> bool {
    is_if.len() < 2 && exists|i: int| 0 <= i < is_if.len() && #[trigger] is_if[i]
}

/// Whether checking these `-if` options would fail on a subtraction.
pub fn if_options_would_panic(is_if: &Vec<bool>) -> (b: bool)
    ensures
        b == if_options_panic(is_if@),
{
    if is_if.len() >= 2 {
        return false;
    }
    if is_if.len() == 1 && is_if[0] {
        assert(0 <= 0 < is_if@.len() && is_if@[0]);
        return true;
    }
    false
}

/// Checks the `-if` options (see [`if_options_error`]).
pub fn check_if_options(is_if: &Vec<bool>) -> (r: Result<(), String>)
    requires
        !if_options_panic(is_if@),
    ensures
        match if_options_error(is_if@, 0) {
            None => r is Ok,
            Some(e) => r matches Err(m) && m@ == e,
        },
{
    let n = is_if.len();
    let mut idx: usize = 0;
    while idx < n
        invariant
            n == is_if@.len(),
            idx <= n,
            !if_options_panic(is_if@),
            if_options_error(is_if@, 0) == if_options_error(is_if@, idx as int),
        decreases n - idx,
    {
        if is_if[idx] {
            assert(n >= 2) by {
                if n < 2 {
                    assert(0 <= idx < is_if@.len() && is_if@[idx as int]);
                }
            }
            if idx < n - 2 && is_if[idx + 2] {
                return Err(lit("Cannot have consecutive -if options"));
            }
            if idx >= n - 2 {
                return Err(lit("Need two -e options after -if"));
            }
        }
        idx += 1;
    }
    Ok(())
}

/// The expression to evaluate after expression `k`, and whether the next
/// value expression is skipped: after a condition that holds, the next
/// expression is evaluated and the one after it skipped; after one that
/// fails, the next is skipped; after a value, the skip, if pending, is
/// taken.
pub open spec fn spec_next_expression(was_if: bool, k: int, skip_else: bool, holds: bool) -> (int, bool) {
    if was_if {
        if holds {
            (k + 1, true)
        } else {
            (k + 2, skip_else)
        }
    } else if skip_else {
        (k + 2, false)
    } else {
        (k + 1, false)
    }
}

/// Steps to the next expression (see [`spec_next_expression`]); `holds`
/// is what a condition gave, and is not read after a value.
pub fn next_expression(was_if: bool, k: usize, skip_else: bool, holds: bool) -> (r: (usize, bool))
    requires
        k + 2 <= usize::MAX,
    ensures
        r.0 as int == spec_next_expression(was_if, k as int, skip_else, holds).0,
        r.1 == spec_next_expression(was_if, k as int, skip_else, holds).1,
{
    if was_if {
        if holds {
            (k + 1, true)
        } else {
            (k + 2, skip_else)
        }
    } else if skip_else {
        (k + 2, false)
    } else {
        (k + 1, false)
    }
}

/// Where a computed value goes: field `field` (from 0) of the row when it
/// has one, else onto its end.
pub open spec fn spec_set_result(row: Seq<Seq<char>>, field: i32, v: Seq<char>) -> Seq<Seq<char>> {
    if field < 0 || field >= (row.len() as i32) {
        row.push(v)
    } else {
        row.update(field as int, v)
    }
}

/// Puts a computed value into the row (see [`spec_set_result`]).
pub fn set_result(row: &mut Vec<String>, field: i32, v: String)
    ensures
        crate::text::sview(final(row)@) == spec_set_result(crate::text::sview(old(row)@), field, v@),
{
    let len = row.len() as i32;
    let ghost before = row@;
    if field < 0 || field >= len {
        row.push(v);
        assert(crate::text::sview(row@) =~= crate::text::sview(before).push(row@.last()@));
    } else {
        row.set(field as usize, v);
        assert(crate::text::sview(row@) =~= crate::text::sview(before).update(field as int, row@[field as int]@));
    }
}

} // verus!
