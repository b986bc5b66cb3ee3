//! The field specifications of the sort command: `field[:flags]` items,
//! where the flags choose the direction (`A`, `D`) and the comparison
//! (`S` text, `N` numeric, `I` text ignoring case).
use vstd::prelude::*;
use crate::num::{parse_usize, spec_parse_usize};
use crate::text::{chars_of, lit, lower_text, push_str, split_seq, split_str, sview, to_lower};
use crate::join::{text_less, text_lt};
use crate::rows::field_of;

verus! {

/// The direction of a sort field.
#[derive(PartialEq, Eq, Structural, Clone, Copy)]
pub enum SortDirection {
    Asc,
    Desc,
}

/// How a sort field compares values.
#[derive(PartialEq, Eq, Structural, Clone, Copy)]
pub enum SortCmpType {
    Alpha,
    Numeric,
    NoCase,
}

/// A sort field: its 0-based index, direction and comparison.
#[derive(PartialEq, Eq, Structural, Clone, Copy)]
pub struct SortField {
    pub index: usize,
    pub direction: SortDirection,
    pub cmp_type: SortCmpType,
}

/// The flag combinations that a sort field may carry.
pub open spec fn ok_flags(f: Seq<char>) -> bool {
    ||| f == seq!['A']
    ||| f == seq!['D']
    ||| f == seq!['I']
    ||| f == seq!['S']
    ||| f == seq!['N']
    ||| f == seq!['A', 'I']
    ||| f == seq!['A', 'S']
    ||| f == seq!['A', 'N']
    ||| f == seq!['I', 'A']
    ||| f == seq!['S', 'A']
    ||| f == seq!['N', 'A']
    ||| f == seq!['D', 'I']
    ||| f == seq!['D', 'S']
    ||| f == seq!['D', 'N']
    ||| f == seq!['I', 'D']
    ||| f == seq!['S', 'D']
    ||| f == seq!['N', 'D']
}

/// Whether `c` is one of the flag letters.
pub open spec fn is_flag_letter(c: char) -> bool {
    c == 'A' || c == 'D' || c == 'N' || c == 'S' || c == 'I'
}

/// Whether every character of `f` is a flag letter.
pub open spec fn all_letters(f: Seq<char>) -> bool {
    forall|j: int| 0 <= j < f.len() ==> is_flag_letter(#[trigger] f[j])
}

/// The 0-based index of a 1-based field number.
pub open spec fn pred_index(idx: usize) -> usize {
    (idx - 1) as usize
}

/// The sort field of one item `field[:flags]` (flags `AS` when absent), or
/// its error.
pub open spec fn sort_item(spec: Seq<char>) -> Result<SortField, Seq<char>> {
    let parts = split_seq(spec, ':');
    if parts.len() > 2 {
        Err("Invalid field specification: "@ + spec)
    } else {
        match spec_parse_usize(parts[0]) {
            None => Err("Index in field specification must be integer: "@ + spec),
            Some(idx) => if idx == 0 {
                Err("Index must be non-zero in field specification: "@ + spec)
            } else {
                let flags = if parts.len() == 2 {
                    parts[1]
                } else {
                    seq!['A', 'S']
                };
                if flags.len() > 2 || !all_letters(flags) {
                    Err("Invalid field parameters: "@ + flags)
                } else if !ok_flags(flags) {
                    Err("Invalid field parameter combination: "@ + flags)
                } else {
                    Ok(
                        SortField {
                            index: pred_index(idx),
                            direction: if flags.contains('D') {
                                SortDirection::Desc
                            } else {
                                SortDirection::Asc
                            },
                            cmp_type: if flags.contains('N') {
                                SortCmpType::Numeric
                            } else if flags.contains('I') {
                                SortCmpType::NoCase
                            } else {
                                SortCmpType::Alpha
                            },
                        },
                    )
                }
            },
        }
    }
}

/// The sort fields of a comma-separated list, skipping empty items, or the
/// first error.
pub open spec fn sort_items(items: Seq<Seq<char>>) -> Result<Seq<SortField>, Seq<char>>
    decreases items.len(),
{
    if items.len() == 0 {
        Ok(seq![])
    } else {
        match sort_items(items.drop_last()) {
            Err(e) => Err(e),
            Ok(v) => if items.last().len() == 0 {
                Ok(v)
            } else {
                match sort_item(items.last()) {
                    Err(e) => Err(e),
                    Ok(f) => Ok(v.push(f)),
                }
            },
        }
    }
}

proof fn lemma_sort_err_prefix(items: Seq<Seq<char>>, k: int)
    requires
        0 <= k <= items.len(),
        sort_items(items.take(k)) is Err,
    ensures
        sort_items(items) == sort_items(items.take(k)),
    decreases items.len() - k,
{
    if k == items.len() {
        assert(items.take(k) =~= items);
    } else {
        assert(items.take(k + 1).drop_last() =~= items.take(k));
        lemma_sort_err_prefix(items, k + 1);
    }
}

/// Whether `cs` holds `c`.
fn has(cs: &Vec<char>, c: char) -> (b: bool)
    ensures
        b == cs@.contains(c),
{
    let mut k: usize = 0;
    while k < cs.len()
        invariant
            k <= cs@.len(),
            forall|j: int| 0 <= j < k ==> cs@[j] != c,
        decreases cs@.len() - k,
    {
        if cs[k] == c {
            return true;
        }
        k += 1;
    }
    false
}

/// Whether every character of `f` is a flag letter.
fn all_flag_letters(f: &Vec<char>) -> (b: bool)
    ensures
        b == all_letters(f@),
{
    let mut k: usize = 0;
    while k < f.len()
        invariant
            k <= f@.len(),
            forall|j: int| 0 <= j < k ==> is_flag_letter(#[trigger] f@[j]),
        decreases f@.len() - k,
    {
        let c = f[k];
        if !(c == 'A' || c == 'D' || c == 'N' || c == 'S' || c == 'I') {
            assert(!is_flag_letter(f@[k as int]));
            return false;
        }
        k += 1;
    }
    true
}

/// Whether two characters spell the flags `a` then `b`.
fn pair_is(f: &Vec<char>, a: char, b: char) -> (r: bool)
    requires
        f@.len() == 2,
    ensures
        r == (f@ == seq![a, b]),
{
    let r = f[0] == a && f[1] == b;
    if r {
        assert(f@ =~= seq![a, b]);
    }
    r
}

/// Parses one sort field item (see [`sort_item`]).
fn parse_sort_item(spec: &str) -> (r: Result<SortField, String>)
    ensures
        match sort_item(spec@) {
            Ok(f) => r == Ok::<SortField, String>(f),
            Err(e) => r matches Err(m) && m@ == e,
        },
{
    let parts = split_str(spec, ':');
    let ghost pv = sview(parts@);
    assert(pv.len() == parts@.len());
    proof {
        crate::text::lemma_split_nonempty(spec@, ':');
    }
    if parts.len() > 2 {
        let mut m = lit("Invalid field specification: ");
        push_str(&mut m, spec);
        return Err(m);
    }
    assert(pv[0] == parts@[0]@);
    let idx = match parse_usize(parts[0].as_str()) {
        None => {
            let mut m = lit("Index in field specification must be integer: ");
            push_str(&mut m, spec);
            return Err(m);
        },
        Some(i) => i,
    };
    if idx == 0 {
        let mut m = lit("Index must be non-zero in field specification: ");
        push_str(&mut m, spec);
        return Err(m);
    }
    let flags = if parts.len() == 2 {
        assert(pv[1] == parts@[1]@);
        lit(parts[1].as_str())
    } else {
        let mut d = String::new();
        crate::text::string_push(&mut d, 'A');
        crate::text::string_push(&mut d, 'S');
        assert(d@ =~= seq!['A', 'S']);
        d
    };
    let ghost fl = if parts@.len() == 2 {
        pv[1]
    } else {
        seq!['A', 'S']
    };
    assert(flags@ == fl);
    let f = chars_of(flags.as_str());
    let bad = f.len() > 2 || !all_flag_letters(&f);
    if bad {
        let mut m = lit("Invalid field parameters: ");
        push_str(&mut m, flags.as_str());
        return Err(m);
    }
    let ok = if f.len() == 1 {
        let c = f[0];
        let r = c == 'A' || c == 'D' || c == 'I' || c == 'S' || c == 'N';
        if r {
            assert(f@ =~= seq![c]);
        }
        r
    } else if f.len() == 2 {
        pair_is(&f, 'A', 'I') || pair_is(&f, 'A', 'S') || pair_is(&f, 'A', 'N') || pair_is(
            &f,
            'I',
            'A',
        ) || pair_is(&f, 'S', 'A') || pair_is(&f, 'N', 'A') || pair_is(&f, 'D', 'I') || pair_is(
            &f,
            'D',
            'S',
        ) || pair_is(&f, 'D', 'N') || pair_is(&f, 'I', 'D') || pair_is(&f, 'S', 'D') || pair_is(
            &f,
            'N',
            'D',
        )
    } else {
        false
    };
    assert(ok == ok_flags(f@));
    if !ok {
        let mut m = lit("Invalid field parameter combination: ");
        push_str(&mut m, flags.as_str());
        return Err(m);
    }
    let direction = if has(&f, 'D') {
        SortDirection::Desc
    } else {
        SortDirection::Asc
    };
    let cmp_type = if has(&f, 'N') {
        SortCmpType::Numeric
    } else if has(&f, 'I') {
        SortCmpType::NoCase
    } else {
        SortCmpType::Alpha
    };
    Ok(SortField { index: idx - 1, direction, cmp_type })
}

/// Parses the field specifications of the sort command: a comma-separated
/// list of `field[:flags]` items, empty items skipped.
pub fn parse_sort_specs(s: &str) -> (r: Result<Vec<SortField>, String>)
    ensures
        match sort_items(split_seq(s@, ',')) {
            Ok(v) => r matches Ok(w) && w@ == v,
            Err(e) => r matches Err(m) && m@ == e,
        },
{
    let items = split_str(s, ',');
    let ghost ps = sview(items@);
    let mut out: Vec<SortField> = Vec::new();
    let mut i: usize = 0;
    while i < items.len()
        invariant
            i <= items@.len(),
            ps == sview(items@),
            ps == split_seq(s@, ','),
            sort_items(ps.take(i as int)) == Ok::<Seq<SortField>, Seq<char>>(out@),
        decreases items@.len() - i,
    {
        proof {
            assert(ps.take(i + 1).drop_last() =~= ps.take(i as int));
            assert(ps.take(i + 1).last() == items@[i as int]@);
        }
        if !items[i].as_str().is_empty() {
            match parse_sort_item(items[i].as_str()) {
                Ok(f) => {
                    out.push(f);
                },
                Err(e) => {
                    proof {
                        lemma_sort_err_prefix(ps, i + 1);
                    }
                    return Err(e);
                },
            }
        }
        i += 1;
    }
    assert(ps.take(items@.len() as int) =~= ps);
    Ok(out)
}

/// The sort fields when none are given: the first field, ascending, as
/// text.
pub fn default_sort_fields() -> (r: Vec<SortField>)
    ensures
        r@ == seq![
            SortField { index: 0, direction: SortDirection::Asc, cmp_type: SortCmpType::Alpha },
        ],
{
    let mut r = Vec::new();
    r.push(SortField { index: 0, direction: SortDirection::Asc, cmp_type: SortCmpType::Alpha });
    assert(r@ =~= seq![
        SortField { index: 0, direction: SortDirection::Asc, cmp_type: SortCmpType::Alpha },
    ]);
    r
}


/// How two rows compare on one sort field: the same (the next field
/// decides), the first before or after the second, or to be compared as
/// numbers.
#[derive(PartialEq, Eq, Structural, Clone, Copy, Debug)]
pub enum FieldOrder {
    Same,
    Before,
    After,
    ByNumber,
}

/// Before when `less` holds in ascending order or fails in descending
/// order; after otherwise.
pub open spec fn directed(less: bool, d: SortDirection) -> FieldOrder {
    if less == (d == SortDirection::Asc) {
        FieldOrder::Before
    } else {
        FieldOrder::After
    }
}

/// How rows `a` and `b` compare on the sort field `f`: the same when
/// either row lacks the field or the values are equal; otherwise text
/// order, or text order of the lower-case values (the same when those
/// are equal), in the field's direction; numbers are left to the caller.
pub open spec fn spec_field_order(f: SortField, a: Seq<Seq<char>>, b: Seq<Seq<char>>) -> FieldOrder {
    if f.index >= a.len() || f.index >= b.len() {
        FieldOrder::Same
    } else {
        let va = field_of(a, f.index);
        let vb = field_of(b, f.index);
        if va == vb {
            FieldOrder::Same
        } else {
            match f.cmp_type {
                SortCmpType::Alpha => directed(text_less(va, vb), f.direction),
                SortCmpType::NoCase => if lower_text(va) == lower_text(vb) {
                    FieldOrder::Same
                } else {
                    directed(text_less(lower_text(va), lower_text(vb)), f.direction)
                },
                SortCmpType::Numeric => FieldOrder::ByNumber,
            }
        }
    }
}

/// How rows `a` and `b` compare on the sort field `f`.
pub fn field_order(f: &SortField, a: &Vec<String>, b: &Vec<String>) -> (r: FieldOrder)
    ensures
        r == spec_field_order(*f, sview(a@), sview(b@)),
{
    assert(sview(a@).len() == a@.len());
    assert(sview(b@).len() == b@.len());
    if f.index >= a.len() || f.index >= b.len() {
        return FieldOrder::Same;
    }
    let va = &a[f.index];
    let vb = &b[f.index];
    assert(va@ == field_of(sview(a@), f.index));
    assert(vb@ == field_of(sview(b@), f.index));
    if *va == *vb {
        return FieldOrder::Same;
    }
    let asc = match f.direction {
        SortDirection::Asc => true,
        SortDirection::Desc => false,
    };
    match f.cmp_type {
        SortCmpType::Alpha => {
            if text_lt(va.as_str(), vb.as_str()) == asc {
                FieldOrder::Before
            } else {
                FieldOrder::After
            }
        },
        SortCmpType::NoCase => {
            let la = to_lower(va.as_str());
            let lb = to_lower(vb.as_str());
            if la == lb {
                FieldOrder::Same
            } else if text_lt(la.as_str(), lb.as_str()) == asc {
                FieldOrder::Before
            } else {
                FieldOrder::After
            }
        },
        SortCmpType::Numeric => FieldOrder::ByNumber,
    }
}

} // verus!
