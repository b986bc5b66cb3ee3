//! Operations on rows of fields shared by several commands.
use vstd::prelude::*;
use crate::text::sview;

verus! {

/// Whether column `i` is one that `cols` selects; no list selects every
/// column.
pub open spec fn col_selected(cols: Option<Seq<usize>>, i: int) -> bool {
    match cols {
        None => true,
        Some(c) => exists|k: int| 0 <= k < c.len() && #[trigger] c[k] as int == i,
    }
}

/// The selection of an optional column list, as a sequence.
pub open spec fn cols_view(cols: &Option<Vec<usize>>) -> Option<Seq<usize>> {
    match *cols {
        None => None,
        Some(v) => Some(v@),
    }
}

/// Whether column `i` is selected by `cols`.
pub fn is_selected(cols: &Option<Vec<usize>>, i: usize) -> (b: bool)
    ensures
        b == col_selected(cols_view(cols), i as int),
{
    if let Some(v) = cols {
        let r = contains_index(v, i);
        assert(cols_view(cols) == Some(v@));
        proof {
            if r {
                assert(v@.contains(i));
                let k = choose|k: int| 0 <= k < v@.len() && v@[k] == i;
                assert(0 <= k < v@.len() && v@[k] as int == i as int);
                assert(exists|k: int| 0 <= k < v@.len() && #[trigger] v@[k] as int == i as int);
                let ghost cv: Option<Seq<usize>> = Some(v@);
                assert(cv is Some && cv->0 == v@);
                assert(exists|k: int| 0 <= k < cv->0.len() && #[trigger] cv->0[k] as int == i as int);
                assert(col_selected(cv, i as int));
            } else {
                assert forall|k: int| 0 <= k < v@.len() implies v@[k] != i by {
                    if v@[k] == i {
                        assert(v@.contains(i));
                    }
                }
                assert(!col_selected(Some(v@), i as int));
            }
        }
        r
    } else {
        true
    }
}

/// Whether `v` holds `x`.
pub fn contains_index(v: &Vec<usize>, x: usize) -> (b: bool)
    ensures
        b == v@.contains(x),
{
    let mut k: usize = 0;
    while k < v.len()
        invariant
            k <= v.len(),
            forall|j: int| 0 <= j < k ==> v@[j] != x,
        decreases v.len() - k,
    {
        if v[k] == x {
            return true;
        }
        k += 1;
    }
    false
}

/// Field `i` of a row.
pub open spec fn field_of(row: Seq<Seq<char>>, i: usize) -> Seq<char> {
    row[i as int]
}

/// The rows of a table, each as its sequence of fields.
pub open spec fn rows_view(rows: Seq<Vec<String>>) -> Seq<Seq<Seq<char>>> {
    rows.map_values(|r: Vec<String>| sview(r@))
}

/// The view of a table with one more row.
pub proof fn lemma_rows_view_push(rows: Seq<Vec<String>>, r: Vec<String>)
    ensures
        rows_view(rows.push(r)) == rows_view(rows).push(sview(r@)),
{
    assert(rows_view(rows.push(r)) =~= rows_view(rows).push(sview(r@)));
}

} // verus!
