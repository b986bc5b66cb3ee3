//! Shuffling the rows of the input, or the chosen fields of each row, with
//! a seeded random generator. Which order comes out is the generator's;
//! what is shuffled, how many rows are kept and where the shuffled values
//! go is stated here.
use vstd::prelude::*;
use rand::seq::SliceRandom;

verus! {

/// `rand_chacha::ChaCha8Rng`, the seeded random generator.
#[verifier::external_type_specification]
#[verifier::external_body]
pub struct ExChaCha8Rng(rand_chacha::ChaCha8Rng);

/// `SliceRandom::shuffle` of the `rand` crate: puts the items of `v` in an
/// order drawn from `rng`, by swaps. It promises that the same items come
/// out, each as often as it went in, and nothing of their order.
#[verifier::external_body]
fn shuffle_items<T>(v: &mut Vec<T>, rng: &mut rand_chacha::ChaCha8Rng)
    ensures
        final(v)@.to_multiset() == old(v)@.to_multiset(),
        final(v)@.len() == old(v)@.len(),
{
    v.shuffle(rng);
}

/// The positions that `SliceRandom::shuffle` takes `n` items from when it
/// draws from a `ChaCha8Rng` made by `SeedableRng::seed_from_u64(seed)`:
/// item `i` of the result is item `seeded_order(seed, n)[i]` of the input.
/// The swaps depend on the generator's draws and the length alone.
pub uninterp spec fn seeded_order(seed: u64, n: nat) -> Seq<int>;

/// `items` taken in the order of the positions `order`.
pub open spec fn reordered<T>(items: Seq<T>, order: Seq<int>) -> Seq<T> {
    Seq::new(items.len(), |i: int| items[order[i]])
}

/// `SliceRandom::shuffle` of the `rand` crate with a `ChaCha8Rng` made by
/// `SeedableRng::seed_from_u64(seed)`: the same items come out, each as
/// often as it went in, in an order fixed by the seed and the number of
/// items.
#[verifier::external_body]
fn shuffle_seeded<T>(v: &mut Vec<T>, seed: u64)
    ensures
        final(v)@.len() == old(v)@.len(),
        final(v)@.to_multiset() == old(v)@.to_multiset(),
        final(v)@ == reordered(old(v)@, seeded_order(seed, old(v)@.len())),
{
    let mut rng = <rand_chacha::ChaCha8Rng as rand::SeedableRng>::seed_from_u64(seed);
    v.shuffle(&mut rng);
}

/// The items of `row` at the positions `cols`, in the order of `cols`;
/// positions past the row's end are left out.
pub open spec fn picked<T>(cols: Seq<usize>, row: Seq<T>) -> Seq<T>
    decreases cols.len(),
{
    if cols.len() == 0 {
        seq![]
    } else {
        picked(cols.drop_last(), row) + if cols.last() < row.len() {
            seq![row[cols.last() as int]]
        } else {
            seq![]
        }
    }
}

/// `row` with the item at position `cols[i]` replaced by `vals[i]`, for
/// each `i` in turn whose position lies in the row.
pub open spec fn placed<T>(cols: Seq<usize>, row: Seq<T>, vals: Seq<T>) -> Seq<T>
    decreases cols.len(),
{
    if cols.len() == 0 {
        row
    } else {
        let r = placed(cols.drop_last(), row, vals);
        if cols.last() < row.len() {
            r.update(cols.last() as int, vals[cols.len() - 1])
        } else {
            r
        }
    }
}

/// Whether placing `n` values back at `cols` reads past them: some index
/// of `cols` whose position lies in the row has no value.
pub open spec fn place_reads_past(cols: Seq<usize>, row_len: nat, n: nat) -> bool {
    exists|i: int| 0 <= i < cols.len() && #[trigger] cols[i] < row_len && i >= n
}

proof fn lemma_placed_len<T>(cols: Seq<usize>, row: Seq<T>, vals: Seq<T>)
    ensures
        placed(cols, row, vals).len() == row.len(),
    decreases cols.len(),
{
    if cols.len() > 0 {
        lemma_placed_len(cols.drop_last(), row, vals);
    }
}

/// The items of `row` at the positions `cols` (see [`picked`]).
pub fn chosen_fields(cols: &Vec<usize>, row: &Vec<String>) -> (r: Vec<String>)
    ensures
        r@ == picked(cols@, row@),
{
    let mut out: Vec<String> = Vec::new();
    let mut k: usize = 0;
    while k < cols.len()
        invariant
            k <= cols@.len(),
            out@ == picked(cols@.take(k as int), row@),
        decreases cols@.len() - k,
    {
        let c = cols[k];
        assert(cols@.take(k + 1).drop_last() =~= cols@.take(k as int));
        assert(cols@.take(k + 1).last() == c);
        if c < row.len() {
            let v = row[c].clone();
            out.push(v);
        }
        assert(out@ =~= picked(cols@.take(k + 1), row@));
        k += 1;
    }
    assert(cols@.take(cols@.len() as int) =~= cols@);
    out
}

/// `row` with the values `vals` put back at the positions `cols` (see
/// [`placed`]); each position in the row needs its value.
pub fn place_fields(cols: &Vec<usize>, row: &Vec<String>, vals: &Vec<String>) -> (r: Vec<String>)
    requires
        !place_reads_past(cols@, row@.len(), vals@.len()),
    ensures
        r@ == placed(cols@, row@, vals@),
{
    let mut out: Vec<String> = row.clone();
    assert(out@ =~= row@);
    let mut k: usize = 0;
    while k < cols.len()
        invariant
            k <= cols@.len(),
            !place_reads_past(cols@, row@.len(), vals@.len()),
            out@ == placed(cols@.take(k as int), row@, vals@),
            out@.len() == row@.len(),
        decreases cols@.len() - k,
    {
        let c = cols[k];
        assert(cols@.take(k + 1).drop_last() =~= cols@.take(k as int));
        assert(cols@.take(k + 1).last() == c);
        assert(cols@.take(k + 1).len() - 1 == k);
        if c < row.len() {
            assert(!(0 <= k < cols@.len() && cols@[k as int] < row@.len() && k >= vals@.len()));
            let v = vals[k].clone();
            out.set(c, v);
        }
        assert(out@ =~= placed(cols@.take(k + 1), row@, vals@));
        k += 1;
    }
    assert(cols@.take(cols@.len() as int) =~= cols@);
    out
}

/// Whether shuffling the fields `cols` of `row` reads past the shuffled
/// values: an index of `cols` whose field exists comes after one whose
/// field does not.
pub fn shuffle_would_panic(cols: &Vec<usize>, row: &Vec<String>) -> (b: bool)
    ensures
        b == place_reads_past(cols@, row@.len(), picked(cols@, row@).len()),
{
    let n = chosen_fields(cols, row).len();
    let mut k: usize = 0;
    while k < cols.len()
        invariant
            k <= cols@.len(),
            n == picked(cols@, row@).len(),
            forall|i: int| 0 <= i < k ==> !(#[trigger] cols@[i] < row@.len() && i >= n),
        decreases cols@.len() - k,
    {
        if cols[k] < row.len() && k >= n {
            assert(0 <= k < cols@.len() && cols@[k as int] < row@.len() && k >= n);
            return true;
        }
        k += 1;
    }
    false
}

/// Shuffles the fields `cols` of `row` among themselves: their values, put
/// in an order drawn from `rng`, go back to the same positions in turn.
pub fn shuffle_fields(cols: &Vec<usize>, row: &Vec<String>, rng: &mut rand_chacha::ChaCha8Rng) -> (r: Vec<
    String,
>)
    requires
        !place_reads_past(cols@, row@.len(), picked(cols@, row@).len()),
    ensures
        exists|p: Seq<String>|
            p.len() == picked(cols@, row@).len() && p.to_multiset() == picked(cols@, row@).to_multiset()
                && r@ == #[trigger] placed(cols@, row@, p),
{
    let mut vals = chosen_fields(cols, row);
    shuffle_items(&mut vals, rng);
    let r = place_fields(cols, row, &vals);
    assert(vals@.len() == picked(cols@, row@).len() && vals@.to_multiset() == picked(
        cols@,
        row@,
    ).to_multiset() && r@ == placed(cols@, row@, vals@));
    r
}

/// The number of rows kept: `count`, at most the number of rows; all of
/// them without a count.
pub open spec fn kept_rows(count: Option<usize>, n: nat) -> nat {
    match count {
        Some(c) => if c < n {
            c as nat
        } else {
            n
        },
        None => n,
    }
}

/// The rows that shuffling with `seed` keeps: all rows in the order that
/// the seed gives, cut to `count` (see [`kept_rows`]).
pub open spec fn seeded_rows(rows: Seq<Vec<String>>, count: Option<usize>, seed: u64) -> Seq<Vec<String>> {
    reordered(rows, seeded_order(seed, rows.len())).take(kept_rows(count, rows.len()) as int)
}

/// Shuffles the rows into the order that a generator seeded with `seed`
/// gives and keeps the first `count` of them (all without a count): a
/// function of the rows, the count and the seed, so the same seed gives
/// the same rows in the same order.
pub fn shuffle_rows(rows: Vec<Vec<String>>, count: Option<usize>, seed: u64) -> (r: Vec<Vec<String>>)
    ensures
        r@ == seeded_rows(rows@, count, seed),
        exists|p: Seq<Vec<String>>|
            p.len() == rows@.len() && p.to_multiset() == rows@.to_multiset() && r@ == #[trigger] p.take(
                kept_rows(count, rows@.len()) as int,
            ),
{
    let mut rows = rows;
    let ghost before = rows@;
    shuffle_seeded(&mut rows, seed);
    let ghost p = rows@;
    let limit = match count {
        Some(c) => if c < rows.len() {
            c
        } else {
            rows.len()
        },
        None => rows.len(),
    };
    rows.truncate(limit);
    assert(rows@ =~= p.take(limit as int));
    assert(p.len() == before.len() && p.to_multiset() == before.to_multiset() && rows@ == p.take(
        kept_rows(count, before.len()) as int,
    ));
    rows
}

} // verus!
