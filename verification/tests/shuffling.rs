use rand::seq::SliceRandom;
use rand::SeedableRng;
use rand_chacha::ChaCha8Rng;
use rvalues::shuffle::{chosen_fields, place_fields, shuffle_fields, shuffle_rows, shuffle_would_panic};

fn row(fields: &[&str]) -> Vec<String> {
    fields.iter().map(|s| s.to_string()).collect()
}

#[test]
fn chosen_fields_are_put_back_in_turn() {
    let r = row(&["a", "b", "c", "d"]);
    assert_eq!(chosen_fields(&vec![3, 9, 1], &r), row(&["d", "b"]));
    assert_eq!(place_fields(&vec![3, 1], &r, &row(&["x", "y"])), row(&["a", "y", "c", "x"]));
    assert!(shuffle_would_panic(&vec![5, 0], &row(&["a", "b"])));
    assert!(!shuffle_would_panic(&vec![0, 5], &row(&["a", "b"])));
}

#[test]
fn shuffled_fields_stay_in_their_columns() {
    let r = row(&["a", "b", "c", "d"]);
    let mut rng = ChaCha8Rng::seed_from_u64(7);
    let out = shuffle_fields(&vec![0, 2], &r, &mut rng);
    assert_eq!(out.len(), 4);
    assert_eq!(out[1], "b");
    assert_eq!(out[3], "d");
    let mut moved = vec![out[0].clone(), out[2].clone()];
    moved.sort();
    assert_eq!(moved, row(&["a", "c"]));
}

#[test]
fn shuffled_rows_keep_the_count() {
    let rows = vec![row(&["1"]), row(&["2"]), row(&["3"])];
    let all = shuffle_rows(rows.clone(), None, 1);
    let mut sorted = all.clone();
    sorted.sort();
    assert_eq!(sorted, rows);
    let two = shuffle_rows(rows.clone(), Some(2), 1);
    assert_eq!(two, all[..2].to_vec());
    assert_eq!(shuffle_rows(rows, Some(9), 1).len(), 3);
}

#[test]
fn same_seed_gives_the_same_order() {
    let rows: Vec<Vec<String>> = (0..20).map(|i| row(&[&i.to_string()])).collect();
    let a = shuffle_rows(rows.clone(), None, 42);
    let b = shuffle_rows(rows.clone(), None, 42);
    assert_eq!(a, b);
    let mut v = rows.clone();
    let mut rng = ChaCha8Rng::seed_from_u64(42);
    v.shuffle(&mut rng);
    assert_eq!(a, v);
}
