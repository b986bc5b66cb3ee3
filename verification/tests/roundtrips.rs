use rvalues::datefmt::{iso_string, parse_iso_date};
use rvalues::dates::Date;
use rvalues::flatten::{unflatten_row, FlattenState};
use rvalues::reshape::{order_row, order_setup};
use rvalues::rowops::{make_unique_key, UniqueState};
use rvalues::runs::run_read_fixed;
use rvalues::split::{parse_dsv_line, write_dsv_line};
use rvalues::summary::{freq_rows, mode_rows, summary_input, summary_setup, SizeTally, SummaryType};
use rvalues::table::write_fixed_line;

fn row(fields: &[&str]) -> Vec<String> {
    fields.iter().map(|s| s.to_string()).collect()
}

#[test]
fn dsv_lines_read_back() {
    let r = row(&["a|b", "c\\d", "", "e"]);
    let line = write_dsv_line(&r, &None, '|');
    assert_eq!(line, "a\\|b|c\\\\d||e");
    assert_eq!(parse_dsv_line(&line, '|', false, false).unwrap(), r);
    let picked = write_dsv_line(&r, &Some(vec![3, 0, 7]), ';');
    assert_eq!(picked, "e;a|b;");
    assert_eq!(parse_dsv_line(&picked, ';', false, false).unwrap(), row(&["e", "a|b", ""]));
}

#[test]
fn fixed_width_records_read_back() {
    let r = row(&["ab", "cde", ""]);
    let line = write_fixed_line(&r, &vec![(1, 3), (2, 4), (3, 2)]);
    assert_eq!(line, "ab cde   ");
    let back = run_read_fixed(&vec![(1, 3), (4, 4), (8, 2)], false, &vec![line]);
    assert_eq!(back, vec![r]);
}

#[test]
fn iso_dates_read_back() {
    let d = Date { year: 2024, month: 2, day: 9 };
    let s = iso_string(&d);
    assert_eq!(s, "2024-02-09");
    assert_eq!(parse_iso_date(&s), Some(d));
    assert_eq!(parse_iso_date("2023-02-29"), None);
}

#[test]
fn unique_keys_are_written_once() {
    let rows = vec![row(&["a", "1"]), row(&["b", "2"]), row(&["a", "3"]), row(&["c", "4"])];
    let mut st = UniqueState::new();
    let mut written = Vec::new();
    for r in &rows {
        let key = make_unique_key(r, &Some(vec![0]));
        written.extend(st.step(key, r, false));
    }
    assert_eq!(written, vec![row(&["a", "1"]), row(&["b", "2"]), row(&["c", "4"])]);
    let mut dupes = UniqueState::new();
    let mut shown = Vec::new();
    for r in &rows {
        let key = make_unique_key(r, &Some(vec![0]));
        shown.extend(dupes.step(key, r, true));
    }
    assert_eq!(shown, vec![row(&["a", "1"]), row(&["a", "3"])]);
}

#[test]
fn spreading_undoes_flattening() {
    let rows = vec![row(&["k", "1", "2"]), row(&["k", "3", "4"])];
    let mut st = FlattenState::new();
    for r in &rows {
        assert!(st.step(&vec![0], &None, true, r).is_none());
    }
    let flat = st.finish().unwrap();
    assert_eq!(flat, row(&["k", "1", "2", "3", "4"]));
    assert_eq!(unflatten_row(&vec![0], 2, &flat), rows);
}

#[test]
fn reordering_columns() {
    let spec = order_setup(Some("2,1"), None, None, None).unwrap();
    assert_eq!(spec.indices, vec![1, 0]);
    let out = order_row(&spec.indices, spec.is_exclude, spec.is_rev, false, &row(&["x", "y", "z"]));
    assert_eq!(out, row(&["y", "x"]));
}

#[test]
fn summary_flags() {
    assert_eq!(
        summary_setup(None, None, None, None, None, None, None, false).err().unwrap(),
        "Need a summary flag"
    );
    assert_eq!(
        summary_setup(Some("1"), None, None, None, None, None, None, true).err().unwrap(),
        "Only one summary flag allowed"
    );
    let (t, f) = summary_setup(None, None, None, Some("1,3"), None, None, None, false).unwrap();
    assert_eq!(t, SummaryType::Frequency);
    assert_eq!(f, vec![0, 2]);
    let (t, f) = summary_setup(None, None, None, None, None, None, None, true).unwrap();
    assert_eq!(t, SummaryType::Size);
    assert!(f.is_empty());
}

#[test]
fn column_sizes() {
    let mut tally = SizeTally::new();
    tally.add_row(&row(&["ab", "c"]));
    tally.add_row(&row(&["é", "", "xyz"]));
    assert_eq!(tally.lines(), row(&["1: 2,2", "2: 0,1", "3: 3,3"]));
    assert!(SizeTally::new().lines().is_empty());
}

#[test]
fn key_frequencies_and_modes() {
    let rows = vec![row(&["a", "1"]), row(&["b", "2"]), row(&["a", "3"]), row(&["b", "4"]), row(&["c", "5"])];
    assert_eq!(
        freq_rows(&rows, &vec![0]),
        vec![
            row(&["2", "a", "1"]),
            row(&["2", "b", "2"]),
            row(&["2", "a", "3"]),
            row(&["2", "b", "4"]),
            row(&["1", "c", "5"]),
        ]
    );
    assert_eq!(
        mode_rows(&rows, &vec![0]),
        vec![row(&["2", "a", "1"]), row(&["2", "a", "3"]), row(&["2", "b", "2"]), row(&["2", "b", "4"])]
    );
    assert_eq!(mode_rows(&rows[..1].to_vec(), &vec![1]), vec![row(&["1", "a", "1"])]);
}

#[test]
fn summary_needs_input() {
    assert_eq!(summary_input(SummaryType::Mode, 0).err().unwrap(), "No input");
    assert!(summary_input(SummaryType::Size, 0).is_ok());
    assert!(summary_input(SummaryType::Average, 3).is_ok());
}
