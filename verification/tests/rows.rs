use rvalues::reshape::{merge_row, order_row, put_row, rows_equal, MultiWriter};
use rvalues::rowops::{
    case_row, exclude_row, file_info_row, head_step, insert_at, make_unique_key, normalize_number,
    pad_row, pad_setup, sequence_string, tail_push, truncate_row, CaseType, UniqueState,
};
use rvalues::xmlin::{from_xml_rows, XmlReadOptions};
use rvalues::runs::{fixed_specs, inter_setup, run_inter, run_read_fixed, run_read_multi};
use rvalues::split::{parse_dsv_line, split_char_alib, trans_split, unquote_dsv};
use rvalues::sql::{parse_sql_col_specs, SQLConfig};
use rvalues::splitting::split_positions;

fn row(fields: &[&str]) -> Vec<String> {
    fields.iter().map(|s| s.to_string()).collect()
}

#[test]
fn field_removal_and_truncation() {
    assert_eq!(exclude_row(&vec![1], false, &row(&["a", "b", "c"])), row(&["a", "c"]));
    assert_eq!(exclude_row(&vec![0], true, &row(&["a", "b", "c"])), row(&["a", "b"]));
    assert_eq!(truncate_row(2, &row(&["a", "b", "c"])), row(&["a", "b"]));
    assert_eq!(truncate_row(5, &row(&["a"])), row(&["a"]));
}

#[test]
fn case_changes() {
    assert_eq!(case_row(&None, CaseType::Upper, &row(&["ab", "c"])), row(&["AB", "C"]));
    assert_eq!(case_row(&Some(vec![1]), CaseType::Lower, &row(&["AB", "CD"])), row(&["AB", "cd"]));
}

#[test]
fn padding() {
    let (ncolspec, n, vals) = pad_setup(Some(4), Some("x,y")).unwrap();
    assert!(ncolspec);
    assert_eq!(n, 4);
    assert_eq!(pad_row(ncolspec, n, &vals, &row(&["a"])), row(&["a", "x", "y", "y"]));
    assert!(pad_setup(None, None).is_err());
}

#[test]
fn numbers_and_sequences() {
    assert_eq!(normalize_number("1.234,5", true), "1234.5");
    assert_eq!(normalize_number("1,234.5", false), "1234.5");
    assert_eq!(sequence_string(7, 3, None), "007");
    assert_eq!(sequence_string(7, 0, Some("id-@")), "id-7");
    assert_eq!(insert_at(&row(&["a", "b"]), 1, "9".to_string()), row(&["a", "9", "b"]));
    assert_eq!(insert_at(&row(&["a"]), 4, "9".to_string()), row(&["a", "9"]));
}

#[test]
fn unique_rows() {
    let mut u = UniqueState::new();
    let r1 = row(&["a", "1"]);
    let r2 = row(&["a", "2"]);
    let k1 = make_unique_key(&r1, &Some(vec![0]));
    assert_eq!(k1, "a\0");
    assert_eq!(u.step(k1.clone(), &r1, false), vec![r1.clone()]);
    assert!(u.step(make_unique_key(&r2, &Some(vec![0])), &r2, false).is_empty());
    let mut d = UniqueState::new();
    assert!(d.step(k1.clone(), &r1, true).is_empty());
    assert_eq!(d.step(k1.clone(), &r2, true), vec![r1.clone(), r2.clone()]);
}

#[test]
fn unique_writes_first_row_of_each_key() {
    let rows = vec![row(&["a", "1"]), row(&["b", "2"]), row(&["a", "3"]), row(&["c", "4"]), row(&["b", "5"])];
    let mut u = UniqueState::new();
    let mut out = Vec::new();
    for r in &rows {
        out.extend(u.step(make_unique_key(r, &Some(vec![0])), r, false));
    }
    assert_eq!(out, vec![row(&["a", "1"]), row(&["b", "2"]), row(&["c", "4"])]);
}

#[test]
fn tail_keeps_the_last_rows() {
    let mut buf = Vec::new();
    for i in 0..5 {
        tail_push(&mut buf, row(&[&i.to_string()]), 2);
    }
    assert_eq!(buf, vec![row(&["3"]), row(&["4"])]);
}

#[test]
fn tail_with_zero_or_few_rows() {
    let mut none = Vec::new();
    for i in 0..3 {
        tail_push(&mut none, row(&[&i.to_string()]), 0);
    }
    assert!(none.is_empty());
    let mut all = Vec::new();
    for i in 0..2 {
        tail_push(&mut all, row(&[&i.to_string()]), 5);
    }
    assert_eq!(all, vec![row(&["0"]), row(&["1"])]);
}

#[test]
fn head_writes_the_first_rows() {
    let rows = vec![row(&["a"]), row(&["b"]), row(&["c"])];
    let mut written = Vec::new();
    let mut count = 0;
    for r in &rows {
        match head_step(count, 2) {
            Some(next) => {
                written.push(r.clone());
                count = next;
            }
            None => break,
        }
    }
    assert_eq!(written, vec![row(&["a"]), row(&["b"])]);
    assert_eq!(head_step(0, 0), None);
    assert_eq!(head_step(4, 5), Some(5));
}

#[test]
fn file_info_rows() {
    assert_eq!(file_info_row("f.csv", 12, false, &row(&["a", "b"])), row(&["f.csv (12)", "a", "b"]));
    assert_eq!(file_info_row("f.csv", 3, true, &row(&["a"])), row(&["f.csv", "3", "a"]));
}

#[test]
fn rows_from_xml_text() {
    let opts = XmlReadOptions { no_attrib: false, no_child: false, exclude: vec![], ml_sep: " ".to_string() };
    let recs = vec!["a".to_string()];
    let rows = from_xml_rows("<r><a x=\"1\">hi</a><a x=\"2\"/></r>", &recs, &opts, false, true).unwrap();
    assert_eq!(rows, vec![row(&["1", "hi"]), row(&["2"])]);
    let bad = from_xml_rows("<r><a></r>", &recs, &opts, false, true).err().unwrap();
    assert!(bad.starts_with("Failed to parse XML: "));
    assert!(bad.len() > "Failed to parse XML: ".len());
}

#[test]
fn fixed_and_multi_line_reads() {
    let specs = fixed_specs("1:2,4:3").unwrap();
    assert_eq!(specs, vec![(1, 2), (4, 3)]);
    assert_eq!(fixed_specs("1:0").err().unwrap(), "Invalid field specification: 1:0");
    let out = run_read_fixed(&specs, false, &row(&["ab cd  ", "x"]));
    assert_eq!(out, vec![row(&["ab", "cd"]), row(&["x", ""])]);
    let multi = run_read_multi(2, "", &row(&["a", "b", "c"]));
    assert_eq!(multi[0], row(&["a", "b"]));
}

#[test]
fn delimited_lines() {
    assert_eq!(parse_dsv_line("a|b||c", '|', false, false).unwrap(), row(&["a", "b", "", "c"]));
    assert_eq!(parse_dsv_line("a||b", '|', true, false).unwrap(), row(&["a", "b"]));
    assert_eq!(unquote_dsv("\"a\"", true), "a");
    assert_eq!(split_char_alib("a:b:c", ':'), row(&["a", "b", "c"]));
    assert_eq!(trans_split("abc123", true), row(&["abc", "123"]));
}

#[test]
fn sql_statements() {
    let cols = parse_sql_col_specs("1:id,2:name").unwrap();
    assert_eq!(cols[1].field, 1);
    assert_eq!(cols[1].col_name, "name");
    let named = parse_sql_col_specs("x").unwrap();
    assert_eq!(named.len(), 1);
    assert_eq!(named[0].field, 0);
    assert_eq!(named[0].col_name, "x");
    assert_eq!(parse_sql_col_specs("x:y").err().unwrap(), "Field index must be integer in x:y");
    assert_eq!(parse_sql_col_specs("1,").err().unwrap(), "Field index must be integer in ");
    assert_eq!(parse_sql_col_specs("1:a,2").err().unwrap(), "Must specify all column names");
    let cfg = SQLConfig::new("t".to_string(), None, None, false, false).unwrap();
    let ins = cfg.insert_stmt(&row(&["1", "O'Neil"]), &cols).unwrap();
    assert_eq!(ins, "INSERT INTO t ( id, name ) VALUES( '1', 'O''Neil')\n;\n");
    assert_eq!(SQLConfig::new("".to_string(), None, None, false, false).err().unwrap(), "Need table name");
}

#[test]
fn sql_insert_with_column_names() {
    let cols = parse_sql_col_specs("id,name,email").unwrap();
    assert_eq!(cols.len(), 3);
    assert_eq!(cols[0].field, 0);
    assert_eq!(cols[1].field, 1);
    assert_eq!(cols[2].field, 2);
    assert_eq!(cols[2].col_name, "email");
    let cfg = SQLConfig::new("users".to_string(), None, None, false, false).unwrap();
    let ins = cfg.insert_stmt(&row(&["1", "bob", "b@x.org"]), &cols).unwrap();
    assert_eq!(ins, "INSERT INTO users ( id, name, email ) VALUES( '1', 'bob', 'b@x.org')\n;\n");
    assert_eq!(parse_sql_col_specs("id,2").err().unwrap(), "Must specify all column names");
}

#[test]
fn reshaping() {
    assert_eq!(order_row(&vec![2, 0], false, false, false, &row(&["a", "b", "c"])), row(&["c", "a"]));
    assert_eq!(put_row("v", Some(0), &row(&["a"])), row(&["v", "a"]));
    assert!(rows_equal(&row(&["a"]), &row(&["a"])));
    assert!(!rows_equal(&row(&["a"]), &row(&["a", "b"])));
    let m = merge_row(&vec![0, 1], "-", 0, false, &row(&["a", "b", "c"]));
    assert_eq!(m, row(&["a-b", "c"]));
    let w = MultiWriter::new();
    assert!(w.finish(&None).is_empty());
    assert!(split_positions("1:2").is_ok());
}

#[test]
fn inter_merges_rows_side_by_side() {
    let left = vec![row(&["a", "b"]), row(&["c"]), row(&["d"])];
    let right = vec![row(&["1"]), row(&["2", "3"])];
    let none = inter_setup(None, 2).unwrap();
    assert_eq!(
        run_inter(&none, &left, &right),
        vec![row(&["a", "b", "1"]), row(&["c", "2", "3"]), row(&["d"])]
    );
    let picked = inter_setup(Some("R2,L1"), 2).unwrap();
    assert_eq!(
        run_inter(&picked, &left, &right),
        vec![row(&["", "a"]), row(&["3", "c"]), row(&["", "d"])]
    );
    assert_eq!(inter_setup(None, 3).err().unwrap(), "Command requires exactly two input streams");
}
