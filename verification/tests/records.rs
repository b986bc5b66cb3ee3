use rvalues::check::CSVChecker;
use rvalues::csv::{parse_csv_with, IOManager};
use rvalues::dates::{is_leap_year, validate_date, MaskedDateReader};
use rvalues::datefmt::{build_format, format_date, iso_string, parse_iso_date};
use rvalues::diff::{Differ, EditAction, ResultSpan};
use rvalues::lexer::{Lexer, Token};
use rvalues::validate::{
    make_report_header, parse_out_mode, parse_validation_line, validate_outcome,
    ValidateOutMode, ValidationResult,
};

fn row(fields: &[&str]) -> Vec<String> {
    fields.iter().map(|s| s.to_string()).collect()
}

fn io() -> IOManager {
    IOManager::new(vec![], false, false, ',', None, false, false, None, None)
}

#[test]
fn csv_lines_split_into_fields() {
    assert_eq!(parse_csv_with("a,\"b,c\",d", ','), row(&["a", "b,c", "d"]));
    assert_eq!(parse_csv_with("\"x\"\"y\"", ','), row(&["x\"y"]));
    assert_eq!(parse_csv_with("a;b", ';'), row(&["a", "b"]));
}

#[test]
fn written_rows_read_back() {
    let m = io();
    let r = row(&["plain", "with,comma", "with \"quote\"", ""]);
    let line = m.write_row(&r);
    assert!(line.ends_with('\n'));
    let back = m.parse_csv_line(line.trim_end_matches('\n'));
    assert_eq!(back, r);
}

#[test]
fn default_io_reads_standard_input() {
    let m = io();
    assert_eq!(m.input_paths, vec!["-".to_string()]);
    assert_eq!(m.output_sep, ',');
}

#[test]
fn lines_are_counted_and_filtered() {
    let mut m = IOManager::new(vec!["f".to_string()], true, true, ',', None, false, false, None, None);
    let first = m.reset_inputs(vec!["f".to_string()]);
    assert_eq!(first, Some("f".to_string()));
    assert_eq!(m.read_line("header\r\n"), None);
    assert_eq!(m.read_line("  \n"), None);
    assert_eq!(m.read_line("data\n"), Some("data".to_string()));
    assert_eq!(m.current_line(), 3);
    assert_eq!(m.current_input(), "data");
    assert_eq!(m.current_file_name(), "f");
}

#[test]
fn records_are_read_byte_by_byte() {
    let mut m = io();
    let mut scan = m.begin_record();
    let mut ended = false;
    for b in "a,\"b\nc\"\r\n".bytes() {
        if m.feed_byte(&mut scan, b) {
            ended = true;
            break;
        }
    }
    assert!(ended);
    assert_eq!(scan.line, "a,\"b\nc\"");
    assert_eq!(m.current_line(), 2);
    let fields = m.read_csv(scan.line.clone()).unwrap();
    assert_eq!(fields, row(&["a", "b\nc"]));
}

#[test]
fn checker_reads_records_and_reports_errors() {
    let mut c = CSVChecker::new("f".to_string(), "a,b\n\"x,y\",z\n", ',', true, true);
    assert_eq!(c.next_record().unwrap(), Some(row(&["a", "b"])));
    assert_eq!(c.next_record().unwrap(), Some(row(&["x,y", "z"])));
    assert_eq!(c.next_record().unwrap(), None);
    let mut bad = CSVChecker::new("f".to_string(), "a\"b\n", ',', true, true);
    assert_eq!(bad.next_record().err().unwrap(), "Unexpected double-quote in f at line 1\na\"");
    let mut eof = CSVChecker::new("g".to_string(), "\"ab", ',', true, true);
    assert_eq!(
        eof.next_record().err().unwrap(),
        "Unexpected end of input (probably mis-matched quotes) in g"
    );
}

#[test]
fn calendar() {
    assert!(is_leap_year(2000));
    assert!(!is_leap_year(1900));
    assert!(is_leap_year(2024));
    assert!(validate_date(2024, 2, 29));
    assert!(!validate_date(2023, 2, 29));
    assert!(!validate_date(2023, 13, 1));
}

#[test]
fn masked_dates() {
    let r = MaskedDateReader::new("d/m/y", "", 1930).unwrap();
    let d = r.read("25/12/2023").unwrap();
    assert_eq!((d.year, d.month, d.day), (2023, 12, 25));
    let named = r.read("1/Feb/2020").unwrap();
    assert_eq!((named.year, named.month, named.day), (2020, 2, 1));
    assert!(r.read("31/2/2023").is_none());
    assert!(MaskedDateReader::new("d/m", "", 1930).is_err());
    assert_eq!(MaskedDateReader::new("d/x/y", "", 1930).err().unwrap(), "Invalid character in date mask: x");
    assert_eq!(MaskedDateReader::new("dam/y", "", 1930).err().unwrap(), "Invalid separator in date mask: dam/y");
    assert_eq!(MaskedDateReader::new("d/d/y", "", 1930).err().unwrap(), "Invalid date mask: d/d/y");
    assert_eq!(MaskedDateReader::new("d/m/y", "a,b", 1930).err().unwrap(), "Invalid month list: a,b");
}

#[test]
fn iso_dates_and_formats() {
    let d = parse_iso_date("2023-01-05").unwrap();
    assert_eq!(iso_string(&d), "2023-01-05");
    assert!(parse_iso_date("2023-02-30").is_none());
    let f = build_format("dd/mm/yyyy");
    assert_eq!(format_date("2023-01-05", &f), "05/01/2023");
}

#[test]
fn diff_reports_edits() {
    let d = Differ::new(None, false, false);
    let src = vec![row(&["a"]), row(&["b"]), row(&["c"])];
    let dest = vec![row(&["a"]), row(&["x"]), row(&["c"])];
    let spans = d.diff(&src, &dest);
    assert!(spans.iter().any(|s| s.action == EditAction::Replace));
    let same = d.diff(&src, &src);
    assert!(same.iter().all(|s| s.action == EditAction::NoChange));
    let del = d.diff(&src, &vec![]);
    assert_eq!(del.len(), 1);
    assert!(del[0].action == EditAction::DelSrc && del[0].len == 3 && del[0].dest_index == -1);
    let add = d.diff(&vec![], &dest);
    assert!(add[0].action == EditAction::AddDest && add[0].len == 3 && add[0].src_index == -1);
}

#[test]
fn diff_one_field_ignoring_case_and_spaces() {
    let d = Differ::new(Some(vec![0]), true, true);
    let src = vec![row(&["q"]), row(&["A ", "x"])];
    let dest = vec![row(&["z"]), row(&["a", "y"])];
    let spans = d.diff(&src, &dest);
    assert_eq!(
        spans,
        vec![
            ResultSpan { action: EditAction::Replace, dest_index: 0, src_index: 0, len: 1 },
            ResultSpan { action: EditAction::NoChange, dest_index: 1, src_index: 1, len: 1 },
        ]
    );
}

#[test]
fn diff_report_lines() {
    let d = Differ::new(None, false, false);
    let src = vec![row(&["a"]), row(&["b"]), row(&["c"]), row(&["d"])];
    let dest = vec![row(&["a"]), row(&["x"]), row(&["c"]), row(&["d"]), row(&["e"])];
    let (same, lines) = d.diff_report(&src, &dest);
    assert!(!same);
    let got: Vec<(bool, usize, Vec<String>)> = lines.into_iter().map(|l| (l.added, l.line, l.row)).collect();
    assert_eq!(got, vec![(false, 2, row(&["b"])), (true, 2, row(&["x"])), (true, 5, row(&["e"]))]);
    let (_, none) = d.diff_report(&src, &src);
    assert!(none.is_empty());
}

#[test]
fn weekday_names() {
    let f = build_format("W w");
    assert_eq!(format_date("2024-01-01", &f), "Monday Mon");
    assert_eq!(format_date("2000-02-29", &f), "Tuesday Tue");
    assert_eq!(format_date("1900-01-07", &f), "Sunday Sun");
}

#[test]
fn diff_exact_spans() {
    let d = Differ::new(None, false, false);
    let src = vec![row(&["a"]), row(&["b"]), row(&["c"]), row(&["d"])];
    let dest = vec![row(&["a"]), row(&["x"]), row(&["c"]), row(&["d"]), row(&["e"])];
    assert_eq!(
        d.diff(&src, &dest),
        vec![
            ResultSpan { action: EditAction::Replace, dest_index: 1, src_index: 1, len: 1 },
            ResultSpan { action: EditAction::NoChange, dest_index: 2, src_index: 2, len: 2 },
            ResultSpan { action: EditAction::AddDest, dest_index: 4, src_index: -1, len: 1 },
        ]
    );
}

#[test]
fn lexer_tokens() {
    let mut l = Lexer::new("$1 + 2.5 * f('a')");
    let mut toks = Vec::new();
    while let Some(t) = l.next_token().unwrap() {
        toks.push(t);
    }
    assert!(toks[0] == Token::Var("1".to_string()));
    assert!(toks[1] == Token::Op("+".to_string()));
    assert!(toks[2] == Token::Num("2.5".to_string()));
    assert!(toks[4] == Token::Ident("f".to_string()));
    assert!(toks[5] == Token::LParen);
    assert!(toks[6] == Token::Str("a".to_string()));
}

#[test]
fn validation_lines_and_outcomes() {
    let (name, fields, params) = parse_validation_line("length 1,2 3 '5 x'").unwrap().unwrap();
    assert_eq!(name, "length");
    assert_eq!(fields, vec![0, 1]);
    assert_eq!(params, row(&["3", "5 x"]));
    assert!(parse_validation_line("  # comment").unwrap().is_none());
    assert_eq!(parse_validation_line("x 0").err().unwrap(), "Invalid field list: 0");
    assert!(parse_out_mode(None).unwrap() == ValidateOutMode::Reports);
    assert!(parse_out_mode(Some("fail")).unwrap() == ValidateOutMode::Fails);
    assert_eq!(parse_out_mode(Some("x")).err().unwrap(), "Invalid value for output mode: x");
    let header = make_report_header("in.csv", 3, "a,b");
    assert_eq!(header, "in.csv (3): a,b");
    let results = vec![
        vec![],
        vec![ValidationResult::err(2, "bad".to_string()), ValidationResult::err(0, "worse".to_string())],
        vec![ValidationResult::err(1, "again".to_string())],
    ];
    let (lines, write, n) = validate_outcome(ValidateOutMode::Reports, &header, &results);
    assert_eq!(lines, row(&["in.csv (3): a,b", "    field: 2 - bad", "    worse", "    field: 1 - again"]));
    assert!(!write);
    assert_eq!(n, 2);
    let (l2, w2, n2) = validate_outcome(ValidateOutMode::Fails, &header, &results);
    assert!(l2.is_empty() && w2 && n2 == 1);
    let (_, w3, n3) = validate_outcome(ValidateOutMode::Passes, &header, &results);
    assert!(!w3 && n3 == 2);
    let (_, w4, n4) = validate_outcome(ValidateOutMode::Passes, &header, &vec![vec![]]);
    assert!(w4 && n4 == 0);
}
