use rvalues::evalplan::{check_if_options, if_options_would_panic, next_expression, set_result};
use rvalues::funcs::{parse_date, positional, text_function, text_function_panics, variable};
use rvalues::money::{format_money_text, money_options};

fn row(fields: &[&str]) -> Vec<String> {
    fields.iter().map(|s| s.to_string()).collect()
}

fn call(name: &str, args: &[&str], record: &[&str]) -> Option<Result<String, String>> {
    text_function(name, &row(args), &row(record))
}

fn ok(name: &str, args: &[&str]) -> String {
    call(name, args, &[]).unwrap().unwrap()
}

#[test]
fn substrings_and_positions() {
    assert_eq!(ok("substr", &["hello", "2", "3"]), "ell");
    assert_eq!(ok("SUBSTR", &["hello", "4", "10"]), "lo");
    assert_eq!(ok("substr", &["hello", "9", "1"]), "");
    assert_eq!(call("substr", &["hello", "0", "1"], &[]).unwrap().err().unwrap(), "Invalid position in substr()");
    assert_eq!(call("substr", &["hello", "1", "-1"], &[]).unwrap().err().unwrap(), "Invalid length in substr()");
    assert_eq!(ok("pos", &["héllo", "l"]), "4");
    assert_eq!(ok("pos", &["abc", "x"]), "0");
    assert_eq!(ok("pos", &["abc", ""]), "1");
    assert_eq!(ok("len", &["héllo"]), "5");
}

#[test]
fn list_lookups() {
    assert_eq!(ok("index", &["b", "a,b,c"]), "2");
    assert_eq!(ok("index", &["z", "a,b,c"]), "0");
    assert_eq!(ok("pick", &["3", "a,b,c"]), "c");
    assert_eq!(ok("pick", &["4", "a,b,c"]), "");
    assert_eq!(call("pick", &["x", "a"], &[]).unwrap().err().unwrap(), "First parameter of pick() must be integer");
}

#[test]
fn fields_and_positional_parameters() {
    let rec = ["a", "b"];
    assert_eq!(call("field", &["2"], &rec).unwrap().unwrap(), "b");
    assert_eq!(call("field", &["5"], &rec).unwrap().unwrap(), "");
    assert_eq!(call("field", &["x"], &rec).unwrap().err().unwrap(), "Parameter of field() must be integer");
    assert_eq!(positional("1", &row(&rec)), Some(Ok("a".to_string())));
    assert_eq!(positional("3", &row(&rec)), Some(Ok(String::new())));
    assert_eq!(positional("0", &row(&rec)), Some(Err("Invalid positional parameter: $0".to_string())));
    assert_eq!(positional("line", &row(&rec)), None);
    assert!(text_function_panics("field", &row(&["-2147483648"])));
    assert!(!text_function_panics("field", &row(&["2"])));
}

#[test]
fn text_tests_and_case() {
    assert_eq!(ok("streq", &["AbC", "abc"]), "1");
    assert_eq!(ok("streq", &["ab", "abc"]), "0");
    assert_eq!(ok("isempty", &["  "]), "1");
    assert_eq!(ok("isint", &["12"]), "1");
    assert_eq!(ok("isint", &["1.5"]), "0");
    assert_eq!(ok("trim", &[" x "]), "x");
    assert_eq!(ok("upper", &["abc"]), "ABC");
    assert_eq!(ok("lower", &["ÀB"]), "àb");
}

#[test]
fn date_parts() {
    assert_eq!(ok("day", &["2024-02-29"]), "29");
    assert_eq!(ok("month", &["2024-01-05"]), "1");
    assert_eq!(ok("year", &["2024-01-05"]), "2024");
    assert_eq!(ok("isdate", &["2023-02-29"]), "0");
    assert_eq!(ok("day", &["2023-02-29"]), "");
    assert_eq!(parse_date("1-2-3"), Some((1, 2, 3)));
}

#[test]
fn regular_expressions() {
    assert_eq!(ok("match", &["abc", "^a"]), "1");
    assert_eq!(ok("match", &["abc", "^b"]), "0");
    assert!(call("match", &["abc", "("], &[]).unwrap().err().unwrap().starts_with("Invalid regex in match(): "));
    assert_eq!(call("find", &["^b"], &["a", "b", "bb"]).unwrap().unwrap(), "2");
    assert_eq!(call("find", &["z"], &["a"]).unwrap().unwrap(), "0");
}

#[test]
fn argument_counts_and_other_names() {
    assert_eq!(call("trim", &[], &[]).unwrap().err().unwrap(), "trim() expects 1 argument");
    assert_eq!(call("POS", &["a"], &[]).unwrap().err().unwrap(), "pos() expects 2 arguments");
    assert_eq!(call("substr", &["a"], &[]).unwrap().err().unwrap(), "substr() expects 3 arguments");
    assert!(call("abs", &["1"], &[]).is_none());
    assert!(call("nosuch", &[], &[]).is_none());
}

#[test]
fn eval_options_and_steps() {
    assert!(check_if_options(&vec![true, false, false]).is_ok());
    assert_eq!(
        check_if_options(&vec![true, false, true, false, false]).err().unwrap(),
        "Cannot have consecutive -if options"
    );
    assert_eq!(check_if_options(&vec![false, true]).err().unwrap(), "Need two -e options after -if");
    assert!(if_options_would_panic(&vec![true]));
    assert!(!if_options_would_panic(&vec![false]));
    assert_eq!(next_expression(true, 0, false, true), (1, true));
    assert_eq!(next_expression(true, 0, false, false), (2, false));
    assert_eq!(next_expression(false, 1, true, false), (3, false));
    assert_eq!(next_expression(false, 1, false, false), (2, false));
    let mut r = row(&["a", "b"]);
    set_result(&mut r, 1, "x".to_string());
    assert_eq!(r, row(&["a", "x"]));
    set_result(&mut r, 5, "y".to_string());
    set_result(&mut r, -1, "z".to_string());
    assert_eq!(r, row(&["a", "x", "y", "z"]));
}

#[test]
fn money_layout_and_options() {
    assert_eq!(format_money_text("1234567.89", true, ',', Some('.'), "$", "", "-", 0), "-$1.234.567,89");
    assert_eq!(format_money_text("5.00", false, '.', Some(','), "", "+", "-", 8), "+    5.00");
    assert_eq!(format_money_text("123456.00", false, '.', None, "", "", "-", 0), "123456.00");
    assert_eq!(format_money_text("999.50", false, '.', Some(','), "", "", "-", 0), "999.50");
    assert_eq!(money_options(None, None, None).unwrap(), ('.', Some(','), 0));
    assert_eq!(money_options(Some(","), Some(""), Some("10")).unwrap(), (',', None, 10));
    assert_eq!(money_options(Some("ab"), None, None).err().unwrap(), "Invalid decimal point value");
    assert_eq!(money_options(Some("€"), None, None).err().unwrap(), "Invalid decimal point value");
    assert_eq!(money_options(None, None, Some("x")).err().unwrap(), "Width specified by -w must be integer");
    assert_eq!(money_options(None, None, Some("51")).err().unwrap(), "Invalid width specified by -w: 51");
}

#[test]
fn variables_and_positions() {
    let rec: Vec<String> = vec!["a".to_string(), "b".to_string()];
    let vars: Vec<(String, String)> = vec![
        ("line".to_string(), "3".to_string()),
        ("fields".to_string(), "2".to_string()),
        ("fields".to_string(), "5".to_string()),
    ];
    assert_eq!(variable("2", &rec, &vars).unwrap(), "b");
    assert_eq!(variable("9", &rec, &vars).unwrap(), "");
    assert_eq!(variable("0", &rec, &vars).err().unwrap(), "Invalid positional parameter: $0");
    assert_eq!(variable("line", &rec, &vars).unwrap(), "3");
    assert_eq!(variable("fields", &rec, &vars).unwrap(), "5");
    assert_eq!(variable("nope", &rec, &vars).err().unwrap(), "Unknown variable: $nope");
}
