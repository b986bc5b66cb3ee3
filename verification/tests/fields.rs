use rvalues::args::{long_flag, parse_indices};
use rvalues::edit::{edit_field, edit_row, parse_sub};
use rvalues::escape::{html_escape, translate_regex, translate_replacement, unescape_str};
use rvalues::find::{compile_find_patterns, in_text_range, parse_fcount, parse_lengths, FindSpec};
use rvalues::join::{join_setup, make_join_key, row_less, run_file_merge, run_join};
use rvalues::num::{parse_i32, parse_usize, usize_to_string, i64_to_string};
use rvalues::pattern::Pattern;
use rvalues::printf::{
    format_int, format_text, pad_formatted, parse_format, parse_printf_specifier, printf_fields, printf_line,
    FmtType,
};
use rvalues::sortspec::{default_sort_fields, field_order, parse_sort_specs, FieldOrder, SortCmpType, SortDirection, SortField};

fn row(fields: &[&str]) -> Vec<String> {
    fields.iter().map(|s| s.to_string()).collect()
}

#[test]
fn index_lists() {
    assert_eq!(parse_indices("1,3").unwrap(), vec![0, 2]);
    assert_eq!(parse_indices("").unwrap(), Vec::<usize>::new());
    assert!(parse_indices("x").is_err());
}

#[test]
fn numbers_parse_as_rust_does() {
    assert_eq!(parse_i32("-12"), Some(-12));
    assert_eq!(parse_i32("+7"), Some(7));
    assert_eq!(parse_i32("2147483648"), None);
    assert_eq!(parse_i32(""), None);
    assert_eq!(parse_usize("+3"), Some(3));
    assert_eq!(parse_usize("-3"), None);
    assert_eq!(usize_to_string(1204), "1204");
    assert_eq!(i64_to_string(-5), "-5");
}

#[test]
fn substitution_commands_parse() {
    let sc = parse_sub("s/a\\/b/c/gi").unwrap();
    assert_eq!(sc.cmd, 's');
    assert_eq!(sc.from, "a\\/b");
    assert_eq!(sc.to, "c");
    assert_eq!(sc.opts, "gi");
    assert_eq!(parse_sub("").err().unwrap(), "Empty value for edit command");
    assert_eq!(parse_sub("x/a/b/").err().unwrap(), "Invalid value for edit command: x/a/b/");
    assert_eq!(parse_sub("s\\a\\b\\").err().unwrap(), "Invalid value for edit command: s\\a\\b\\");
    assert_eq!(parse_sub("s/a/b").err().unwrap(), "Invalid value for edit command: s/a/b");
    assert_eq!(parse_sub("s,x,y,").unwrap().opts, "");
}

#[test]
fn regex_translation() {
    assert_eq!(translate_regex("\\(a\\)(b)"), "(a)\\(b\\)");
    assert_eq!(translate_replacement("\\1-$\\x"), "$1-$$x");
}

#[test]
fn substitutions_apply_in_order() {
    let subs = vec![parse_sub("s/a/b/").unwrap(), parse_sub("s/B/c/gi").unwrap()];
    assert_eq!(edit_field("aaa", &subs).unwrap(), "caa");
    let first_only = vec![parse_sub("s/a/x/").unwrap()];
    assert_eq!(edit_field("aaa", &first_only).unwrap(), "xaa");
    let groups = vec![parse_sub("s/\\(.\\)-\\(.\\)/\\2-\\1/").unwrap()];
    assert_eq!(edit_field("a-b", &groups).unwrap(), "b-a");
    let bad = vec![parse_sub("s/[/x/").unwrap()];
    let e = edit_field("a", &bad).err().unwrap();
    assert!(e.starts_with("Invalid regex: [: "));
}

#[test]
fn edits_only_touch_selected_columns() {
    let subs = vec![parse_sub("s/a/z/g").unwrap()];
    let r = edit_row(&row(&["aa", "ba", "a"]), &Some(vec![1]), &subs).unwrap();
    assert_eq!(r, row(&["aa", "bz", "a"]));
    let all = edit_row(&row(&["aa", "ba"]), &None, &subs).unwrap();
    assert_eq!(all, row(&["zz", "bz"]));
}

#[test]
fn find_options() {
    assert_eq!(parse_lengths(&row(&["3", "1:4"])).unwrap(), vec![(3, 3), (1, 4)]);
    assert_eq!(parse_lengths(&row(&["4:1"])).err().unwrap(), "Invalid range: 4:1");
    assert_eq!(parse_lengths(&row(&["-1"])).err().unwrap(), "Invalid range: -1");
    assert_eq!(parse_fcount("3").unwrap(), (3, 3));
    assert_eq!(parse_fcount(":5").unwrap(), (0, 5));
    assert_eq!(parse_fcount("2:").unwrap(), (2, i32::MAX));
    assert_eq!(parse_fcount("x").err().unwrap(), "Field counts must be integers for -fc");
    assert_eq!(parse_fcount("5:2").err().unwrap(), "invalid field count specified by -fc");
    assert_eq!(parse_fcount("1:2:3").err().unwrap(), "Invalid field count for -fc flag");
    assert!(in_text_range("b", "a", "c"));
    assert!(!in_text_range("d", "a", "c"));
}

#[test]
fn find_and_remove_rows() {
    let pats = compile_find_patterns(&row(&["^ab"]), &vec![], &row(&["x.y"]), &vec![]).unwrap();
    let spec = FindSpec::new(false, vec![], pats, 0, vec![], None, false).unwrap();
    let hits = vec![false, false];
    assert!(spec.keeps(&row(&["zz", "abc"]), &hits, None));
    assert!(spec.keeps(&row(&["x.y", "q"]), &hits, None));
    assert!(!spec.keeps(&row(&["xzy", "q"]), &hits, None));
    let pats2 = compile_find_patterns(&row(&["^ab"]), &vec![], &vec![], &vec![]).unwrap();
    let remove = FindSpec::new(true, vec![0], pats2, 0, vec![(1, 1)], None, false).unwrap();
    assert!(remove.keeps(&row(&["zz", "abc"]), &hits, None));
    assert!(!remove.keeps(&row(&["abz", "q"]), &hits, None));
    assert!(!remove.keeps(&row(&["z", "q"]), &hits, None));
    let bad = compile_find_patterns(&row(&["("]), &vec![], &vec![], &vec![]);
    assert!(bad.err().unwrap().starts_with("Invalid regex: (: "));
    let none = FindSpec::new(false, vec![], vec![], 0, vec![], None, false);
    assert_eq!(none.err().unwrap(), "Need at least one -e, -r, -l, -fc, -if or -ei flag");
}

#[test]
fn field_count_ranges() {
    let spec = FindSpec::new(false, vec![], vec![], 0, vec![], Some((2, 3)), false).unwrap();
    let hits = vec![false; 4];
    assert!(spec.keeps(&row(&["a", "b"]), &hits, None));
    assert!(!spec.keeps(&row(&["a"]), &hits, None));
    let rspec = FindSpec::new(true, vec![], vec![], 0, vec![], Some((2, 3)), false).unwrap();
    assert!(rspec.keeps(&row(&["a"]), &hits, None));
    assert!(!rspec.keeps(&row(&["a", "b"]), &hits, None));
}

#[test]
fn if_expression_splits_find_and_remove() {
    let find = FindSpec::new(false, vec![], vec![], 0, vec![], None, true).unwrap();
    let remove = FindSpec::new(true, vec![], vec![], 0, vec![], None, true).unwrap();
    let hits = vec![false; 2];
    let r = row(&["a", "b"]);
    assert!(find.keeps(&r, &hits, Some(true)));
    assert!(!remove.keeps(&r, &hits, Some(true)));
    assert!(!find.keeps(&r, &hits, Some(false)));
    assert!(remove.keeps(&r, &hits, Some(false)));
}

#[test]
fn patterns_compile_and_match_literals() {
    assert!(Pattern::new("a(", false).is_err());
    assert!(Pattern::literal("a(", false).is_ok());
}

#[test]
fn join_keys_and_rows() {
    assert_eq!(make_join_key(&row(&["a", "b"]), &vec![1, 5], false), "b\0\0");
    assert_eq!(make_join_key(&row(&["ab"]), &vec![0], true), "AB\0");
    assert_eq!(join_setup("1:2", false, false, 2).unwrap(), vec![(0, 1)]);
    assert_eq!(join_setup("1:2", true, true, 2).err().unwrap(), "Cannot have both outer join and invert flags");
    assert_eq!(join_setup("1", false, false, 2).err().unwrap(), "Invalid join specification: 1");
    assert_eq!(join_setup("x:1", false, false, 2).err().unwrap(), "Invalid column: x");
    assert_eq!(join_setup("1:2", false, false, 1).err().unwrap(), "Need at least two input streams");
    let specs = vec![(0, 0)];
    let rhs = vec![row(&["k1", "r1"]), row(&["k1", "r2"]), row(&["k3", "r3"])];
    let lhs = vec![row(&["k1", "l1"]), row(&["k2", "l2"])];
    let out = run_join(&specs, &rhs, &lhs, false, false, false, false);
    assert_eq!(out, vec![row(&["k1", "l1", "r1"]), row(&["k1", "l1", "r2"])]);
    let outer = run_join(&specs, &rhs, &lhs, true, false, false, true);
    assert_eq!(
        outer,
        vec![row(&["k1", "l1", "k1", "r1"]), row(&["k1", "l1", "k1", "r2"]), row(&["k2", "l2"])]
    );
    let inv = run_join(&specs, &rhs, &lhs, false, true, false, false);
    assert_eq!(inv, vec![row(&["k2", "l2"])]);
}

#[test]
fn printf_format_strings() {
    let fs = parse_format("a%5.2f%%%@%-s").unwrap();
    let kinds: Vec<FmtType> = fs.iter().map(|f| f.type_val).collect();
    assert!(kinds == vec![FmtType::Literal, FmtType::Formatter, FmtType::Literal, FmtType::Ignore, FmtType::Formatter]);
    assert_eq!(fs[1].text, "%5.2f");
    let sp = fs[1].spec.as_ref().unwrap();
    assert_eq!(sp.width, Some(5));
    assert_eq!(sp.precision, Some(2));
    assert_eq!(sp.conv, 'f');
    assert_eq!(fs[4].spec.as_ref().unwrap().flags, "-");
    assert_eq!(parse_format("").err().unwrap(), "Empty format string not allowed");
    assert_eq!(parse_format("%5").err().unwrap(), "Unexpected end of format");
    assert_eq!(parse_format("%y").err().unwrap(), "Invalid conversion type: y");
    let p = parse_printf_specifier("%.d").unwrap();
    assert_eq!(p.precision, Some(0));
    assert_eq!(p.width, None);
    assert!(parse_printf_specifier("x").is_none());
}

#[test]
fn printf_lines() {
    let fs = parse_format("<%s|%@|%s>").unwrap();
    let vals = printf_fields(&fs, &row(&["a", "b", "c"]), &vec![]);
    assert_eq!(vals, row(&["a", "c"]));
    let ordered = printf_fields(&fs, &row(&["a", "b", "c"]), &vec![2, 1, 0]);
    assert_eq!(ordered, row(&["c", "a"]));
    let line = printf_line(&fs, &row(&["x\"y", "z"]), true);
    assert_eq!(line, "<x\"\"y||z>");
    assert_eq!(printf_line(&fs, &row(&["x\"y", "z"]), false), "<x\"y||z>");
}

#[test]
fn sort_field_specs() {
    let f = parse_sort_specs("2:DN,,1").unwrap();
    assert_eq!(f.len(), 2);
    assert_eq!(f[0].index, 1);
    assert!(f[0].direction == SortDirection::Desc);
    assert!(f[0].cmp_type == SortCmpType::Numeric);
    assert!(f[1].direction == SortDirection::Asc && f[1].cmp_type == SortCmpType::Alpha);
    assert!(parse_sort_specs("1:I").unwrap()[0].cmp_type == SortCmpType::NoCase);
    assert_eq!(parse_sort_specs("1:2:3").err().unwrap(), "Invalid field specification: 1:2:3");
    assert_eq!(parse_sort_specs("x").err().unwrap(), "Index in field specification must be integer: x");
    assert_eq!(parse_sort_specs("0").err().unwrap(), "Index must be non-zero in field specification: 0");
    assert_eq!(parse_sort_specs("1:Q").err().unwrap(), "Invalid field parameters: Q");
    assert_eq!(parse_sort_specs("1:ADN").err().unwrap(), "Invalid field parameters: ADN");
    assert_eq!(parse_sort_specs("1:NI").err().unwrap(), "Invalid field parameter combination: NI");
    let d = default_sort_fields();
    assert_eq!(d.len(), 1);
    assert_eq!(d[0].index, 0);
}

#[test]
fn escapes() {
    assert_eq!(html_escape("<a href='x'>&\"</a>"), "&lt;a href=&apos;x&apos;&gt;&amp;&quot;&lt;/a&gt;");
    assert_eq!(unescape_str("a\\tb"), "a\tb");
}

#[test]
fn printf_padding_text_and_integers() {
    assert_eq!(pad_formatted("12", Some(5), false, true, Some('-')), "-0012");
    assert_eq!(pad_formatted("12", Some(5), true, false, Some('-')), "-12  ");
    assert_eq!(pad_formatted("12", Some(5), false, false, Some('-')), "  -12");
    assert_eq!(pad_formatted("123456", Some(3), false, false, None), "123456");
    assert_eq!(format_text("hello", Some(3), Some(5), false), "  hel");
    assert_eq!(format_text("hello", Some(3), Some(5), true), "hel  ");
    assert_eq!(format_text("hé", None, Some(4), false), " hé");
    assert_eq!(format_int('x', 255, false, None, None, false, false, false, false), "ff");
    assert_eq!(format_int('X', 255, false, None, None, false, false, false, false), "FF");
    assert_eq!(format_int('o', 8, false, None, None, false, false, false, false), "10");
    assert_eq!(format_int('d', -5, true, Some(3), None, false, false, false, false), "-005");
    assert_eq!(format_int('u', -1, true, None, None, false, false, false, false), "4294967295");
    assert_eq!(format_int('c', 65, false, None, None, false, false, false, false), "A");
    assert_eq!(format_int('d', 5, false, None, None, false, false, true, false), "+5");
    assert_eq!(format_int('i', 5, false, None, Some(3), false, false, false, true), "  5");
    assert_eq!(format_int('d', 0, true, None, None, false, false, false, false), "-0");
}

#[test]
fn sort_field_orders() {
    let r = |fs: &[&str]| fs.iter().map(|s| s.to_string()).collect::<Vec<String>>();
    let alpha = SortField { index: 0, direction: SortDirection::Asc, cmp_type: SortCmpType::Alpha };
    let desc = SortField { index: 0, direction: SortDirection::Desc, cmp_type: SortCmpType::Alpha };
    let nocase = SortField { index: 1, direction: SortDirection::Asc, cmp_type: SortCmpType::NoCase };
    let num = SortField { index: 0, direction: SortDirection::Asc, cmp_type: SortCmpType::Numeric };
    assert_eq!(field_order(&alpha, &r(&["B"]), &r(&["a"])), FieldOrder::Before);
    assert_eq!(field_order(&desc, &r(&["B"]), &r(&["a"])), FieldOrder::After);
    assert_eq!(field_order(&alpha, &r(&["x"]), &r(&["x"])), FieldOrder::Same);
    assert_eq!(field_order(&nocase, &r(&["1", "ABC"]), &r(&["2", "abc"])), FieldOrder::Same);
    assert_eq!(field_order(&nocase, &r(&["1", "b"]), &r(&["2", "A"])), FieldOrder::After);
    assert_eq!(field_order(&nocase, &r(&["1"]), &r(&["2", "A"])), FieldOrder::Same);
    assert_eq!(field_order(&num, &r(&["10"]), &r(&["9"])), FieldOrder::ByNumber);
}

#[test]
fn index_list_parses_item_by_item() {
    assert_eq!(parse_indices("2,5:3,1").unwrap(), vec![1, 4, 3, 2, 0]);
    assert_eq!(parse_indices("1,x,0").err().unwrap(), "Need integer, not 'x'");
    assert_eq!(parse_indices("1,0,x").err().unwrap(), "Index must be greater than zero, not '0'");
    assert_eq!(parse_indices("0:2").err().unwrap(), "Invalid range: 0:2");
}

#[test]
fn join_refuses_any_bad_item() {
    assert_eq!(join_setup("1:2,0:1", false, false, 2).err().unwrap(), "Invalid join specification: 0:1");
    assert_eq!(join_setup("1:2,0:1", false, false, 1).err().unwrap(), "Invalid join specification: 0:1");
    assert_eq!(join_setup("1:2,3", true, false, 5).err().unwrap(), "Invalid join specification: 3");
}

#[test]
fn merge_of_sorted_inputs_is_sorted_and_complete() {
    let a = vec![row(&["a", "1"]), row(&["c", "2"]), row(&["e", "3"])];
    let b = vec![row(&["b", "4"]), row(&["c", "5"]), row(&["d", "6"])];
    let out = run_file_merge(&vec![0], &vec![a.clone(), b.clone()]);
    assert_eq!(out.len(), 6);
    for w in out.windows(2) {
        assert!(!row_less(&w[1], &w[0], &vec![0]));
    }
    assert_eq!(out[2], row(&["c", "2"]));
    assert_eq!(out[3], row(&["c", "5"]));
    for r in a.iter().chain(b.iter()) {
        assert_eq!(out.iter().filter(|o| *o == r).count(), 1);
    }
}

#[test]
fn single_dash_words_become_long_options() {
    assert_eq!(long_flag("-xy"), "--xy");
    assert_eq!(long_flag("-_a"), "--_a");
    assert_eq!(long_flag("-é1"), "--é1");
    assert_eq!(long_flag("-f"), "-f");
    assert_eq!(long_flag("-1x"), "-1x");
    assert_eq!(long_flag("--xy"), "--xy");
    assert_eq!(long_flag("file.csv"), "file.csv");
    assert_eq!(long_flag("-é"), "--é");
    assert_eq!(long_flag("-a"), "-a");
}

#[test]
fn index_list_examples() {
    for bad in ["0", "x", "1,", "1:2:3", "0:2"] {
        assert!(parse_indices(bad).is_err(), "{}", bad);
    }
    assert_eq!(parse_indices("3:1").unwrap(), vec![2, 1, 0]);
}
