use rvalues::table::{
    centre_align, cut_panics, fixed_ruler, left_pad_str, right_pad_str, write_fixed_line,
    write_fixed_panics, AsciiTable,
};
use rvalues::xml::{
    make_xml, matches_path, parse_xml_spec, should_exclude_path, xhtml_table, xml_indent,
    SpecNode, TagSpec,
};

fn row(fields: &[&str]) -> Vec<String> {
    fields.iter().map(|s| s.to_string()).collect()
}

#[test]
fn pads_fit_by_bytes() {
    assert_eq!(left_pad_str("ab", 4), "  ab");
    assert_eq!(right_pad_str("ab", 4), "ab  ");
    assert_eq!(centre_align("ab", 5), " ab  ");
    assert_eq!(right_pad_str("abcdef", 3), "abc");
    assert_eq!(left_pad_str("abcdef", 3), "abc");
    assert_eq!(centre_align("abcdef", 6), "abcdef");
    // "é" is two bytes: it fills a width of 3 with one space.
    assert_eq!(right_pad_str("é", 3), "é ");
}

#[test]
fn cut_inside_a_character_is_detected() {
    assert!(cut_panics("é", 1));
    assert!(!cut_panics("é", 2));
    assert!(!cut_panics("abc", 2));
    assert!(!cut_panics("a", 5));
}

#[test]
fn ascii_table_lines() {
    let mut t = AsciiTable::new();
    t.add_ascii_row(row(&["name", "n"]));
    t.add_ascii_row(row(&["x", "123"]));
    assert_eq!(t.widths, vec![4, 3]);
    let lines = t.render(&vec![1], true, false);
    assert_eq!(
        lines,
        vec![
            "+------+-----+ ".to_string(),
            "| name |  n  |".to_string(),
            "+------+-----+".to_string(),
            "| x    | 123 |".to_string(),
            "+------+-----+".to_string(),
        ]
    );
}

#[test]
fn ascii_table_right_align_and_line_separators() {
    let mut t = AsciiTable::new();
    t.add_ascii_row(row(&["a", "bb"]));
    t.add_ascii_row(row(&["ccc"]));
    let lines = t.render(&vec![0], false, true);
    assert_eq!(
        lines,
        vec![
            "+-----+----+ ".to_string(),
            "|   a | bb |".to_string(),
            "+-----+----+".to_string(),
            "| ccc |    |".to_string(),
            "+-----+----+".to_string(),
        ]
    );
}

#[test]
fn empty_ascii_table_has_no_lines() {
    let t = AsciiTable::new();
    assert!(t.render(&vec![], false, false).is_empty());
}

#[test]
fn fixed_width_records() {
    let specs = vec![(2, 3), (1, 2), (5, 2)];
    let r = row(&["a", "bcdef"]);
    assert!(!write_fixed_panics(&r, &specs));
    assert_eq!(write_fixed_line(&r, &specs), "bcda   ");
    let ruler = fixed_ruler();
    assert_eq!(ruler.len(), 80);
    assert!(ruler.starts_with("123456789 123456789 "));
    assert!(write_fixed_panics(&row(&["é"]), &vec![(1, 1)]));
}

#[test]
fn xml_spec_parses_into_a_tree() {
    let spec = "tag people\n  tag person group 1 attrib id 1\n    text 2\n  # note\n    cdata 3\n";
    let root = parse_xml_spec(spec).unwrap();
    assert_eq!(root.name, "people");
    assert_eq!(root.indent, 0);
    assert_eq!(root.children.len(), 1);
    match &root.children[0] {
        SpecNode::Tag(p) => {
            assert_eq!(p.name, "person");
            assert_eq!(p.group, vec![0]);
            assert_eq!(p.attribs.len(), 1);
            assert_eq!(p.attribs[0].0, "id");
            assert_eq!(p.attribs[0].1, 0);
            assert_eq!(p.children.len(), 2);
            match &p.children[1] {
                SpecNode::Text(t) => {
                    assert_eq!(t.field, 2);
                    assert!(t.is_cdata);
                }
                _ => panic!("expected a text node"),
            }
        }
        _ => panic!("expected a tag"),
    }
}

fn check_indents(t: &TagSpec) {
    for c in &t.children {
        match c {
            SpecNode::Tag(k) => {
                assert!(k.indent > t.indent);
                check_indents(k);
            }
            SpecNode::Text(x) => assert!(x.indent > t.indent),
        }
    }
}

#[test]
fn xml_spec_indents_grow() {
    let spec = "tag a\n    tag b\n      text 1\n  tag c\n   text 0\n";
    let root = parse_xml_spec(spec).unwrap();
    assert_eq!(root.indent, 0);
    check_indents(&root);
    assert_eq!(root.children.len(), 2);
    match &root.children[1] {
        SpecNode::Tag(c) => match &c.children[0] {
            SpecNode::Text(x) => assert_eq!(x.field, 0),
            _ => panic!("expected a text node"),
        },
        _ => panic!("expected a tag"),
    }
}

#[test]
fn xml_spec_errors() {
    assert_eq!(parse_xml_spec("").err().unwrap(), "Empty specification file");
    assert_eq!(parse_xml_spec("  tag a\n").err().unwrap(), "Root tag must have 0 indentation");
    assert_eq!(parse_xml_spec("tag a\ntag b\n").err().unwrap(), "Only one root tag allowed");
    assert_eq!(parse_xml_spec("text 1\n").err().unwrap(), "Text spec has no parent tag");
    assert_eq!(parse_xml_spec("tag\n").err().unwrap(), "Invalid spec line: tag");
    assert_eq!(parse_xml_spec("node a\n").err().unwrap(), "Unknown node type: node");
    assert_eq!(parse_xml_spec("tag a group\n").err().unwrap(), "No group fields specified");
    assert_eq!(parse_xml_spec("tag a attrib x\n").err().unwrap(), "Invalid attrib spec");
    assert_eq!(
        parse_xml_spec("tag a attrib x y\n").err().unwrap(),
        "Invalid field index in attrib"
    );
    assert_eq!(parse_xml_spec("tag a foo\n").err().unwrap(), "Invalid token: foo");
    assert_eq!(
        parse_xml_spec("tag a\n text x\n").err().unwrap(),
        "Field must be integer in text spec"
    );
}

#[test]
fn xml_output_groups_rows() {
    let spec = "tag people\n  tag person group 1 attrib id 1\n    text 2\n";
    let root = parse_xml_spec(spec).unwrap();
    let rows = vec![row(&["1", "a<b"]), row(&["1", "c"]), row(&["2", "d"])];
    let lines = make_xml(&root, &rows, 0, "  ", false);
    assert_eq!(
        lines,
        vec![
            "<people>".to_string(),
            "  <person id=\"1\">".to_string(),
            "    a&lt;b".to_string(),
            "  </person>".to_string(),
            "  <person id=\"2\">".to_string(),
            "    d".to_string(),
            "  </person>".to_string(),
            "</people>".to_string(),
        ]
    );
}

#[test]
fn xml_empty_tags_and_cdata() {
    let root = parse_xml_spec("tag r\n tag e attrib v 2\n tag c\n  cdata 1\n").unwrap();
    let rows = vec![row(&["x&y", "q\"z"])];
    let lines = make_xml(&root, &rows, 1, "\t", false);
    assert_eq!(
        lines,
        vec![
            "\t<r>".to_string(),
            "\t\t<e v=\"q&quot;z\" />".to_string(),
            "\t\t<c>".to_string(),
            "\t\t\t<![CDATA[".to_string(),
            "\t\t\t\tx&y".to_string(),
            "\t\t\t]]>".to_string(),
            "\t\t</c>".to_string(),
            "\t</r>".to_string(),
        ]
    );
    let with_ends = make_xml(&root, &rows, 0, " ", true);
    assert_eq!(with_ends[1], " <e v=\"q&quot;z\">");
    assert_eq!(with_ends[2], " </e>");
    assert!(make_xml(&root, &vec![], 0, " ", true).is_empty());
}

#[test]
fn xhtml_output() {
    let lines = xhtml_table(&vec![row(&["a", "<"])], &xml_indent("2"));
    assert_eq!(
        lines,
        vec![
            "<table>".to_string(),
            "  <tr>".to_string(),
            "    <td>a</td><td>&lt;</td>".to_string(),
            "  </tr>".to_string(),
            "</table>".to_string(),
        ]
    );
    assert_eq!(xml_indent("tabs"), "\t");
    assert_eq!(xml_indent("x"), "    ");
}

#[test]
fn xml_paths() {
    assert!(matches_path("a@b@c", "c"));
    assert!(matches_path("a@b@c", "b@c"));
    assert!(matches_path("a@b", "a@b"));
    assert!(!matches_path("a@bc", "c"));
    assert!(!matches_path("c", "a@c"));
    let pats = vec!["x".to_string(), "b@c".to_string()];
    assert!(should_exclude_path("a@b@c", &pats));
    assert!(!should_exclude_path("a@b", &pats));
}

#[test]
fn ascii_table_lines_align_in_bytes() {
    let mut t = AsciiTable::new();
    t.add_ascii_row(row(&["héllo", "n"]));
    t.add_ascii_row(row(&["x", "1234", "z"]));
    let lines = t.render(&vec![1], true, true);
    let sep = lines[1].len();
    assert_eq!(lines[0].len(), lines[2].len() + 1);
    for l in &lines[1..] {
        assert_eq!(l.len(), sep);
    }
}
