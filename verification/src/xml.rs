//! XML output of rows: the specification file that shapes it (a tree of
//! tags and text nodes, nested by indentation) and the lines it gives.
use vstd::prelude::*;
use vstd::utf8::*;
use crate::num::{parse_usize, spec_parse_usize};
use crate::table::byte_len;
use crate::escape::{html_escape, html_escaped};
use crate::rows::rows_view;
use crate::text::{
    chars_of,
    is_whitespace,
    is_ws,
    lit,
    push_str,
    split_seq,
    split_str,
    string_push,
    sview,
    trim,
    trim_seq,
    trim_start,
    trim_start_seq,
};

verus! {

/// A node of an XML specification: a tag or a text.
pub enum SpecNode {
    Tag(TagSpec),
    Text(TextSpec),
}

/// A tag: its indentation in the specification, its name, the 0-based
/// fields whose values group the rows, its attributes (name and 0-based
/// field) and its children.
pub struct TagSpec {
    pub indent: usize,
    pub name: String,
    pub group: Vec<usize>,
    pub attribs: Vec<(String, usize)>,
    pub children: Vec<SpecNode>,
}

/// A text node: its indentation, its 0-based field, and whether it is
/// written as CDATA.
pub struct TextSpec {
    pub indent: usize,
    pub field: usize,
    pub is_cdata: bool,
}

/// A node of a specification, as a value.
pub enum NodeV {
    Tag(TagV),
    Text(usize, usize, bool),
}

/// A tag of a specification, as a value.
pub struct TagV {
    pub indent: usize,
    pub name: Seq<char>,
    pub group: Seq<usize>,
    pub attribs: Seq<(Seq<char>, usize)>,
    pub children: Seq<NodeV>,
}

/// The attributes as values.
pub open spec fn attribs_v(a: Seq<(String, usize)>) -> Seq<(Seq<char>, usize)> {
    a.map_values(|p: (String, usize)| (p.0@, p.1))
}

/// A node as a value.
pub open spec fn node_v(n: SpecNode) -> NodeV
    decreases n,
{
    match n {
        SpecNode::Tag(t) => NodeV::Tag(tag_v(t)),
        SpecNode::Text(x) => NodeV::Text(x.indent, x.field, x.is_cdata),
    }
}

/// A tag as a value.
pub open spec fn tag_v(t: TagSpec) -> TagV
    decreases t,
{
    TagV {
        indent: t.indent,
        name: t.name@,
        group: t.group@,
        attribs: attribs_v(t.attribs@),
        children: kids_v(t.children@),
    }
}

/// A list of nodes as values.
pub open spec fn kids_v(ks: Seq<SpecNode>) -> Seq<NodeV>
    decreases ks,
{
    if ks.len() == 0 {
        seq![]
    } else {
        kids_v(ks.drop_last()).push(node_v(ks.last()))
    }
}

/// `t` with one more child.
pub open spec fn add_child(t: TagV, c: NodeV) -> TagV {
    TagV { children: t.children.push(c), ..t }
}

proof fn lemma_kids_push(ks: Seq<SpecNode>, c: SpecNode)
    ensures
        kids_v(ks.push(c)) == kids_v(ks).push(node_v(c)),
{
    assert(ks.push(c).drop_last() =~= ks);
}


/// The words of `cs` from `p` on, as `str::split_whitespace` gives them:
/// `cur` is the word being read (`in_word`), `acc` the words read.
pub open spec fn words_run(
    cs: Seq<char>,
    p: int,
    cur: Seq<char>,
    in_word: bool,
    acc: Seq<Seq<char>>,
) -> Seq<Seq<char>>
    decreases cs.len() - p,
{
    if p < 0 || p >= cs.len() {
        if in_word {
            acc.push(cur)
        } else {
            acc
        }
    } else if is_ws(cs[p]) {
        if in_word {
            words_run(cs, p + 1, seq![], false, acc.push(cur))
        } else {
            words_run(cs, p + 1, seq![], false, acc)
        }
    } else {
        words_run(cs, p + 1, cur.push(cs[p]), true, acc)
    }
}

/// The whitespace-separated words of `s`.
pub open spec fn words(s: Seq<char>) -> Seq<Seq<char>> {
    words_run(s, 0, seq![], false, seq![])
}

/// The whitespace-separated words of `s` (`str::split_whitespace`).
pub fn split_words(s: &str) -> (r: Vec<String>)
    ensures
        sview(r@) == words(s@),
{
    let cs = chars_of(s);
    let mut acc: Vec<String> = Vec::new();
    let mut cur = String::new();
    let mut in_word = false;
    let mut i: usize = 0;
    assert(sview(acc@) =~= seq![]);
    while i < cs.len()
        invariant
            i <= cs@.len(),
            cs@ == s@,
            words(s@) == words_run(cs@, i as int, cur@, in_word, sview(acc@)),
            !in_word ==> cur@.len() == 0,
        decreases cs@.len() - i,
    {
        let c = cs[i];
        if is_whitespace(c) {
            if !in_word {
                assert(cur@ =~= seq![]);
            }
            if in_word {
                let ghost before = sview(acc@);
                let ghost cv = cur@;
                acc.push(cur);
                assert(sview(acc@) =~= before.push(cv));
                cur = String::new();
                in_word = false;
            }
        } else {
            string_push(&mut cur, c);
            in_word = true;
        }
        i += 1;
    }
    if in_word {
        let ghost before = sview(acc@);
        let ghost cv = cur@;
        acc.push(cur);
        assert(sview(acc@) =~= before.push(cv));
    }
    acc
}

/// A field number of the specification, 0-based: 1-based, with 0 kept.
pub open spec fn field0(f: usize) -> usize {
    if f > 0 {
        (f - 1) as usize
    } else {
        0
    }
}

/// The fields of a `group` list: its items that are numbers, 0-based.
pub open spec fn group_fields(items: Seq<Seq<char>>) -> Seq<usize>
    decreases items.len(),
{
    if items.len() == 0 {
        seq![]
    } else {
        let v = group_fields(items.drop_last());
        match spec_parse_usize(items.last()) {
            Some(x) => v.push(field0(x)),
            None => v,
        }
    }
}

/// The options of a tag line from word `pos` on: `group` and a field
/// list, or `attrib`, a name and a field; `group` and `attribs` are those
/// read so far.
pub open spec fn tag_opts(
    toks: Seq<Seq<char>>,
    pos: int,
    group: Seq<usize>,
    attribs: Seq<(Seq<char>, usize)>,
) -> Result<(Seq<usize>, Seq<(Seq<char>, usize)>), Seq<char>>
    decreases toks.len() - pos,
{
    if pos < 0 || pos >= toks.len() {
        Ok((group, attribs))
    } else if toks[pos] == "group"@ {
        if pos + 1 >= toks.len() {
            Err("No group fields specified"@)
        } else {
            tag_opts(toks, pos + 2, group_fields(split_seq(toks[pos + 1], ',')), attribs)
        }
    } else if toks[pos] == "attrib"@ {
        if pos + 2 >= toks.len() {
            Err("Invalid attrib spec"@)
        } else {
            match spec_parse_usize(toks[pos + 2]) {
                None => Err("Invalid field index in attrib"@),
                Some(f) => tag_opts(toks, pos + 3, group, attribs.push((toks[pos + 1], field0(f)))),
            }
        }
    } else {
        Err("Invalid token: "@ + toks[pos])
    }
}

/// The indentation of a line: the bytes of its leading whitespace.
pub open spec fn indent_of(line: Seq<char>) -> usize {
    (byte_len(line) - byte_len(trim_start_seq(line))) as usize
}

/// What a line of a specification holds: nothing for a blank or `#` line,
/// a tag (without children yet) or a text node; or its error.
pub open spec fn xml_item(line: Seq<char>) -> Result<Option<NodeV>, Seq<char>> {
    let t = trim_seq(line);
    if t.len() == 0 || t[0] == '#' {
        Ok(None)
    } else {
        let indent = indent_of(line);
        let toks = words(t);
        if toks.len() < 2 {
            Err("Invalid spec line: "@ + t)
        } else if toks[0] == "tag"@ {
            match tag_opts(toks, 2, seq![], seq![]) {
                Err(e) => Err(e),
                Ok((g, a)) => Ok(
                    Some(
                        NodeV::Tag(
                            TagV {
                                indent,
                                name: toks[1],
                                group: g,
                                attribs: a,
                                children: seq![],
                            },
                        ),
                    ),
                ),
            }
        } else if toks[0] == "text"@ || toks[0] == "cdata"@ {
            match spec_parse_usize(toks[1]) {
                None => Err("Field must be integer in text spec"@),
                Some(f) => Ok(Some(NodeV::Text(indent, field0(f), toks[0] == "cdata"@))),
            }
        } else {
            Err("Unknown node type: "@ + toks[0])
        }
    }
}

proof fn lemma_trim_start_bytes(s: Seq<char>)
    ensures
        byte_len(trim_start_seq(s)) <= byte_len(s),
    decreases s.len(),
{
    if s.len() > 0 && is_ws(s[0]) {
        lemma_trim_start_bytes(s.drop_first());
    }
}

/// The fields of a `group` list.
fn parse_group(s: &str) -> (g: Vec<usize>)
    ensures
        g@ == group_fields(split_seq(s@, ',')),
{
    let items = split_str(s, ',');
    let ghost ps = sview(items@);
    let mut g: Vec<usize> = Vec::new();
    let mut i: usize = 0;
    while i < items.len()
        invariant
            i <= items@.len(),
            ps == sview(items@),
            ps == split_seq(s@, ','),
            g@ == group_fields(ps.take(i as int)),
        decreases items@.len() - i,
    {
        proof {
            assert(ps.take(i + 1).drop_last() =~= ps.take(i as int));
            assert(ps.take(i + 1).last() == items@[i as int]@);
        }
        if let Some(x) = parse_usize(items[i].as_str()) {
            g.push(if x > 0 {
                x - 1
            } else {
                0
            });
        }
        i += 1;
    }
    assert(ps.take(items@.len() as int) =~= ps);
    g
}

/// The tag that a tag line describes, or its error.
fn parse_tag_line(toks: &Vec<String>, indent: usize) -> (r: Result<TagSpec, String>)
    requires
        toks@.len() >= 2,
    ensures
        match tag_opts(sview(toks@), 2, seq![], seq![]) {
            Err(e) => r matches Err(m) && m@ == e,
            Ok((g, a)) => r matches Ok(t) && tag_v(t) == (TagV {
                indent,
                name: sview(toks@)[1],
                group: g,
                attribs: a,
                children: seq![],
            }),
        },
{
    let ghost tv = sview(toks@);
    let group_s = lit("group");
    let attrib_s = lit("attrib");
    let mut group: Vec<usize> = Vec::new();
    let mut attribs: Vec<(String, usize)> = Vec::new();
    let mut pos: usize = 2;
    assert(attribs_v(attribs@) =~= seq![]);
    while pos < toks.len()
        invariant
            2 <= pos,
            tv == sview(toks@),
            group_s@ == "group"@,
            attrib_s@ == "attrib"@,
            tag_opts(tv, 2, seq![], seq![]) == tag_opts(tv, pos as int, group@, attribs_v(attribs@)),
        decreases toks@.len() - pos,
    {
        assert(tv[pos as int] == toks@[pos as int]@);
        if toks[pos] == group_s {
            if toks.len() - pos <= 1 {
                return Err(lit("No group fields specified"));
            }
            assert(tv[pos + 1] == toks@[pos + 1]@);
            group = parse_group(toks[pos + 1].as_str());
            pos += 2;
        } else if toks[pos] == attrib_s {
            if toks.len() - pos <= 2 {
                return Err(lit("Invalid attrib spec"));
            }
            assert(tv[pos + 1] == toks@[pos + 1]@);
            assert(tv[pos + 2] == toks@[pos + 2]@);
            match parse_usize(toks[pos + 2].as_str()) {
                None => {
                    return Err(lit("Invalid field index in attrib"));
                },
                Some(f) => {
                    let name = lit(toks[pos + 1].as_str());
                    let ghost before = attribs_v(attribs@);
                    let ghost nv = name@;
                    attribs.push((name, if f > 0 {
                        f - 1
                    } else {
                        0
                    }));
                    assert(attribs_v(attribs@) =~= before.push((nv, field0(f))));
                },
            }
            pos += 3;
        } else {
            let mut m = lit("Invalid token: ");
            push_str(&mut m, toks[pos].as_str());
            return Err(m);
        }
    }
    let name = lit(toks[1].as_str());
    assert(tv[1] == toks@[1]@);
    let t = TagSpec { indent, name, group, attribs, children: Vec::new() };
    assert(kids_v(t.children@) =~= seq![]);
    Ok(t)
}

/// What a line of a specification holds (see [`xml_item`]).
pub fn parse_xml_line(line: &str) -> (r: Result<Option<SpecNode>, String>)
    ensures
        match xml_item(line@) {
            Err(e) => r matches Err(m) && m@ == e,
            Ok(None) => r matches Ok(None),
            Ok(Some(v)) => r matches Ok(Some(n)) && node_v(n) == v,
        },
{
    let t = trim(line);
    let tcs = chars_of(t.as_str());
    if tcs.len() == 0 || tcs[0] == '#' {
        return Ok(None);
    }
    let ts = trim_start(line);
    proof {
        lemma_trim_start_bytes(line@);
    }
    let indent = line.as_bytes().len() - ts.as_str().as_bytes().len();
    let toks = split_words(t.as_str());
    let ghost tv = sview(toks@);
    assert(tv.len() == toks@.len());
    if toks.len() < 2 {
        let mut m = lit("Invalid spec line: ");
        push_str(&mut m, t.as_str());
        return Err(m);
    }
    assert(tv[0] == toks@[0]@);
    assert(tv[1] == toks@[1]@);
    let tag_s = lit("tag");
    let text_s = lit("text");
    let cdata_s = lit("cdata");
    if toks[0] == tag_s {
        match parse_tag_line(&toks, indent) {
            Err(e) => Err(e),
            Ok(tg) => Ok(Some(SpecNode::Tag(tg))),
        }
    } else if toks[0] == text_s || toks[0] == cdata_s {
        let is_cdata = toks[0] == cdata_s;
        match parse_usize(toks[1].as_str()) {
            None => Err(lit("Field must be integer in text spec")),
            Some(f) => Ok(
                Some(
                    SpecNode::Text(
                        TextSpec {
                            indent,
                            field: if f > 0 {
                                f - 1
                            } else {
                                0
                            },
                            is_cdata,
                        },
                    ),
                ),
            ),
        }
    } else {
        let mut m = lit("Unknown node type: ");
        push_str(&mut m, toks[0].as_str());
        Err(m)
    }
}

/// The open tags, as values.
pub open spec fn stack_v(s: Seq<TagSpec>) -> Seq<TagV> {
    s.map_values(|t: TagSpec| tag_v(t))
}

/// The stack of open tags once those at least `indent` deep are closed,
/// each becoming the last child of the tag below it; closing the root
/// empties the stack.
pub open spec fn pop_deeper(stack: Seq<TagV>, indent: int) -> Seq<TagV>
    decreases stack.len(),
{
    if stack.len() > 0 && stack.last().indent >= indent {
        let child = stack.last();
        let rest = stack.drop_last();
        if rest.len() > 0 {
            pop_deeper(rest.update(rest.len() - 1, add_child(rest.last(), NodeV::Tag(child))), indent)
        } else {
            rest
        }
    } else {
        stack
    }
}

/// The stack of open tags after one more item of the specification: the
/// first tag is the root and must not be indented; a later tag closes the
/// tags at least as deep and opens below the one left, which must exist; a
/// text closes them likewise and becomes a child of the one left.
pub open spec fn xml_step(stack: Seq<TagV>, item: NodeV) -> Result<Seq<TagV>, Seq<char>> {
    match item {
        NodeV::Tag(t) => if stack.len() == 0 {
            if t.indent != 0 {
                Err("Root tag must have 0 indentation"@)
            } else {
                Ok(seq![t])
            }
        } else {
            let s = pop_deeper(stack, t.indent as int);
            if s.len() == 0 {
                Err("Only one root tag allowed"@)
            } else {
                Ok(s.push(t))
            }
        },
        NodeV::Text(ind, _f, _c) => {
            let s = pop_deeper(stack, ind as int);
            if s.len() == 0 {
                Err("Text spec has no parent tag"@)
            } else {
                Ok(s.update(s.len() - 1, add_child(s.last(), item)))
            }
        },
    }
}

/// The stack of open tags after the lines of a specification, or the
/// error of the first bad line.
pub open spec fn xml_fold(lines: Seq<Seq<char>>) -> Result<Seq<TagV>, Seq<char>>
    decreases lines.len(),
{
    if lines.len() == 0 {
        Ok(seq![])
    } else {
        match xml_fold(lines.drop_last()) {
            Err(e) => Err(e),
            Ok(st) => match xml_item(lines.last()) {
                Err(e) => Err(e),
                Ok(None) => Ok(st),
                Ok(Some(it)) => xml_step(st, it),
            },
        }
    }
}

/// The root once every open tag is closed into the one below it.
pub open spec fn collapse(stack: Seq<TagV>) -> TagV
    decreases stack.len(),
{
    if stack.len() <= 1 {
        stack[0]
    } else {
        let child = stack.last();
        let rest = stack.drop_last();
        collapse(rest.update(rest.len() - 1, add_child(rest.last(), NodeV::Tag(child))))
    }
}

/// The tree that a specification describes, or its error.
pub open spec fn spec_parse_xml(content: Seq<char>) -> Result<TagV, Seq<char>> {
    match xml_fold(split_seq(content, '\n')) {
        Err(e) => Err(e),
        Ok(st) => if st.len() == 0 {
            Err("Empty specification file"@)
        } else {
            Ok(collapse(st))
        },
    }
}

/// The indentation of a node of a specification.
pub open spec fn node_indent(n: NodeV) -> int {
    match n {
        NodeV::Tag(t) => t.indent as int,
        NodeV::Text(ind, _f, _c) => ind as int,
    }
}

/// Each child of `t`, and each node below it, is indented deeper than its
/// parent.
pub open spec fn indents_grow(t: TagV) -> bool
    decreases t,
{
    forall|k: int|
        0 <= k < t.children.len() ==> node_indent(#[trigger] t.children[k]) > t.indent && match t.children[k] {
            NodeV::Tag(c) => indents_grow(c),
            NodeV::Text(_i, _f, _c) => true,
        }
}

/// Open tags whose indentation grows from the root, at 0, upwards, each
/// with its nodes deeper than itself.
spec fn stack_ok(st: Seq<TagV>) -> bool {
    &&& forall|i: int| 0 <= i < st.len() ==> indents_grow(#[trigger] st[i])
    &&& forall|i: int, j: int| 0 <= i < j < st.len() ==> (#[trigger] st[i]).indent < (#[trigger] st[j]).indent
    &&& st.len() > 0 ==> st[0].indent == 0
}

proof fn lemma_add_child_grows(t: TagV, c: NodeV)
    requires
        indents_grow(t),
        node_indent(c) > t.indent,
        c matches NodeV::Tag(ct) ==> indents_grow(ct),
    ensures
        indents_grow(add_child(t, c)),
{
    let t2 = add_child(t, c);
    assert forall|k: int| 0 <= k < t2.children.len() implies node_indent(#[trigger] t2.children[k]) > t2.indent
        && match t2.children[k] {
        NodeV::Tag(g) => indents_grow(g),
        NodeV::Text(_i, _f, _c) => true,
    } by {
        if k < t.children.len() {
            assert(t2.children[k] == t.children[k]);
        }
    }
}

proof fn lemma_close_top_ok(st: Seq<TagV>)
    requires
        stack_ok(st),
        st.len() >= 2,
    ensures
        ({
            let rest = st.drop_last();
            let s2 = rest.update(rest.len() - 1, add_child(rest.last(), NodeV::Tag(st.last())));
            &&& stack_ok(s2)
            &&& s2.len() == st.len() - 1
            &&& forall|i: int| 0 <= i < s2.len() ==> (#[trigger] s2[i]).indent == st[i].indent
        }),
{
    let rest = st.drop_last();
    let n = rest.len() - 1;
    assert(st[n] == rest.last());
    lemma_add_child_grows(rest.last(), NodeV::Tag(st.last()));
    let s2 = rest.update(n, add_child(rest.last(), NodeV::Tag(st.last())));
    assert forall|i: int| 0 <= i < s2.len() implies indents_grow(#[trigger] s2[i]) by {
        if i != n {
            assert(s2[i] == st[i]);
        }
    }
    assert forall|i: int, j: int| 0 <= i < j < s2.len() implies (#[trigger] s2[i]).indent < (
    #[trigger] s2[j]).indent by {
        assert(s2[i].indent == st[i].indent);
        assert(s2[j].indent == st[j].indent);
    }
}

proof fn lemma_pop_deeper_ok(st: Seq<TagV>, indent: int)
    requires
        stack_ok(st),
    ensures
        ({
            let s = pop_deeper(st, indent);
            &&& stack_ok(s)
            &&& s.len() <= st.len()
            &&& forall|i: int| 0 <= i < s.len() ==> (#[trigger] s[i]).indent == st[i].indent
            &&& s.len() > 0 ==> s.last().indent < indent
        }),
    decreases st.len(),
{
    if st.len() > 0 && st.last().indent >= indent {
        let rest = st.drop_last();
        if rest.len() > 0 {
            lemma_close_top_ok(st);
            let s2 = rest.update(rest.len() - 1, add_child(rest.last(), NodeV::Tag(st.last())));
            lemma_pop_deeper_ok(s2, indent);
        }
    }
}

proof fn lemma_step_ok(st: Seq<TagV>, item: NodeV)
    requires
        stack_ok(st),
        item matches NodeV::Tag(t) ==> t.children.len() == 0,
        xml_step(st, item) is Ok,
    ensures
        stack_ok(xml_step(st, item)->Ok_0),
{
    match item {
        NodeV::Tag(t) => {
            if st.len() > 0 {
                lemma_pop_deeper_ok(st, t.indent as int);
                let s = pop_deeper(st, t.indent as int);
                let s2 = s.push(t);
                assert forall|i: int| 0 <= i < s2.len() implies indents_grow(#[trigger] s2[i]) by {
                    if i < s.len() {
                        assert(s2[i] == s[i]);
                    }
                }
                assert forall|i: int, j: int| 0 <= i < j < s2.len() implies (#[trigger] s2[i]).indent < (
                #[trigger] s2[j]).indent by {
                    assert(s2[i] == s[i]);
                    if j < s.len() {
                        assert(s2[j] == s[j]);
                    } else {
                        assert(s[i].indent <= s.last().indent);
                    }
                }
                assert(s2[0] == s[0]);
            }
        },
        NodeV::Text(ind, _f, _c) => {
            lemma_pop_deeper_ok(st, ind as int);
            let s = pop_deeper(st, ind as int);
            let n = s.len() - 1;
            lemma_add_child_grows(s.last(), item);
            let s2 = s.update(n, add_child(s.last(), item));
            assert forall|i: int| 0 <= i < s2.len() implies indents_grow(#[trigger] s2[i]) by {
                if i != n {
                    assert(s2[i] == s[i]);
                }
            }
            assert forall|i: int, j: int| 0 <= i < j < s2.len() implies (#[trigger] s2[i]).indent < (
            #[trigger] s2[j]).indent by {
                assert(s2[i].indent == s[i].indent);
                assert(s2[j].indent == s[j].indent);
            }
        },
    }
}

proof fn lemma_item_bare(line: Seq<char>)
    ensures
        xml_item(line) matches Ok(Some(NodeV::Tag(t))) ==> t.children.len() == 0,
{
}

proof fn lemma_fold_ok(lines: Seq<Seq<char>>)
    ensures
        xml_fold(lines) matches Ok(st) ==> stack_ok(st),
    decreases lines.len(),
{
    if lines.len() > 0 {
        lemma_fold_ok(lines.drop_last());
        lemma_item_bare(lines.last());
        if let Ok(st) = xml_fold(lines.drop_last()) {
            if let Ok(Some(it)) = xml_item(lines.last()) {
                if xml_step(st, it) is Ok {
                    lemma_step_ok(st, it);
                }
            }
        }
    }
}

proof fn lemma_collapse_ok(st: Seq<TagV>)
    requires
        stack_ok(st),
        st.len() >= 1,
    ensures
        collapse(st).indent == 0,
        indents_grow(collapse(st)),
    decreases st.len(),
{
    if st.len() > 1 {
        lemma_close_top_ok(st);
        let rest = st.drop_last();
        lemma_collapse_ok(rest.update(rest.len() - 1, add_child(rest.last(), NodeV::Tag(st.last()))));
    }
}

/// The tree that a specification gives has its root at indentation 0,
/// and every node is indented deeper than the tag it stands under.
pub proof fn lemma_spec_tree_indents(content: Seq<char>)
    ensures
        spec_parse_xml(content) matches Ok(root) ==> root.indent == 0 && indents_grow(root),
{
    lemma_fold_ok(split_seq(content, '\n'));
    if let Ok(st) = xml_fold(split_seq(content, '\n')) {
        if st.len() > 0 {
            lemma_collapse_ok(st);
        }
    }
}

/// The first node that the lines of a specification hold, if any.
pub open spec fn first_item(lines: Seq<Seq<char>>) -> Option<NodeV>
    decreases lines.len(),
{
    if lines.len() == 0 {
        None
    } else {
        match first_item(lines.drop_last()) {
            Some(it) => Some(it),
            None => match xml_item(lines.last()) {
                Ok(Some(it)) => Some(it),
                _ => None,
            },
        }
    }
}

/// Two tags agree in all but their children.
pub open spec fn same_tag(a: TagV, b: TagV) -> bool {
    a.indent == b.indent && a.name == b.name && a.group == b.group && a.attribs == b.attribs
}

proof fn lemma_pop_deeper_root(st: Seq<TagV>, indent: int)
    ensures
        pop_deeper(st, indent).len() > 0 ==> same_tag(pop_deeper(st, indent)[0], st[0]),
    decreases st.len(),
{
    if st.len() > 0 && st.last().indent >= indent {
        let rest = st.drop_last();
        if rest.len() > 0 {
            let s2 = rest.update(rest.len() - 1, add_child(rest.last(), NodeV::Tag(st.last())));
            lemma_pop_deeper_root(s2, indent);
            assert(same_tag(s2[0], st[0]));
        }
    }
}

proof fn lemma_fold_root(lines: Seq<Seq<char>>)
    ensures
        xml_fold(lines) matches Ok(st) ==> ((st.len() == 0 <==> first_item(lines) is None) && (st.len() > 0
            ==> (first_item(lines) matches Some(NodeV::Tag(t)) && same_tag(st[0], t)))),
    decreases lines.len(),
{
    if lines.len() > 0 {
        lemma_fold_root(lines.drop_last());
        if let Ok(st) = xml_fold(lines.drop_last()) {
            if let Ok(Some(it)) = xml_item(lines.last()) {
                if st.len() > 0 {
                    match it {
                        NodeV::Tag(t) => {
                            lemma_pop_deeper_root(st, t.indent as int);
                            let s = pop_deeper(st, t.indent as int);
                            if s.len() > 0 {
                                assert(s.push(t)[0] == s[0]);
                            }
                        },
                        NodeV::Text(ind, _f, _c) => {
                            lemma_pop_deeper_root(st, ind as int);
                        },
                    }
                }
            }
        }
    }
}

proof fn lemma_collapse_root(st: Seq<TagV>)
    requires
        st.len() >= 1,
    ensures
        same_tag(collapse(st), st[0]),
    decreases st.len(),
{
    if st.len() > 1 {
        let rest = st.drop_last();
        let s2 = rest.update(rest.len() - 1, add_child(rest.last(), NodeV::Tag(st.last())));
        lemma_collapse_root(s2);
        assert(same_tag(s2[0], st[0]));
    }
}

/// The root of the tree that a specification gives is the tag of its first
/// line that is neither blank nor a comment: same name, grouping fields,
/// attributes and indentation.
pub proof fn lemma_spec_tree_root(content: Seq<char>)
    ensures
        spec_parse_xml(content) matches Ok(root) ==> (first_item(split_seq(content, '\n')) matches Some(
            NodeV::Tag(t),
        ) && same_tag(root, t)),
{
    lemma_fold_root(split_seq(content, '\n'));
    if let Ok(st) = xml_fold(split_seq(content, '\n')) {
        if st.len() > 0 {
            lemma_collapse_root(st);
        }
    }
}

/// A node without its children.
pub open spec fn bare(n: NodeV) -> NodeV {
    match n {
        NodeV::Tag(t) => NodeV::Tag(TagV { children: seq![], ..t }),
        NodeV::Text(i, f, c) => NodeV::Text(i, f, c),
    }
}

/// The nodes of a tree, each without its children, in document order:
/// a tag, then the nodes below it.
pub open spec fn node_pre(n: NodeV) -> Seq<NodeV>
    decreases n, 1int,
{
    match n {
        NodeV::Tag(t) => seq![bare(n)] + kids_pre(t.children),
        NodeV::Text(_i, _f, _c) => seq![n],
    }
}

/// The nodes below a list of children, in document order.
pub open spec fn kids_pre(ks: Seq<NodeV>) -> Seq<NodeV>
    decreases ks, 0int,
{
    if ks.len() == 0 {
        seq![]
    } else {
        kids_pre(ks.drop_last()) + node_pre(ks.last())
    }
}

/// The nodes that the lines of a specification hold, in line order.
pub open spec fn item_nodes(lines: Seq<Seq<char>>) -> Seq<NodeV>
    decreases lines.len(),
{
    if lines.len() == 0 {
        seq![]
    } else {
        item_nodes(lines.drop_last()) + match xml_item(lines.last()) {
            Ok(Some(it)) => seq![it],
            _ => seq![],
        }
    }
}

/// The nodes of the open tags and of what lies below them, in document
/// order.
spec fn stack_pre(st: Seq<TagV>) -> Seq<NodeV>
    decreases st.len(),
{
    if st.len() == 0 {
        seq![]
    } else {
        stack_pre(st.drop_last()) + node_pre(NodeV::Tag(st.last()))
    }
}

proof fn lemma_add_child_pre(t: TagV, c: NodeV)
    ensures
        node_pre(NodeV::Tag(add_child(t, c))) == node_pre(NodeV::Tag(t)) + node_pre(c),
{
    let t2 = add_child(t, c);
    assert(t2.children.drop_last() =~= t.children);
    assert(bare(NodeV::Tag(t2)) == bare(NodeV::Tag(t)));
    assert(kids_pre(t2.children) == kids_pre(t.children) + node_pre(c));
    assert(node_pre(NodeV::Tag(t2)) =~= node_pre(NodeV::Tag(t)) + node_pre(c));
}

proof fn lemma_close_top_pre(st: Seq<TagV>)
    requires
        st.len() >= 2,
    ensures
        ({
            let rest = st.drop_last();
            stack_pre(rest.update(rest.len() - 1, add_child(rest.last(), NodeV::Tag(st.last())))) == stack_pre(st)
        }),
{
    let rest = st.drop_last();
    let s2 = rest.update(rest.len() - 1, add_child(rest.last(), NodeV::Tag(st.last())));
    lemma_add_child_pre(rest.last(), NodeV::Tag(st.last()));
    assert(s2.drop_last() =~= rest.drop_last());
    assert(s2.last() == add_child(rest.last(), NodeV::Tag(st.last())));
    assert(stack_pre(s2) == stack_pre(rest.drop_last()) + node_pre(NodeV::Tag(s2.last())));
    assert(stack_pre(rest) == stack_pre(rest.drop_last()) + node_pre(NodeV::Tag(rest.last())));
    assert(stack_pre(st) == stack_pre(rest) + node_pre(NodeV::Tag(st.last())));
    assert(stack_pre(s2) =~= stack_pre(st));
}

proof fn lemma_pop_deeper_pre(st: Seq<TagV>, indent: int)
    ensures
        pop_deeper(st, indent).len() > 0 ==> stack_pre(pop_deeper(st, indent)) == stack_pre(st),
    decreases st.len(),
{
    if st.len() > 0 && st.last().indent >= indent {
        let rest = st.drop_last();
        if rest.len() > 0 {
            lemma_close_top_pre(st);
            lemma_pop_deeper_pre(rest.update(rest.len() - 1, add_child(rest.last(), NodeV::Tag(st.last()))), indent);
        }
    }
}

proof fn lemma_fold_pre(lines: Seq<Seq<char>>)
    ensures
        xml_fold(lines) matches Ok(st) ==> stack_pre(st) == item_nodes(lines),
    decreases lines.len(),
{
    if lines.len() > 0 {
        lemma_fold_pre(lines.drop_last());
        lemma_item_bare(lines.last());
        if let Ok(st) = xml_fold(lines.drop_last()) {
            if let Ok(Some(it)) = xml_item(lines.last()) {
                match it {
                    NodeV::Tag(t) => {
                        assert(t.children =~= Seq::<NodeV>::empty());
                        assert(bare(it) == it);
                        assert(kids_pre(t.children) =~= Seq::<NodeV>::empty());
                        assert(node_pre(it) =~= seq![it]);
                        if st.len() == 0 {
                            assert(seq![t].drop_last() =~= Seq::<TagV>::empty());
                            assert(stack_pre(seq![t].drop_last()) =~= Seq::<NodeV>::empty());
                            assert(seq![t].last() == t);
                            assert(stack_pre(seq![t]) =~= seq![it]);
                            assert(item_nodes(lines) =~= item_nodes(lines.drop_last()) + seq![it]);
                        } else {
                            lemma_pop_deeper_pre(st, t.indent as int);
                            let s = pop_deeper(st, t.indent as int);
                            if s.len() > 0 {
                                assert(s.push(t).drop_last() =~= s);
                                assert(stack_pre(s.push(t)) =~= stack_pre(s) + seq![it]);
                            }
                        }
                    },
                    NodeV::Text(ind, _f, _c) => {
                        lemma_pop_deeper_pre(st, ind as int);
                        let s = pop_deeper(st, ind as int);
                        if s.len() > 0 {
                            let s2 = s.update(s.len() - 1, add_child(s.last(), it));
                            lemma_add_child_pre(s.last(), it);
                            assert(s2.drop_last() =~= s.drop_last());
                            assert(node_pre(it) =~= seq![it]);
                            assert(stack_pre(s2) =~= stack_pre(s) + seq![it]);
                        }
                    },
                }
            } else {
                assert(item_nodes(lines) =~= item_nodes(lines.drop_last()));
            }
        }
    }
}

proof fn lemma_collapse_pre(st: Seq<TagV>)
    requires
        st.len() >= 1,
    ensures
        node_pre(NodeV::Tag(collapse(st))) == stack_pre(st),
    decreases st.len(),
{
    if st.len() > 1 {
        lemma_close_top_pre(st);
        let rest = st.drop_last();
        lemma_collapse_pre(rest.update(rest.len() - 1, add_child(rest.last(), NodeV::Tag(st.last()))));
    } else {
        assert(st.drop_last() =~= Seq::<TagV>::empty());
        assert(stack_pre(st.drop_last()) =~= Seq::<NodeV>::empty());
        assert(st.last() == st[0]);
        assert(stack_pre(st) =~= node_pre(NodeV::Tag(st[0])));
    }
}

/// The tree that a specification gives holds each node of its lines once,
/// in line order: taken in document order, each without its children, its
/// nodes are those of the lines that are neither blank nor comments.
pub proof fn lemma_spec_tree_lines(content: Seq<char>)
    ensures
        spec_parse_xml(content) matches Ok(root) ==> node_pre(NodeV::Tag(root)) == item_nodes(
            split_seq(content, '\n'),
        ),
{
    lemma_fold_pre(split_seq(content, '\n'));
    if let Ok(st) = xml_fold(split_seq(content, '\n')) {
        if st.len() > 0 {
            lemma_collapse_pre(st);
        }
    }
}

/// Makes the top tag of the stack the last child of the one below it.
fn close_top(stack: &mut Vec<TagSpec>)
    requires
        old(stack)@.len() >= 2,
    ensures
        final(stack)@.len() == old(stack)@.len() - 1,
        stack_v(final(stack)@) == ({
            let st = stack_v(old(stack)@);
            let rest = st.drop_last();
            rest.update(rest.len() - 1, add_child(rest.last(), NodeV::Tag(st.last())))
        }),
{
    let ghost st = stack_v(stack@);
    let child = stack.pop().unwrap();
    let mut parent = stack.pop().unwrap();
    let ghost pc = parent.children@;
    let ghost sv = stack_v(stack@);
    parent.children.push(SpecNode::Tag(child));
    proof {
        lemma_kids_push(pc, SpecNode::Tag(child));
        assert(tag_v(parent) == add_child(st.drop_last().last(), NodeV::Tag(st.last())));
    }
    stack.push(parent);
    proof {
        let rest = st.drop_last();
        assert(stack_v(stack@) =~= rest.update(rest.len() - 1, add_child(rest.last(), NodeV::Tag(st.last()))));
    }
}

/// Closes the open tags at least `indent` deep (see [`pop_deeper`]).
fn pop_deeper_tags(stack: &mut Vec<TagSpec>, indent: usize)
    ensures
        stack_v(final(stack)@) == pop_deeper(stack_v(old(stack)@), indent as int),
{
    while stack.len() > 0 && stack[stack.len() - 1].indent >= indent
        invariant
            pop_deeper(stack_v(old(stack)@), indent as int) == pop_deeper(stack_v(stack@), indent as int),
        decreases stack@.len(),
    {
        if stack.len() >= 2 {
            close_top(stack);
        } else {
            let ghost st = stack_v(stack@);
            stack.pop();
            assert(stack_v(stack@) =~= seq![]);
            assert(pop_deeper(st, indent as int) == Seq::<TagV>::empty());
            assert(pop_deeper(stack_v(stack@), indent as int) =~= Seq::<TagV>::empty());
        }
    }
}

proof fn lemma_fold_err_prefix(lines: Seq<Seq<char>>, k: int)
    requires
        0 <= k <= lines.len(),
        xml_fold(lines.take(k)) is Err,
    ensures
        xml_fold(lines) == xml_fold(lines.take(k)),
    decreases lines.len() - k,
{
    if k == lines.len() {
        assert(lines.take(k) =~= lines);
    } else {
        assert(lines.take(k + 1).drop_last() =~= lines.take(k));
        lemma_fold_err_prefix(lines, k + 1);
    }
}

/// Reads a specification: lines of `tag name [group f,...] [attrib name
/// f]...`, `text f` or `cdata f`, nested by indentation under one root tag;
/// blank and `#` lines are skipped.
pub fn parse_xml_spec(content: &str) -> (r: Result<TagSpec, String>)
    ensures
        match spec_parse_xml(content@) {
            Ok(t) => r matches Ok(x) && tag_v(x) == t,
            Err(e) => r matches Err(m) && m@ == e,
        },
{
    let lines = split_str(content, '\n');
    let ghost ls = sview(lines@);
    let mut stack: Vec<TagSpec> = Vec::new();
    let mut i: usize = 0;
    assert(stack_v(stack@) =~= seq![]);
    while i < lines.len()
        invariant
            i <= lines@.len(),
            ls == sview(lines@),
            ls == split_seq(content@, '\n'),
            xml_fold(ls.take(i as int)) == Ok::<Seq<TagV>, Seq<char>>(stack_v(stack@)),
        decreases lines@.len() - i,
    {
        proof {
            assert(ls.take(i + 1).drop_last() =~= ls.take(i as int));
            assert(ls.take(i + 1).last() == lines@[i as int]@);
        }
        let item = parse_xml_line(lines[i].as_str());
        match item {
            Err(e) => {
                proof {
                    lemma_fold_err_prefix(ls, i + 1);
                }
                return Err(e);
            },
            Ok(None) => {},
            Ok(Some(SpecNode::Tag(t))) => {
                if stack.len() == 0 {
                    if t.indent != 0 {
                        proof {
                            lemma_fold_err_prefix(ls, i + 1);
                        }
                        return Err(lit("Root tag must have 0 indentation"));
                    }
                    stack.push(t);
                    assert(stack_v(stack@) =~= seq![tag_v(t)]);
                } else {
                    pop_deeper_tags(&mut stack, t.indent);
                    if stack.len() == 0 {
                        proof {
                            lemma_fold_err_prefix(ls, i + 1);
                        }
                        return Err(lit("Only one root tag allowed"));
                    }
                    let ghost sv = stack_v(stack@);
                    stack.push(t);
                    assert(stack_v(stack@) =~= sv.push(tag_v(t)));
                }
            },
            Ok(Some(SpecNode::Text(x))) => {
                let ghost xn = node_v(SpecNode::Text(x));
                pop_deeper_tags(&mut stack, x.indent);
                if stack.len() == 0 {
                    proof {
                        lemma_fold_err_prefix(ls, i + 1);
                    }
                    return Err(lit("Text spec has no parent tag"));
                }
                let ghost st = stack_v(stack@);
                let mut parent = stack.pop().unwrap();
                let ghost pc = parent.children@;
                parent.children.push(SpecNode::Text(x));
                proof {
                    lemma_kids_push(pc, SpecNode::Text(x));
                    assert(tag_v(parent) == add_child(st.last(), xn));
                }
                stack.push(parent);
                assert(stack_v(stack@) =~= st.update(st.len() - 1, add_child(st.last(), xn)));
            },
        }
        i += 1;
    }
    assert(ls.take(lines@.len() as int) =~= ls);
    if stack.len() == 0 {
        return Err(lit("Empty specification file"));
    }
    while stack.len() > 1
        invariant
            stack@.len() >= 1,
            xml_fold(ls) matches Ok(st0) && collapse(st0) == collapse(stack_v(stack@)),
        decreases stack@.len(),
    {
        close_top(&mut stack);
    }
    let root = stack.pop().unwrap();
    Ok(root)
}

/// The values of a row at the grouping fields (empty past its end).
pub open spec fn group_key(group: Seq<usize>, row: Seq<Seq<char>>) -> Seq<Seq<char>> {
    group.map_values(|g: usize| if (g as int) < row.len() { row[g as int] } else { seq![] })
}

/// The slices closed so far and the one being filled, after the first `k`
/// rows: a row joins the current slice when its key equals that of the
/// slice's first row, else it starts a new slice.
pub open spec fn slices_run(group: Seq<usize>, rows: Seq<Seq<Seq<char>>>, k: int) -> (
    Seq<Seq<Seq<Seq<char>>>>,
    Seq<Seq<Seq<char>>>,
)
    decreases k,
{
    if k <= 0 {
        (seq![], seq![])
    } else {
        let (done, cur) = slices_run(group, rows, k - 1);
        let row = rows[k - 1];
        if cur.len() == 0 {
            (done, seq![row])
        } else if group_key(group, row) == group_key(group, cur[0]) {
            (done, cur.push(row))
        } else {
            (done.push(cur), seq![row])
        }
    }
}

/// The rows cut into runs of equal group keys; without grouping fields,
/// all rows in one slice.
pub open spec fn slices(group: Seq<usize>, rows: Seq<Seq<Seq<char>>>) -> Seq<Seq<Seq<Seq<char>>>> {
    if group.len() == 0 {
        seq![rows]
    } else {
        let (done, cur) = slices_run(group, rows, rows.len() as int);
        if cur.len() > 0 {
            done.push(cur)
        } else {
            done
        }
    }
}

/// The attributes of a tag, each ` name="value"` with the value of its
/// field in the first row of the slice, escaped (empty past its end).
pub open spec fn attrs_text(attribs: Seq<(Seq<char>, usize)>, first: Seq<Seq<char>>) -> Seq<char>
    decreases attribs.len(),
{
    if attribs.len() == 0 {
        seq![]
    } else {
        let a = attribs.last();
        attrs_text(attribs.drop_last(), first) + seq![' '] + a.0 + seq!['=', '"'] + (if (a.1 as int)
            < first.len() {
            html_escaped(first[a.1 as int])
        } else {
            seq![]
        }) + seq!['"']
    }
}

/// The lines of a text node for the first row of a slice, `pre` being the
/// node's indentation: the field's value (escaped unless CDATA; empty past
/// the row's end) on one line, or a CDATA section over three lines.
pub open spec fn text_lines(
    field: usize,
    is_cdata: bool,
    first: Seq<Seq<char>>,
    pre: Seq<char>,
    ind: Seq<char>,
) -> Seq<Seq<char>> {
    let data = if (field as int) < first.len() {
        if is_cdata {
            first[field as int]
        } else {
            html_escaped(first[field as int])
        }
    } else {
        seq![]
    };
    if is_cdata {
        seq![pre + "<![CDATA["@, pre + ind + data, pre + "]]>"@]
    } else {
        seq![pre + data]
    }
}

/// The opening line of a tag for the first row of its slice: `<name`, the
/// attributes, then ` />` for an empty tag written without end tags, else
/// `>`.
pub open spec fn open_line(t: TagV, first: Seq<Seq<char>>, pre: Seq<char>, end_tags: bool) -> Seq<
    char,
> {
    pre + seq!['<'] + t.name + attrs_text(t.attribs, first) + if t.children.len() == 0
        && !end_tags {
        " />"@
    } else {
        ">"@
    }
}

/// The lines of a tag for the rows `rows`, indented by `pre` (each level
/// adds `ind`): for each slice of the rows, the opening line, then unless
/// the tag is empty and written without end tags, the lines of its
/// children for that slice and the closing line `</name>`.
pub open spec fn tag_lines(
    t: TagV,
    rows: Seq<Seq<Seq<char>>>,
    pre: Seq<char>,
    ind: Seq<char>,
    end_tags: bool,
) -> Seq<Seq<char>>
    decreases t, 2int, 0int,
{
    if rows.len() == 0 {
        seq![]
    } else {
        let sl = slices(t.group, rows);
        slice_lines(t, sl, sl.len() as int, pre, ind, end_tags)
    }
}

/// The lines of a tag for the first `k` slices.
pub open spec fn slice_lines(
    t: TagV,
    sl: Seq<Seq<Seq<Seq<char>>>>,
    k: int,
    pre: Seq<char>,
    ind: Seq<char>,
    end_tags: bool,
) -> Seq<Seq<char>>
    decreases t, 1int, k,
{
    if k <= 0 || k > sl.len() {
        seq![]
    } else {
        let slice = sl[k - 1];
        let first = slice[0];
        let open = seq![open_line(t, first, pre, end_tags)];
        slice_lines(t, sl, k - 1, pre, ind, end_tags) + if t.children.len() == 0 && !end_tags {
            open
        } else {
            open + kids_lines(t, slice, t.children.len() as int, pre + ind, ind, end_tags) + seq![
                pre + "</"@ + t.name + ">"@,
            ]
        }
    }
}

/// The lines of the first `j` children of a tag for a slice, indented by
/// `pre`.
pub open spec fn kids_lines(
    t: TagV,
    slice: Seq<Seq<Seq<char>>>,
    j: int,
    pre: Seq<char>,
    ind: Seq<char>,
    end_tags: bool,
) -> Seq<Seq<char>>
    decreases t, 0int, j,
{
    if j <= 0 || j > t.children.len() {
        seq![]
    } else {
        kids_lines(t, slice, j - 1, pre, ind, end_tags) + match t.children[j - 1] {
            NodeV::Tag(c) => tag_lines(c, slice, pre, ind, end_tags),
            NodeV::Text(_i, f, cd) => text_lines(f, cd, slice[0], pre, ind),
        }
    }
}

/// A copy of a row.
fn copy_row(r: &Vec<String>) -> (c: Vec<String>)
    ensures
        sview(c@) == sview(r@),
{
    let mut c: Vec<String> = Vec::new();
    let mut i: usize = 0;
    while i < r.len()
        invariant
            i <= r@.len(),
            sview(c@) == sview(r@).take(i as int),
        decreases r@.len() - i,
    {
        let ghost before = sview(c@);
        let v = lit(r[i].as_str());
        let ghost vv = v@;
        c.push(v);
        assert(sview(c@) =~= before.push(vv));
        assert(sview(r@).take(i + 1) =~= sview(r@).take(i as int).push(r@[i as int]@));
        i += 1;
    }
    assert(sview(r@).take(r@.len() as int) =~= sview(r@));
    c
}

/// The values of a row at the grouping fields.
fn get_group_key(group: &Vec<usize>, row: &Vec<String>) -> (k: Vec<String>)
    ensures
        sview(k@) == group_key(group@, sview(row@)),
{
    let mut k: Vec<String> = Vec::new();
    let mut i: usize = 0;
    while i < group.len()
        invariant
            i <= group@.len(),
            sview(k@) == group_key(group@, sview(row@)).take(i as int),
        decreases group@.len() - i,
    {
        let g = group[i];
        let v = if g < row.len() {
            assert(sview(row@)[g as int] == row@[g as int]@);
            lit(row[g].as_str())
        } else {
            String::new()
        };
        let ghost vv = v@;
        let ghost before = sview(k@);
        k.push(v);
        assert(sview(k@) =~= before.push(vv));
        assert(group_key(group@, sview(row@)).take(i + 1) =~= group_key(group@, sview(row@)).take(
            i as int,
        ).push(group_key(group@, sview(row@))[i as int]));
        i += 1;
    }
    assert(group_key(group@, sview(row@)).take(group@.len() as int) =~= group_key(
        group@,
        sview(row@),
    ));
    k
}

/// Whether two lists of strings are equal.
fn same_strings(a: &Vec<String>, b: &Vec<String>) -> (r: bool)
    ensures
        r == (sview(a@) == sview(b@)),
{
    if a.len() != b.len() {
        assert(sview(a@).len() != sview(b@).len());
        return false;
    }
    let mut i: usize = 0;
    while i < a.len()
        invariant
            i <= a@.len() == b@.len(),
            forall|j: int| 0 <= j < i ==> a@[j]@ == b@[j]@,
        decreases a@.len() - i,
    {
        if a[i] != b[i] {
            assert(sview(a@)[i as int] != sview(b@)[i as int]);
            return false;
        }
        i += 1;
    }
    assert(sview(a@) =~= sview(b@));
    true
}

/// The slices of the rows for a tag (see [`slices`]).
fn make_slices(group: &Vec<usize>, rows: &Vec<Vec<String>>) -> (sl: Vec<Vec<Vec<String>>>)
    ensures
        sl@.map_values(|s: Vec<Vec<String>>| rows_view(s@)) == slices(group@, rows_view(rows@)),
{
    let ghost rv = rows_view(rows@);
    let mut sl: Vec<Vec<Vec<String>>> = Vec::new();
    if group.len() == 0 {
        let mut all: Vec<Vec<String>> = Vec::new();
        let mut i: usize = 0;
        while i < rows.len()
            invariant
                i <= rows@.len(),
                rv == rows_view(rows@),
                rows_view(all@) == rv.take(i as int),
            decreases rows@.len() - i,
        {
            let c = copy_row(&rows[i]);
            let ghost cv = sview(c@);
            let ghost before = rows_view(all@);
            all.push(c);
            assert(rows_view(all@) =~= before.push(cv));
            assert(rv[i as int] == sview(rows@[i as int]@));
            assert(rv.take(i + 1) =~= rv.take(i as int).push(rv[i as int]));
            i += 1;
        }
        assert(rv.take(rows@.len() as int) =~= rv);
        let ghost av = rows_view(all@);
        sl.push(all);
        assert(sl@.map_values(|s: Vec<Vec<String>>| rows_view(s@)) =~= seq![av]);
        return sl;
    }
    let mut cur: Vec<Vec<String>> = Vec::new();
    let mut last_key: Vec<String> = Vec::new();
    let mut i: usize = 0;
    assert(sl@.map_values(|s: Vec<Vec<String>>| rows_view(s@)) =~= seq![]);
    assert(rows_view(cur@) =~= seq![]);
    while i < rows.len()
        invariant
            i <= rows@.len(),
            group@.len() > 0,
            rv == rows_view(rows@),
            slices_run(group@, rv, i as int) == (
                sl@.map_values(|s: Vec<Vec<String>>| rows_view(s@)),
                rows_view(cur@),
            ),
            cur@.len() > 0 ==> sview(last_key@) == group_key(group@, rows_view(cur@)[0]),
        decreases rows@.len() - i,
    {
        let key = get_group_key(group, &rows[i]);
        assert(rv[i as int] == sview(rows@[i as int]@));
        let ghost done = sl@.map_values(|s: Vec<Vec<String>>| rows_view(s@));
        let ghost cv = rows_view(cur@);
        if cur.len() == 0 {
            cur.push(copy_row(&rows[i]));
            last_key = key;
            assert(rows_view(cur@) =~= seq![rv[i as int]]);
        } else if same_strings(&key, &last_key) {
            cur.push(copy_row(&rows[i]));
            assert(rows_view(cur@) =~= cv.push(rv[i as int]));
        } else {
            let mut fresh: Vec<Vec<String>> = Vec::new();
            fresh.push(copy_row(&rows[i]));
            let old_cur = cur;
            sl.push(old_cur);
            cur = fresh;
            last_key = key;
            assert(sl@.map_values(|s: Vec<Vec<String>>| rows_view(s@)) =~= done.push(cv));
            assert(rows_view(cur@) =~= seq![rv[i as int]]);
        }
        i += 1;
    }
    if cur.len() > 0 {
        let ghost done = sl@.map_values(|s: Vec<Vec<String>>| rows_view(s@));
        let ghost cv = rows_view(cur@);
        sl.push(cur);
        assert(sl@.map_values(|s: Vec<Vec<String>>| rows_view(s@)) =~= done.push(cv));
    }
    sl
}

proof fn lemma_kids_index(ks: Seq<SpecNode>)
    ensures
        kids_v(ks).len() == ks.len(),
        forall|j: int| 0 <= j < ks.len() ==> kids_v(ks)[j] == node_v(#[trigger] ks[j]),
    decreases ks.len(),
{
    if ks.len() > 0 {
        lemma_kids_index(ks.drop_last());
        assert forall|j: int| 0 <= j < ks.len() implies kids_v(ks)[j] == node_v(#[trigger] ks[j]) by {
            if j < ks.len() - 1 {
                assert(ks.drop_last()[j] == ks[j]);
            }
        }
    }
}

proof fn lemma_slices_run_nonempty(group: Seq<usize>, rows: Seq<Seq<Seq<char>>>, k: int)
    requires
        0 <= k <= rows.len(),
    ensures
        (k == 0) == (slices_run(group, rows, k).1.len() == 0),
        forall|i: int|
            0 <= i < slices_run(group, rows, k).0.len() ==> (#[trigger] slices_run(
                group,
                rows,
                k,
            ).0[i]).len() > 0,
    decreases k,
{
    if k > 0 {
        lemma_slices_run_nonempty(group, rows, k - 1);
    }
}

proof fn lemma_slices_nonempty(group: Seq<usize>, rows: Seq<Seq<Seq<char>>>)
    requires
        rows.len() > 0,
    ensures
        forall|i: int| 0 <= i < slices(group, rows).len() ==> (#[trigger] slices(group, rows)[i]).len() > 0,
{
    if group.len() > 0 {
        lemma_slices_run_nonempty(group, rows, rows.len() as int);
        let (done, cur) = slices_run(group, rows, rows.len() as int);
        assert forall|i: int| 0 <= i < slices(group, rows).len() implies (#[trigger] slices(
            group,
            rows,
        )[i]).len() > 0 by {
            if i < done.len() {
                assert(slices(group, rows)[i] == done[i]);
            }
        }
    }
}

/// Appends the attributes of a tag for the first row of a slice.
fn push_attrs(line: &mut String, attribs: &Vec<(String, usize)>, first: &Vec<String>)
    ensures
        final(line)@ == old(line)@ + attrs_text(attribs_v(attribs@), sview(first@)),
{
    let ghost av = attribs_v(attribs@);
    let mut k: usize = 0;
    assert(av.take(0) =~= seq![]);
    assert(old(line)@ + attrs_text(seq![], sview(first@)) =~= old(line)@);
    while k < attribs.len()
        invariant
            k <= attribs@.len(),
            av == attribs_v(attribs@),
            av.len() == attribs@.len(),
            line@ == old(line)@ + attrs_text(av.take(k as int), sview(first@)),
        decreases attribs@.len() - k,
    {
        let name = &attribs[k].0;
        let f = attribs[k].1;
        string_push(line, ' ');
        push_str(line, name.as_str());
        string_push(line, '=');
        string_push(line, '"');
        if f < first.len() {
            assert(sview(first@)[f as int] == first@[f as int]@);
            let v = html_escape(first[f].as_str());
            push_str(line, v.as_str());
        }
        string_push(line, '"');
        proof {
            let t = av.take(k + 1);
            assert(t.drop_last() =~= av.take(k as int));
            assert(t.last() == (name@, f));
            assert(line@ =~= old(line)@ + attrs_text(t, sview(first@)));
        }
        k += 1;
    }
    assert(av.take(attribs@.len() as int) =~= av);
}

/// Appends the lines of a text node for the first row of a slice.
fn push_text_lines(x: &TextSpec, first: &Vec<String>, pre: &str, ind: &str, out: &mut Vec<String>)
    ensures
        sview(final(out)@) == sview(old(out)@) + text_lines(x.field, x.is_cdata, sview(first@), pre@, ind@),
{
    let data = if x.field < first.len() {
        assert(sview(first@)[x.field as int] == first@[x.field as int]@);
        if x.is_cdata {
            lit(first[x.field].as_str())
        } else {
            html_escape(first[x.field].as_str())
        }
    } else {
        String::new()
    };
    let ghost before = sview(out@);
    if x.is_cdata {
        let mut a = lit(pre);
        push_str(&mut a, "<![CDATA[");
        let mut b = lit(pre);
        push_str(&mut b, ind);
        push_str(&mut b, data.as_str());
        let mut c = lit(pre);
        push_str(&mut c, "]]>");
        let ghost (av, bv, cv) = (a@, b@, c@);
        out.push(a);
        out.push(b);
        out.push(c);
        assert(sview(out@) =~= before + seq![av, bv, cv]);
    } else {
        let mut a = lit(pre);
        push_str(&mut a, data.as_str());
        let ghost av = a@;
        out.push(a);
        assert(sview(out@) =~= before + seq![av]);
    }
}

/// Appends the lines of a tag for `rows` (see [`tag_lines`]).
fn xml_lines(
    tag: &TagSpec,
    rows: &Vec<Vec<String>>,
    pre: &str,
    ind: &str,
    end_tags: bool,
    out: &mut Vec<String>,
)
    ensures
        sview(final(out)@) == sview(old(out)@) + tag_lines(
            tag_v(*tag),
            rows_view(rows@),
            pre@,
            ind@,
            end_tags,
        ),
    decreases *tag,
{
    let ghost tv = tag_v(*tag);
    let ghost rv = rows_view(rows@);
    if rows.len() == 0 {
        assert(sview(out@) =~= sview(out@) + tag_lines(tv, rv, pre@, ind@, end_tags));
        return;
    }
    let sl = make_slices(&tag.group, rows);
    let ghost slv = sl@.map_values(|s: Vec<Vec<String>>| rows_view(s@));
    proof {
        lemma_slices_nonempty(tv.group, rv);
        lemma_kids_index(tag.children@);
    }
    let ghost out0 = sview(out@);
    let mut k: usize = 0;
    assert(out0 + slice_lines(tv, slv, 0, pre@, ind@, end_tags) =~= out0);
    while k < sl.len()
        invariant
            k <= sl@.len(),
            tv == tag_v(*tag),
            slv == sl@.map_values(|s: Vec<Vec<String>>| rows_view(s@)),
            slv == slices(tv.group, rv),
            slv.len() == sl@.len(),
            forall|i: int| 0 <= i < slv.len() ==> (#[trigger] slv[i]).len() > 0,
            kids_v(tag.children@).len() == tag.children@.len(),
            forall|j: int|
                0 <= j < tag.children@.len() ==> kids_v(tag.children@)[j] == node_v(
                    #[trigger] tag.children@[j],
                ),
            out0 == sview(old(out)@),
            sview(out@) == out0 + slice_lines(tv, slv, k as int, pre@, ind@, end_tags),
        decreases sl@.len() - k,
    {
        let slice = &sl[k];
        assert(slv[k as int] == rows_view(slice@));
        assert(slice@.len() > 0);
        let first = &slice[0];
        assert(rows_view(slice@)[0] == sview(first@));
        let ghost sv = rows_view(slice@);
        let ghost out1 = sview(out@);
        let mut line = lit(pre);
        string_push(&mut line, '<');
        push_str(&mut line, tag.name.as_str());
        push_attrs(&mut line, &tag.attribs, first);
        if tag.children.len() == 0 && !end_tags {
            push_str(&mut line, " />");
            let ghost lv = line@;
            out.push(line);
            assert(lv == open_line(tv, sv[0], pre@, end_tags));
            assert(sview(out@) =~= out1.push(lv));
        } else {
            push_str(&mut line, ">");
            let ghost lv = line@;
            out.push(line);
            assert(lv == open_line(tv, sv[0], pre@, end_tags));
            assert(sview(out@) =~= out1.push(lv));
            let mut pre2 = lit(pre);
            push_str(&mut pre2, ind);
            let ghost out2 = sview(out@);
            let mut j: usize = 0;
            assert(out2 + kids_lines(tv, sv, 0, pre2@, ind@, end_tags) =~= out2);
            while j < tag.children.len()
                invariant
                    j <= tag.children@.len(),
                    tv == tag_v(*tag),
                    tv.children.len() == tag.children@.len(),
                    forall|i: int|
                        0 <= i < tag.children@.len() ==> tv.children[i] == node_v(
                            #[trigger] tag.children@[i],
                        ),
                    sv == rows_view(slice@),
                    sv.len() > 0,
                    sv[0] == sview(first@),
                    sview(out@) == out2 + kids_lines(tv, sv, j as int, pre2@, ind@, end_tags),
                decreases tag.children@.len() - j,
            {
                let ghost out3 = sview(out@);
                match &tag.children[j] {
                    SpecNode::Tag(c) => {
                        proof {
                            assert(tag.children@[j as int] == SpecNode::Tag(*c));
                            assert(decreases_to!(*tag => tag.children));
                            assert(decreases_to!(tag.children => tag.children@));
                            assert(decreases_to!(tag.children@ => tag.children@[j as int]));
                            assert(decreases_to!(tag.children@[j as int] => *c));
                        }
                        xml_lines(c, slice, pre2.as_str(), ind, end_tags, out);
                        assert(tv.children[j as int] == NodeV::Tag(tag_v(*c)));
                    },
                    SpecNode::Text(x) => {
                        push_text_lines(x, first, pre2.as_str(), ind, out);
                        assert(tv.children[j as int] == NodeV::Text(x.indent, x.field, x.is_cdata));
                    },
                }
                assert(sview(out@) =~= out2 + kids_lines(tv, sv, j + 1, pre2@, ind@, end_tags));
                j += 1;
            }
            let mut close = lit(pre);
            push_str(&mut close, "</");
            push_str(&mut close, tag.name.as_str());
            push_str(&mut close, ">");
            let ghost cv = close@;
            let ghost out4 = sview(out@);
            out.push(close);
            assert(sview(out@) =~= out4.push(cv));
        }
        assert(sview(out@) =~= out0 + slice_lines(tv, slv, k + 1, pre@, ind@, end_tags));
        k += 1;
    }
}

/// The lines of the XML for `rows` shaped by `tag`, at indentation level
/// `indent_level` with `indent_chars` per level; `end_tags` writes empty
/// tags with an end tag rather than as `<name ... />`.
pub fn make_xml(
    tag: &TagSpec,
    rows: &Vec<Vec<String>>,
    indent_level: usize,
    indent_chars: &str,
    end_tags: bool,
) -> (lines: Vec<String>)
    ensures
        sview(lines@) == tag_lines(
            tag_v(*tag),
            rows_view(rows@),
            repeat_text(indent_chars@, indent_level as int),
            indent_chars@,
            end_tags,
        ),
{
    let mut pre = String::new();
    let mut i: usize = 0;
    while i < indent_level
        invariant
            i <= indent_level,
            pre@ == repeat_text(indent_chars@, i as int),
        decreases indent_level - i,
    {
        push_str(&mut pre, indent_chars);
        i += 1;
    }
    let mut out: Vec<String> = Vec::new();
    xml_lines(tag, rows, pre.as_str(), indent_chars, end_tags, &mut out);
    assert(sview(out@) =~= seq![] + tag_lines(
        tag_v(*tag),
        rows_view(rows@),
        pre@,
        indent_chars@,
        end_tags,
    ));
    out
}

/// `s` repeated `n` times.
pub open spec fn repeat_text(s: Seq<char>, n: int) -> Seq<char>
    decreases n,
{
    if n <= 0 {
        seq![]
    } else {
        repeat_text(s, n - 1) + s
    }
}

/// The indentation of one level of XML output: a tab for `tabs`, else as
/// many spaces as the option says (4 when it is not a number).
pub open spec fn xml_indent_text(opt: Seq<char>) -> Seq<char> {
    if opt == "tabs"@ {
        seq!['\t']
    } else {
        crate::table::spaces(
            match spec_parse_usize(opt) {
                Some(n) => n as int,
                None => 4,
            },
        )
    }
}

/// The indentation of one level of XML output (see [`xml_indent_text`]).
pub fn xml_indent(opt: &str) -> (r: String)
    ensures
        r@ == xml_indent_text(opt@),
{
    if lit(opt) == lit("tabs") {
        let mut r = String::new();
        string_push(&mut r, '\t');
        assert(r@ =~= seq!['\t']);
        r
    } else {
        let n = match parse_usize(opt) {
            Some(n) => n,
            None => 4,
        };
        let mut r = String::new();
        let mut i: usize = 0;
        while i < n
            invariant
                i <= n,
                r@ == crate::table::spaces(i as int),
            decreases n - i,
        {
            string_push(&mut r, ' ');
            i += 1;
            assert(r@ =~= crate::table::spaces(i as int));
        }
        r
    }
}

/// The cells of a row of the XHTML table: `<td>value</td>` for each field,
/// escaped.
pub open spec fn td_cells(row: Seq<Seq<char>>) -> Seq<char>
    decreases row.len(),
{
    if row.len() == 0 {
        seq![]
    } else {
        td_cells(row.drop_last()) + "<td>"@ + html_escaped(row.last()) + "</td>"@
    }
}

/// The lines of the XHTML table of the rows (the output without a
/// specification): `<table>`, for each row `<tr>`, its cells one level
/// deeper and `</tr>`, then `</table>`.
pub open spec fn xhtml_lines(rows: Seq<Seq<Seq<char>>>, ind: Seq<char>) -> Seq<Seq<char>>
    decreases rows.len(),
{
    if rows.len() == 0 {
        seq!["<table>"@, "</table>"@]
    } else {
        let prev = xhtml_lines(rows.drop_last(), ind);
        prev.drop_last() + seq![
            ind + "<tr>"@,
            ind + ind + td_cells(rows.last()),
            ind + "</tr>"@,
            "</table>"@,
        ]
    }
}

/// The lines of the XHTML table of the rows (see [`xhtml_lines`]).
pub fn xhtml_table(rows: &Vec<Vec<String>>, ind: &str) -> (lines: Vec<String>)
    ensures
        sview(lines@) == xhtml_lines(rows_view(rows@), ind@),
{
    let ghost rv = rows_view(rows@);
    let mut lines: Vec<String> = Vec::new();
    lines.push(lit("<table>"));
    let mut i: usize = 0;
    assert(rv.take(0) =~= seq![]);
    assert(sview(lines@) =~= xhtml_lines(rv.take(0), ind@).drop_last());
    while i < rows.len()
        invariant
            i <= rows@.len(),
            rv == rows_view(rows@),
            sview(lines@) == xhtml_lines(rv.take(i as int), ind@).drop_last(),
        decreases rows@.len() - i,
    {
        let row = &rows[i];
        assert(rv[i as int] == sview(row@));
        let ghost before = sview(lines@);
        let mut a = lit(ind);
        push_str(&mut a, "<tr>");
        let mut b = lit(ind);
        push_str(&mut b, ind);
        let ghost b0 = b@;
        let mut j: usize = 0;
        assert(sview(row@).take(0) =~= seq![]);
        while j < row.len()
            invariant
                j <= row@.len(),
                b@ == b0 + td_cells(sview(row@).take(j as int)),
            decreases row@.len() - j,
        {
            push_str(&mut b, "<td>");
            let e = html_escape(row[j].as_str());
            push_str(&mut b, e.as_str());
            push_str(&mut b, "</td>");
            proof {
                let t = sview(row@).take(j + 1);
                assert(t.drop_last() =~= sview(row@).take(j as int));
                assert(t.last() == row@[j as int]@);
                assert(b@ =~= b0 + td_cells(t));
            }
            j += 1;
        }
        assert(sview(row@).take(row@.len() as int) =~= sview(row@));
        let mut c = lit(ind);
        push_str(&mut c, "</tr>");
        let ghost (av, bv, cv) = (a@, b@, c@);
        lines.push(a);
        lines.push(b);
        lines.push(c);
        proof {
            let t = rv.take(i + 1);
            assert(t.drop_last() =~= rv.take(i as int));
            assert(t.last() == sview(row@));
            let prev = xhtml_lines(rv.take(i as int), ind@);
            assert(sview(lines@) =~= before + seq![av, bv, cv]);
            assert(xhtml_lines(t, ind@).drop_last() =~= prev.drop_last() + seq![av, bv, cv]);
        }
        i += 1;
    }
    assert(rv.take(rows@.len() as int) =~= rv);
    let ghost before = sview(lines@);
    let t = lit("</table>");
    let ghost tv = t@;
    lines.push(t);
    proof {
        lemma_xhtml_last(rv, ind@);
        assert(sview(lines@) =~= before.push(tv));
        assert(xhtml_lines(rv, ind@) =~= xhtml_lines(rv, ind@).drop_last().push(tv));
    }
    lines
}

proof fn lemma_xhtml_last(rows: Seq<Seq<Seq<char>>>, ind: Seq<char>)
    ensures
        xhtml_lines(rows, ind).len() >= 2,
        xhtml_lines(rows, ind).last() == "</table>"@,
    decreases rows.len(),
{
    if rows.len() > 0 {
        lemma_xhtml_last(rows.drop_last(), ind);
    }
}

/// Whether an element path matches a record or exclusion pattern: it is
/// the pattern, or ends with `@` and the pattern.
pub open spec fn path_matches(path: Seq<char>, pattern: Seq<char>) -> bool {
    path == pattern || (path.len() > pattern.len() && path.skip(path.len() - pattern.len())
        == pattern && path[path.len() - pattern.len() - 1] == '@')
}

/// Whether an element path matches a pattern (see [`path_matches`]).
pub fn matches_path(path: &str, pattern: &str) -> (b: bool)
    ensures
        b == path_matches(path@, pattern@),
{
    let p = chars_of(path);
    let q = chars_of(pattern);
    if p.len() == q.len() {
        let mut k: usize = 0;
        while k < q.len()
            invariant
                p@ == path@,
                q@ == pattern@,
                k <= q@.len() == p@.len(),
                forall|j: int| 0 <= j < k ==> p@[j] == q@[j],
            decreases q@.len() - k,
        {
            if p[k] != q[k] {
                assert(p@[k as int] != q@[k as int]);
                assert(p@ != q@);
                return false;
            }
            k += 1;
        }
        assert(p@ =~= q@);
        return true;
    }
    if p.len() <= q.len() {
        return false;
    }
    let off = p.len() - q.len();
    let np = p.len();
    let mut k: usize = 0;
    while k < q.len()
        invariant
            np == p@.len(),
            p@ == path@,
            q@ == pattern@,
            off + q@.len() == p@.len(),
            k <= q@.len(),
            forall|j: int| 0 <= j < k ==> p@[off + j] == q@[j],
        decreases q@.len() - k,
    {
        if p[off + k] != q[k] {
            assert(p@.skip(off as int)[k as int] != q@[k as int]);
            assert(p@.skip(off as int) != q@);
            assert(p@ != q@);
            return false;
        }
        k += 1;
    }
    assert(p@.skip(off as int) =~= q@);
    p[off - 1] == '@'
}

/// Whether an element path matches one of the exclusion patterns.
pub fn should_exclude_path(path: &str, patterns: &Vec<String>) -> (b: bool)
    ensures
        b == exists|k: int| 0 <= k < patterns@.len() && path_matches(path@, #[trigger] patterns@[k]@),
{
    let mut k: usize = 0;
    while k < patterns.len()
        invariant
            k <= patterns@.len(),
            forall|j: int| 0 <= j < k ==> !path_matches(path@, #[trigger] patterns@[j]@),
        decreases patterns@.len() - k,
    {
        if matches_path(path, patterns[k].as_str()) {
            return true;
        }
        k += 1;
    }
    false
}
} // verus!
