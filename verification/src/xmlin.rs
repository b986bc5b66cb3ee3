//! Reading rows out of an XML document: the elements whose paths match a
//! record pattern become rows of their attributes and texts, with those of
//! their ancestors in front.
use vstd::prelude::*;
use crate::text::{lit, push_str, split_seq, split_str, string_push, sview, trim, trim_seq};
use crate::xml::{path_matches, should_exclude_path};

verus! {

/// A node of an XML document: an element, a text, or anything else
/// (a comment, a processing instruction).
pub enum XmlNode {
    Elem(XmlElem),
    Text(String),
    Other,
}

/// An element: its name, the values of its attributes in order, and its
/// children.
pub struct XmlElem {
    pub name: String,
    pub attrs: Vec<String>,
    pub children: Vec<XmlNode>,
}

/// A node as a value.
pub enum NodeX {
    Elem(ElemX),
    Text(Seq<char>),
    Other,
}

/// An element as a value.
pub struct ElemX {
    pub name: Seq<char>,
    pub attrs: Seq<Seq<char>>,
    pub children: Seq<NodeX>,
}

/// A node as a value.
pub open spec fn node_x(n: XmlNode) -> NodeX
    decreases n,
{
    match n {
        XmlNode::Elem(e) => NodeX::Elem(elem_x(e)),
        XmlNode::Text(t) => NodeX::Text(t@),
        XmlNode::Other => NodeX::Other,
    }
}

/// An element as a value.
pub open spec fn elem_x(e: XmlElem) -> ElemX
    decreases e,
{
    ElemX { name: e.name@, attrs: sview(e.attrs@), children: nodes_x(e.children@) }
}

/// A list of nodes as values.
pub open spec fn nodes_x(ns: Seq<XmlNode>) -> Seq<NodeX>
    decreases ns,
{
    if ns.len() == 0 {
        seq![]
    } else {
        nodes_x(ns.drop_last()).push(node_x(ns.last()))
    }
}

proof fn lemma_nodes_index(ns: Seq<XmlNode>)
    ensures
        nodes_x(ns).len() == ns.len(),
        forall|j: int| 0 <= j < ns.len() ==> nodes_x(ns)[j] == node_x(#[trigger] ns[j]),
    decreases ns.len(),
{
    if ns.len() > 0 {
        lemma_nodes_index(ns.drop_last());
        assert forall|j: int| 0 <= j < ns.len() implies nodes_x(ns)[j] == node_x(#[trigger] ns[j]) by {
            if j < ns.len() - 1 {
                assert(ns.drop_last()[j] == ns[j]);
            }
        }
    }
}

/// The path of a child element: its parent's path, `@`, its name.
pub open spec fn child_path(path: Seq<char>, name: Seq<char>) -> Seq<char> {
    path + seq!['@'] + name
}

/// Whether `s` starts with `p`.
pub open spec fn has_prefix(s: Seq<char>, p: Seq<char>) -> bool {
    p.len() <= s.len() && s.take(p.len() as int) == p
}

/// Whether a child counts as content: an element, or a text that is not
/// blank.
pub open spec fn is_content(n: NodeX) -> bool {
    match n {
        NodeX::Elem(_) => true,
        NodeX::Text(t) => trim_seq(t).len() > 0,
        NodeX::Other => false,
    }
}

/// Whether an element has neither attributes nor content.
pub open spec fn empty_leaf(e: ElemX) -> bool {
    e.attrs.len() == 0 && !(exists|k: int| 0 <= k < e.children.len() && is_content(#[trigger] e.children[k]))
}

/// Whether a path matches one of the patterns.
pub open spec fn any_match(path: Seq<char>, pats: Seq<Seq<char>>) -> bool {
    exists|k: int| 0 <= k < pats.len() && path_matches(path, #[trigger] pats[k])
}

/// The options of the extraction that the recursion passes down.
pub struct XmlReadOpts {
    pub no_attrib: bool,
    pub no_child: bool,
    pub exclude: Seq<Seq<char>>,
    pub ml_sep: Seq<char>,
}

/// The fields that an element at `path` gives, for the record at
/// `record_path`: nothing when its path is excluded; one empty field when
/// it has neither attributes nor content; else its attribute values
/// (unless `no_attrib`), then its children in order: each run of
/// non-blank texts, trimmed and joined by `ml_sep`, is one field, and a
/// child element adds its own fields. The record's own element
/// (`is_parent` false) descends unless `no_child`; an ancestor descends
/// only into children whose path does not start the record's path.
pub open spec fn elem_fields(
    e: ElemX,
    path: Seq<char>,
    record_path: Seq<char>,
    o: XmlReadOpts,
    is_parent: bool,
) -> Seq<Seq<char>>
    decreases e, 1int, 0int,
{
    if any_match(path, o.exclude) {
        seq![]
    } else if empty_leaf(e) {
        seq![seq![]]
    } else {
        let (fs, buf, have) = kids_fields(
            e,
            path,
            record_path,
            o,
            is_parent,
            e.children.len() as int,
        );
        (if o.no_attrib {
            seq![]
        } else {
            e.attrs
        }) + if have {
            fs.push(buf)
        } else {
            fs
        }
    }
}

/// The fields of the first `k` children of an element, the pending text
/// and whether there is one.
pub open spec fn kids_fields(
    e: ElemX,
    path: Seq<char>,
    record_path: Seq<char>,
    o: XmlReadOpts,
    is_parent: bool,
    k: int,
) -> (Seq<Seq<char>>, Seq<char>, bool)
    decreases e, 0int, k,
{
    if k <= 0 || k > e.children.len() {
        (seq![], seq![], false)
    } else {
        let (fs, buf, have) = kids_fields(e, path, record_path, o, is_parent, k - 1);
        match e.children[k - 1] {
            NodeX::Elem(c) => {
                let (fs1, buf1) = if have {
                    (fs.push(buf), seq![])
                } else {
                    (fs, buf)
                };
                let cp = child_path(path, c.name);
                let sub = if !is_parent && !o.no_child {
                    elem_fields(c, cp, record_path, o, false)
                } else if is_parent && !has_prefix(record_path, cp) {
                    elem_fields(c, cp, record_path, o, true)
                } else {
                    seq![]
                };
                (fs1 + sub, buf1, false)
            },
            NodeX::Text(t) => {
                let tt = trim_seq(t);
                if tt.len() == 0 {
                    (fs, buf, have)
                } else {
                    (
                        fs,
                        (if buf.len() > 0 {
                            buf + o.ml_sep
                        } else {
                            buf
                        }) + tt,
                        true,
                    )
                }
            },
            NodeX::Other => (fs, buf, have),
        }
    }
}


/// The fields of the ancestors of a record, outermost first, each
/// descending only away from the record.
pub open spec fn parent_fields(
    parents: Seq<(ElemX, Seq<char>)>,
    record_path: Seq<char>,
    o: XmlReadOpts,
) -> Seq<Seq<char>>
    decreases parents.len(),
{
    if parents.len() == 0 {
        seq![]
    } else {
        parent_fields(parents.drop_last(), record_path, o) + elem_fields(
            parents.last().0,
            parents.last().1,
            record_path,
            o,
            true,
        )
    }
}

/// The row of a record element at `path` below the ancestors `parents`:
/// its path when `insert_path`, the ancestors' fields unless `no_parent`,
/// then its own fields.
pub open spec fn record_row(
    e: ElemX,
    path: Seq<char>,
    parents: Seq<(ElemX, Seq<char>)>,
    o: XmlReadOpts,
    insert_path: bool,
    no_parent: bool,
) -> Seq<Seq<char>> {
    (if insert_path {
        seq![path]
    } else {
        seq![]
    }) + (if no_parent {
        seq![]
    } else {
        parent_fields(parents, path, o)
    }) + elem_fields(e, path, path, o, false)
}

/// The rows of the element at `path` and below it: one row when its path
/// matches a record pattern, else the rows of its child elements in order.
pub open spec fn walk_rows(
    e: ElemX,
    path: Seq<char>,
    parents: Seq<(ElemX, Seq<char>)>,
    recs: Seq<Seq<char>>,
    o: XmlReadOpts,
    insert_path: bool,
    no_parent: bool,
) -> Seq<Seq<Seq<char>>>
    decreases e, 1int, 0int,
{
    if any_match(path, recs) {
        seq![record_row(e, path, parents, o, insert_path, no_parent)]
    } else {
        walk_kids(e, path, parents, recs, o, insert_path, no_parent, e.children.len() as int)
    }
}

/// The rows below the first `k` children of an element that is not a
/// record.
pub open spec fn walk_kids(
    e: ElemX,
    path: Seq<char>,
    parents: Seq<(ElemX, Seq<char>)>,
    recs: Seq<Seq<char>>,
    o: XmlReadOpts,
    insert_path: bool,
    no_parent: bool,
    k: int,
) -> Seq<Seq<Seq<char>>>
    decreases e, 0int, k,
{
    if k <= 0 || k > e.children.len() {
        seq![]
    } else {
        walk_kids(e, path, parents, recs, o, insert_path, no_parent, k - 1) + match e.children[k
            - 1] {
            NodeX::Elem(c) => walk_rows(
                c,
                child_path(path, c.name),
                parents.push((e, path)),
                recs,
                o,
                insert_path,
                no_parent,
            ),
            _ => seq![],
        }
    }
}

/// The options of the extraction: leave out attributes, leave out the
/// children of a record, the paths to leave out, and the text that joins
/// the lines of a multi-line text.
pub struct XmlReadOptions {
    pub no_attrib: bool,
    pub no_child: bool,
    pub exclude: Vec<String>,
    pub ml_sep: String,
}

/// The options as a value.
pub open spec fn opts_x(o: XmlReadOptions) -> XmlReadOpts {
    XmlReadOpts {
        no_attrib: o.no_attrib,
        no_child: o.no_child,
        exclude: sview(o.exclude@),
        ml_sep: o.ml_sep@,
    }
}

/// Whether a path matches one of the patterns.
fn matches_any(path: &str, pats: &Vec<String>) -> (b: bool)
    ensures
        b == any_match(path@, sview(pats@)),
{
    let r = should_exclude_path(path, pats);
    proof {
        let pv = sview(pats@);
        if r {
            let k = choose|k: int| 0 <= k < pats@.len() && path_matches(path@, #[trigger] pats@[k]@);
            assert(pv[k] == pats@[k]@);
        } else {
            assert forall|k: int| 0 <= k < pv.len() implies !path_matches(path@, #[trigger] pv[k]) by {
                assert(pv[k] == pats@[k]@);
            }
        }
    }
    r
}

/// Whether an element has neither attributes nor content.
fn is_empty_leaf(e: &XmlElem) -> (b: bool)
    ensures
        b == empty_leaf(elem_x(*e)),
{
    proof {
        lemma_nodes_index(e.children@);
    }
    let ghost ex = elem_x(*e);
    if e.attrs.len() > 0 {
        return false;
    }
    let mut k: usize = 0;
    while k < e.children.len()
        invariant
            k <= e.children@.len(),
            ex == elem_x(*e),
            ex.children.len() == e.children@.len(),
            forall|j: int| 0 <= j < e.children@.len() ==> ex.children[j] == node_x(#[trigger] e.children@[j]),
            forall|j: int| 0 <= j < k ==> !is_content(#[trigger] ex.children[j]),
        decreases e.children@.len() - k,
    {
        let content = match &e.children[k] {
            XmlNode::Elem(_) => true,
            XmlNode::Text(t) => trim(t.as_str()).as_str().is_empty() == false,
            XmlNode::Other => false,
        };
        assert(content == is_content(ex.children[k as int]));
        if content {
            return false;
        }
        k += 1;
    }
    true
}

/// Appends the fields that an element gives for a record (see
/// [`elem_fields`]).
fn record_fields(
    e: &XmlElem,
    path: &str,
    record_path: &str,
    o: &XmlReadOptions,
    is_parent: bool,
    out: &mut Vec<String>,
)
    ensures
        sview(final(out)@) == sview(old(out)@) + elem_fields(
            elem_x(*e),
            path@,
            record_path@,
            opts_x(*o),
            is_parent,
        ),
    decreases *e,
{
    let ghost ex = elem_x(*e);
    let ghost ox = opts_x(*o);
    let ghost out0 = sview(out@);
    if matches_any(path, &o.exclude) {
        assert(sview(out@) =~= out0 + elem_fields(ex, path@, record_path@, ox, is_parent));
        return;
    }
    if is_empty_leaf(e) {
        out.push(String::new());
        assert(sview(out@) =~= out0 + elem_fields(ex, path@, record_path@, ox, is_parent));
        return;
    }
    if !o.no_attrib {
        let mut a: usize = 0;
        while a < e.attrs.len()
            invariant
                a <= e.attrs@.len(),
                sview(out@) == out0 + sview(e.attrs@).take(a as int),
            decreases e.attrs@.len() - a,
        {
            let v = lit(e.attrs[a].as_str());
            let ghost vv = v@;
            let ghost b = sview(out@);
            out.push(v);
            assert(sview(out@) =~= b.push(vv));
            assert(sview(e.attrs@).take(a + 1) =~= sview(e.attrs@).take(a as int).push(vv));
            a += 1;
        }
        assert(sview(e.attrs@).take(e.attrs@.len() as int) =~= sview(e.attrs@));
    }
    let ghost out1 = sview(out@);
    assert(out1 == out0 + (if ox.no_attrib {
        seq![]
    } else {
        ex.attrs
    }));
    proof {
        lemma_nodes_index(e.children@);
    }
    let mut buf = String::new();
    let mut have = false;
    let mut k: usize = 0;
    while k < e.children.len()
        invariant
            k <= e.children@.len(),
            ex == elem_x(*e),
            ox == opts_x(*o),
            ex.children.len() == e.children@.len(),
            forall|j: int| 0 <= j < e.children@.len() ==> ex.children[j] == node_x(#[trigger] e.children@[j]),
            kids_fields(ex, path@, record_path@, ox, is_parent, k as int) == (
                sview(out@).skip(out1.len() as int),
                buf@,
                have,
            ),
            sview(out@).len() >= out1.len(),
            sview(out@).take(out1.len() as int) == out1,
        decreases e.children@.len() - k,
    {
        let ghost fs = sview(out@).skip(out1.len() as int);
        match &e.children[k] {
            XmlNode::Elem(c) => {
                if have {
                    let ghost bv = buf@;
                    let ghost b0 = sview(out@);
                    out.push(buf);
                    buf = String::new();
                    have = false;
                    assert(sview(out@) =~= b0.push(bv));
                    assert(sview(out@).skip(out1.len() as int) =~= fs.push(bv));
                }
                let ghost fs1 = sview(out@).skip(out1.len() as int);
                let mut cp = lit(path);
                string_push(&mut cp, '@');
                push_str(&mut cp, c.name.as_str());
                assert(cp@ == child_path(path@, c.name@));
                proof {
                    assert(e.children@[k as int] == XmlNode::Elem(*c));
                    assert(ex.children[k as int] == NodeX::Elem(elem_x(*c)));
                    assert(decreases_to!(*e => e.children));
                    assert(decreases_to!(e.children => e.children@));
                    assert(decreases_to!(e.children@ => e.children@[k as int]));
                    assert(decreases_to!(e.children@[k as int] => *c));
                }
                let ghost b1 = sview(out@);
                if !is_parent && !o.no_child {
                    record_fields(c, cp.as_str(), record_path, o, false, out);
                } else if is_parent && !starts_with(record_path, cp.as_str()) {
                    record_fields(c, cp.as_str(), record_path, o, true, out);
                }
                proof {
                    let sub = sview(out@).skip(b1.len() as int);
                    assert(sview(out@) =~= b1 + sub);
                    assert(sview(out@).skip(out1.len() as int) =~= fs1 + sub);
                }
            },
            XmlNode::Text(t) => {
                let tt = trim(t.as_str());
                if !tt.as_str().is_empty() {
                    if !buf.as_str().is_empty() {
                        push_str(&mut buf, o.ml_sep.as_str());
                    }
                    push_str(&mut buf, tt.as_str());
                    have = true;
                }
            },
            XmlNode::Other => {},
        }
        proof {
            assert(sview(out@).take(out1.len() as int) =~= out1);
        }
        k += 1;
    }
    let ghost fsall = sview(out@).skip(out1.len() as int);
    assert(sview(out@) =~= out1 + fsall);
    assert(kids_fields(ex, path@, record_path@, ox, is_parent, ex.children.len() as int) == (
        fsall,
        buf@,
        have,
    ));
    if have {
        let ghost bv = buf@;
        let ghost b0 = sview(out@);
        out.push(buf);
        assert(sview(out@) =~= b0.push(bv));
        assert(sview(out@) =~= out1 + fsall.push(bv));
    }
    proof {
        assert(!any_match(path@, ox.exclude));
        assert(!empty_leaf(ex));
        assert(sview(out@) =~= out0 + elem_fields(ex, path@, record_path@, ox, is_parent));
    }
}

/// Whether `s` starts with `p`.
fn starts_with(s: &str, p: &str) -> (b: bool)
    ensures
        b == has_prefix(s@, p@),
{
    let a = crate::text::chars_of(s);
    let q = crate::text::chars_of(p);
    if q.len() > a.len() {
        return false;
    }
    let mut k: usize = 0;
    while k < q.len()
        invariant
            a@ == s@,
            q@ == p@,
            q@.len() <= a@.len(),
            k <= q@.len(),
            forall|j: int| 0 <= j < k ==> a@[j] == q@[j],
        decreases q@.len() - k,
    {
        if a[k] != q[k] {
            assert(s@.take(p@.len() as int)[k as int] != p@[k as int]);
            return false;
        }
        k += 1;
    }
    assert(s@.take(p@.len() as int) =~= p@);
    true
}

/// The ancestors of an element, as values.
pub open spec fn parents_x(ps: Seq<&XmlElem>, paths: Seq<Seq<char>>) -> Seq<(ElemX, Seq<char>)> {
    Seq::new(ps.len(), |i: int| (elem_x(*ps[i]), paths[i]))
}

/// Appends the rows of the element at `path` and below it (see
/// [`walk_rows`]); `parents` and `parent_paths` hold its ancestors.
fn walk<'a>(
    e: &'a XmlElem,
    path: &str,
    parents: &mut Vec<&'a XmlElem>,
    parent_paths: &mut Vec<String>,
    recs: &Vec<String>,
    o: &XmlReadOptions,
    insert_path: bool,
    no_parent: bool,
    rows: &mut Vec<Vec<String>>,
)
    requires
        old(parents)@.len() == old(parent_paths)@.len(),
    ensures
        final(parents)@ == old(parents)@,
        sview(final(parent_paths)@) == sview(old(parent_paths)@),
        final(parent_paths)@.len() == old(parent_paths)@.len(),
        crate::rows::rows_view(final(rows)@) == crate::rows::rows_view(old(rows)@) + walk_rows(
            elem_x(*e),
            path@,
            parents_x(old(parents)@, sview(old(parent_paths)@)),
            sview(recs@),
            opts_x(*o),
            insert_path,
            no_parent,
        ),
    decreases *e,
{
    let ghost ex = elem_x(*e);
    let ghost px = parents_x(parents@, sview(parent_paths@));
    let ghost rows0 = crate::rows::rows_view(rows@);
    if matches_any(path, recs) {
        let mut row: Vec<String> = Vec::new();
        if insert_path {
            row.push(lit(path));
        }
        let ghost r0 = sview(row@);
        if !no_parent {
            let mut i: usize = 0;
            assert(px.take(0) =~= seq![]);
            while i < parents.len()
                invariant
                    i <= parents@.len() == parent_paths@.len(),
                    px == parents_x(parents@, sview(parent_paths@)),
                    sview(row@) == r0 + parent_fields(px.take(i as int), path@, opts_x(*o)),
                decreases parents@.len() - i,
            {
                record_fields(parents[i], parent_paths[i].as_str(), path, o, true, &mut row);
                proof {
                    let t = px.take(i + 1);
                    assert(t.drop_last() =~= px.take(i as int));
                    assert(sview(parent_paths@)[i as int] == parent_paths@[i as int]@);
                    assert(t.last() == (elem_x(*parents@[i as int]), parent_paths@[i as int]@));
                }
                i += 1;
            }
            assert(px.take(parents@.len() as int) =~= px);
        }
        record_fields(e, path, path, o, false, &mut row);
        proof {
            if insert_path {
                assert(r0 =~= seq![path@]);
            } else {
                assert(r0 =~= seq![]);
            }
        }
        let ghost rv = sview(row@);
        assert(rv == record_row(ex, path@, px, opts_x(*o), insert_path, no_parent));
        rows.push(row);
        proof {
            crate::rows::lemma_rows_view_push(old(rows)@, rows@.last());
            assert(crate::rows::rows_view(rows@) =~= rows0 + seq![rv]);
        }
        return;
    }
    proof {
        lemma_nodes_index(e.children@);
    }
    let ghost pp0 = sview(parent_paths@);
    parents.push(e);
    parent_paths.push(lit(path));
    assert(sview(parent_paths@) =~= pp0.push(path@));
    let ghost px1 = parents_x(parents@, sview(parent_paths@));
    assert(px1 =~= px.push((ex, path@)));
    let mut k: usize = 0;
    assert(crate::rows::rows_view(rows@) =~= rows0 + walk_kids(
        ex,
        path@,
        px,
        sview(recs@),
        opts_x(*o),
        insert_path,
        no_parent,
        0,
    ));
    while k < e.children.len()
        invariant
            k <= e.children@.len(),
            ex == elem_x(*e),
            ex.children.len() == e.children@.len(),
            forall|j: int| 0 <= j < e.children@.len() ==> ex.children[j] == node_x(#[trigger] e.children@[j]),
            parents@.len() == parent_paths@.len(),
            parents_x(parents@, sview(parent_paths@)) == px.push((ex, path@)),
            parents@ == old(parents)@.push(e),
            parent_paths@.len() == old(parent_paths)@.len() + 1,
            sview(parent_paths@) == sview(old(parent_paths)@).push(path@),
            px == parents_x(old(parents)@, sview(old(parent_paths)@)),
            crate::rows::rows_view(rows@) == rows0 + walk_kids(
                ex,
                path@,
                px,
                sview(recs@),
                opts_x(*o),
                insert_path,
                no_parent,
                k as int,
            ),
        decreases e.children@.len() - k,
    {
        let ghost b = crate::rows::rows_view(rows@);
        match &e.children[k] {
            XmlNode::Elem(c) => {
                let mut cp = lit(path);
                string_push(&mut cp, '@');
                push_str(&mut cp, c.name.as_str());
                proof {
                    assert(e.children@[k as int] == XmlNode::Elem(*c));
                    assert(ex.children[k as int] == NodeX::Elem(elem_x(*c)));
                    assert(decreases_to!(*e => e.children));
                    assert(decreases_to!(e.children => e.children@));
                    assert(decreases_to!(e.children@ => e.children@[k as int]));
                    assert(decreases_to!(e.children@[k as int] => *c));
                }
                let ghost pxk = parents_x(parents@, sview(parent_paths@));
                walk(c, cp.as_str(), parents, parent_paths, recs, o, insert_path, no_parent, rows);
                assert(cp@ == child_path(path@, c.name@));
                assert(parents_x(parents@, sview(parent_paths@)) =~= pxk);
                assert(crate::rows::rows_view(rows@) =~= rows0 + walk_kids(
                    ex,
                    path@,
                    px,
                    sview(recs@),
                    opts_x(*o),
                    insert_path,
                    no_parent,
                    k + 1,
                ));
            },
            XmlNode::Text(_) => {
                assert(crate::rows::rows_view(rows@) =~= b + Seq::<Seq<Seq<char>>>::empty());
            },
            XmlNode::Other => {
                assert(crate::rows::rows_view(rows@) =~= b + Seq::<Seq<Seq<char>>>::empty());
            },
        }
        k += 1;
    }
    let ghost pp = sview(parent_paths@);
    parents.pop();
    parent_paths.pop();
    assert(parents@ =~= old(parents)@);
    assert(sview(parent_paths@) =~= pp.drop_last());
    assert(sview(parent_paths@) =~= sview(old(parent_paths)@));
}

/// The items of a comma-separated list of paths, trimmed.
pub open spec fn path_list(s: Seq<char>) -> Seq<Seq<char>> {
    split_seq(s, ',').map_values(|p: Seq<char>| trim_seq(p))
}

/// The items of a comma-separated list of paths, trimmed.
pub fn parse_path_list(s: &str) -> (r: Vec<String>)
    ensures
        sview(r@) == path_list(s@),
{
    let items = split_str(s, ',');
    let mut r: Vec<String> = Vec::new();
    let mut i: usize = 0;
    while i < items.len()
        invariant
            i <= items@.len(),
            sview(items@) == split_seq(s@, ','),
            sview(r@) == path_list(s@).take(i as int),
        decreases items@.len() - i,
    {
        let t = trim(items[i].as_str());
        let ghost tv = t@;
        let ghost b = sview(r@);
        r.push(t);
        proof {
            assert(sview(items@)[i as int] == items@[i as int]@);
            assert(sview(r@) =~= b.push(tv));
            assert(path_list(s@).take(i + 1) =~= path_list(s@).take(i as int).push(tv));
        }
        i += 1;
    }
    assert(path_list(s@).take(items@.len() as int) =~= path_list(s@));
    r
}

/// The rows that an XML document gives: the elements whose paths match
/// one of `recs` (paths join element names with `@`, a pattern matching a
/// path or its end after an `@`) become rows; see [`walk_rows`].
pub fn xml_rows(
    root: &XmlElem,
    recs: &Vec<String>,
    o: &XmlReadOptions,
    insert_path: bool,
    no_parent: bool,
) -> (rows: Vec<Vec<String>>)
    ensures
        crate::rows::rows_view(rows@) == walk_rows(
            elem_x(*root),
            root.name@,
            seq![],
            sview(recs@),
            opts_x(*o),
            insert_path,
            no_parent,
        ),
{
    let mut parents: Vec<&XmlElem> = Vec::new();
    let mut paths: Vec<String> = Vec::new();
    let mut rows: Vec<Vec<String>> = Vec::new();
    assert(parents_x(parents@, sview(paths@)) =~= seq![]);
    walk(root, root.name.as_str(), &mut parents, &mut paths, recs, o, insert_path, no_parent, &mut rows);
    assert(crate::rows::rows_view(rows@) =~= Seq::<Seq<Seq<char>>>::empty() + walk_rows(
        elem_x(*root),
        root.name@,
        seq![],
        sview(recs@),
        opts_x(*o),
        insert_path,
        no_parent,
    ));
    rows
}

/// A `roxmltree` node, carried through the conversion of a document.
#[verifier::external_type_specification]
#[verifier::external_body]
pub struct ExXmlNode<'a, 'input: 'a>(roxmltree::Node<'a, 'input>);

/// What `roxmltree::Document::parse` makes of `text`: its root element,
/// or the message of the error.
pub uninterp spec fn xml_document(text: Seq<char>) -> Result<ElemX, Seq<char>>;

/// The element `node` and everything below it, as the library's model:
/// name, attribute values in order, and children (elements, texts, and
/// anything else).
#[verifier::external_body]
fn node_elem(node: roxmltree::Node) -> (e: XmlElem) {
    let attrs = node.attributes().map(|a| a.value().to_string()).collect();
    let mut children = Vec::new();
    for child in node.children() {
        if child.is_element() {
            children.push(XmlNode::Elem(node_elem(child)));
        } else if child.is_text() {
            children.push(XmlNode::Text(child.text().unwrap_or("").to_string()));
        } else {
            children.push(XmlNode::Other);
        }
    }
    XmlElem { name: node.tag_name().name().to_string(), attrs, children }
}

/// `roxmltree::Document::parse` on `text`: the root element of the
/// document, or the error's message; both are what the parser gives for
/// this text, and nothing more is claimed of them.
#[verifier::external_body]
fn parse_xml_document(text: &str) -> (r: Result<XmlElem, String>)
    ensures
        match xml_document(text@) {
            Ok(e) => r matches Ok(x) && elem_x(x) == e,
            Err(m) => r matches Err(s) && s@ == m,
        },
{
    match roxmltree::Document::parse(text) {
        Ok(doc) => Ok(node_elem(doc.root_element())),
        Err(e) => Err(e.to_string()),
    }
}

/// The rows of the XML document `text` (see [`xml_rows`]), or the error
/// `Failed to parse XML: ` and the parser's message.
pub fn from_xml_rows(
    text: &str,
    recs: &Vec<String>,
    o: &XmlReadOptions,
    insert_path: bool,
    no_parent: bool,
) -> (r: Result<Vec<Vec<String>>, String>)
    ensures
        match xml_document(text@) {
            Ok(e) => r matches Ok(rows) && crate::rows::rows_view(rows@) == walk_rows(
                e,
                e.name,
                seq![],
                sview(recs@),
                opts_x(*o),
                insert_path,
                no_parent,
            ),
            Err(m) => r matches Err(s) && s@ == "Failed to parse XML: "@ + m,
        },
{
    match parse_xml_document(text) {
        Ok(root) => Ok(xml_rows(&root, recs, o, insert_path, no_parent)),
        Err(m) => {
            let mut s = lit("Failed to parse XML: ");
            push_str(&mut s, m.as_str());
            Err(s)
        },
    }
}

} // verus!
