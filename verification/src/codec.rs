//! The executable codec: rendering a tree back to source text.  The
//! result is proved equal, character for character, to the model
//! serializer [`stringify_spec`].

use vstd::prelude::*;
use vstd::string::*;
use crate::model::{
    DtsError, NodeModel, close_pat, dts_header, eq_sep, first_open, height, height_children,
    is_close_line, is_comment, is_open_line, lemma_height_child, lemma_parse_node_bounds,
    load_spec, open_name, parse_items, parse_node, prop_line, prop_of_line, root_name,
    ser_children, ser_lines, ser_props, skip_line, stringify_spec, tabs,
};
use crate::node::{DtbNode, DtbProperty, kids_view, node_view, props_view};
use crate::text::{
    find_pat, has_char_exec, has_pat, lemma_find_at, lemma_unlines_app, lemma_unlines_one,
    line_views, split_to_lines, trim_str, unlines,
};

verus! {

broadcast use
    vstd::seq::group_seq_axioms,
    vstd::std_specs::vec::group_vec_axioms;

/// The views of the string literals the serializer emits.
proof fn lits()
    ensures
        "\t"@ == tabs(1),
        "\n"@ == seq!['\n'],
        " {"@ == seq![' ', '{'],
        " = "@ == eq_sep(),
        ";"@ == seq![';'],
        "};"@ == close_pat(),
        "/dts-v1/;"@ == dts_header(),
        "/"@ == root_name(),
{
    reveal_strlit("\t");
    reveal_strlit("\n");
    reveal_strlit(" {");
    reveal_strlit(" = ");
    reveal_strlit(";");
    reveal_strlit("};");
    reveal_strlit("/dts-v1/;");
    reveal_strlit("/");
    assert("\t"@ =~= tabs(1));
    assert("\n"@ =~= seq!['\n']);
    assert(" {"@ =~= seq![' ', '{']);
    assert(" = "@ =~= eq_sep());
    assert(";"@ =~= seq![';']);
    assert("};"@ =~= close_pat());
    assert("/dts-v1/;"@ =~= dts_header());
    assert("/"@ =~= root_name());
}

/// Appends `n` indentation units to `out`.
fn push_tabs(out: &mut String, n: usize)
    ensures
        final(out)@ == old(out)@ + tabs(n as nat),
{
    let mut k: usize = 0;
    proof {
        assert(old(out)@ + tabs(0) =~= old(out)@);
    }
    while k < n
        invariant
            0 <= k <= n,
            out@ == old(out)@ + tabs(k as nat),
        decreases n - k,
    {
        out.append("\t");
        proof {
            lits();
            assert(tabs((k + 1) as nat) =~= tabs(k as nat) + tabs(1));
        }
        k = k + 1;
    }
}

impl DtbNode {
    /// Renders this subtree as source text at nesting depth `indent`,
    /// emitting the format-version header when this is a root node at
    /// depth 0.  The output is exactly [`stringify_spec`] of the node's
    /// model: properties first, one blank line before the children block,
    /// one blank line between siblings, and a terminated close marker.
    #[verifier::loop_isolation(false)]
    #[verifier::rlimit(60)]
    pub fn stringify(&self, indent: usize) -> (r: String)
        requires
            indent + height(self@) <= usize::MAX,
        ensures
            r@ == stringify_spec(self@, indent as nat),
        decreases *self, 0int,
    {
        let ghost m = self@;
        let ghost d = indent as nat;
        let mut ret = String::new();
        proof {
            lits();
            assert(height(m) == 1 + height_children(m.children));
        }

        let nm = self.node_name.as_str();
        if indent == 0 && nm.unicode_len() == 1 && nm.get_char(0) == '/' {
            ret.append("/dts-v1/;");
            ret.append("\n");
            ret.append("\n");
            proof {
                assert(m.name =~= root_name());
            }
        } else {
            proof {
                if m.name == root_name() && d == 0 {
                    assert(m.name[0] == '/');
                }
            }
        }
        let ghost pre = ret@;

        // node header line
        push_tabs(&mut ret, indent);
        ret.append(nm);
        ret.append(" {");
        ret.append("\n");
        let ghost hline = tabs(d) + m.name + seq![' ', '{'];
        proof {
            lemma_unlines_one(hline);
            assert(ret@ =~= pre + unlines(seq![hline]));
        }

        // property block
        let np = self.properties.len();
        let mut j: usize = 0;
        proof {
            assert(ser_props(m.props.take(0), d + 1) =~~= Seq::<Seq<char>>::empty());
            assert(ret@ =~= pre + unlines(seq![hline]) + unlines(
                ser_props(m.props.take(0), d + 1),
            ));
        }
        while j < np
            invariant
                0 <= j <= np,
                np == m.props.len(),
                np == self.properties@.len(),
                m == self@,
                d == indent as nat,
                ret@ == pre + unlines(seq![hline]) + unlines(ser_props(m.props.take(j as int), d + 1)),
            decreases np - j,
        {
            let ghost before = ret@;
            push_tabs(&mut ret, indent + 1);
            let p = &self.properties[j];
            ret.append(p.key.as_str());
            match &p.value {
                Some(v) => {
                    ret.append(" = ");
                    ret.append(v.as_str());
                },
                None => {},
            }
            ret.append(";");
            ret.append("\n");
            proof {
                lits();
                assert(ret@ =~= before + prop_line(m.props[j as int], d + 1) + seq!['\n']);
                assert(ser_props(m.props.take(j + 1), d + 1) =~~= ser_props(
                    m.props.take(j as int),
                    d + 1,
                ) + seq![prop_line(m.props[j as int], d + 1)]);
                lemma_unlines_app(
                    ser_props(m.props.take(j as int), d + 1),
                    seq![prop_line(m.props[j as int], d + 1)],
                );
                lemma_unlines_one(prop_line(m.props[j as int], d + 1));
            }
            j = j + 1;
        }
        proof {
            assert(m.props.take(np as int) =~= m.props);
        }

        // one blank line separates properties from children
        let ghost sep = if m.children.len() > 0 {
            seq![Seq::<char>::empty()]
        } else {
            Seq::<Seq<char>>::empty()
        };
        if self.child_nodes.len() > 0 {
            ret.append("\n");
        }
        proof {
            lemma_unlines_one(Seq::<char>::empty());
            assert(unlines(sep) =~= if m.children.len() > 0 {
                seq!['\n']
            } else {
                Seq::<char>::empty()
            });
        }

        // children, separated by single blank lines
        proof {
            assert forall|i: int| 0 <= i < m.children.len() implies indent + 1 + height(
                #[trigger] m.children[i],
            ) <= usize::MAX by {
                lemma_height_child(m.children, i);
            }
        }
        let kids = stringify_children(&self.child_nodes, 0, indent + 1);
        ret.append(kids.as_str());
        proof {
            assert(kids_view(self.child_nodes@).skip(0) =~= m.children);
        }

        // close marker
        let ghost before_close = ret@;
        push_tabs(&mut ret, indent);
        ret.append("};");
        ret.append("\n");
        let ghost cline = tabs(d) + close_pat();
        proof {
            lemma_unlines_one(cline);
            assert(ret@ =~= before_close + unlines(seq![cline]));
            let l1 = seq![hline];
            let l2 = ser_props(m.props, d + 1);
            let l4 = ser_children(m.children, d + 1);
            let l5 = seq![cline];
            assert(ser_lines(m, d) == l1 + l2 + sep + l4 + l5);
            lemma_unlines_app(l1 + l2 + sep + l4, l5);
            lemma_unlines_app(l1 + l2 + sep, l4);
            lemma_unlines_app(l1 + l2, sep);
            lemma_unlines_app(l1, l2);
            assert(ret@ =~= pre + unlines(ser_lines(m, d)));
            if m.name == root_name() && d == 0 {
                lemma_unlines_one(Seq::<char>::empty());
                assert(seq![dts_header(), Seq::<char>::empty()].drop_first() =~= seq![
                    Seq::<char>::empty(),
                ]);
                assert(unlines(seq![dts_header(), Seq::<char>::empty()]) =~= dts_header()
                    + seq!['\n'] + seq!['\n']);
                assert(pre =~= unlines(seq![dts_header(), Seq::<char>::empty()]));
                lemma_unlines_app(seq![dts_header(), Seq::<char>::empty()], ser_lines(m, d));
            } else {
                assert(pre =~= Seq::<char>::empty());
            }
        }
        ret
    }
}

/// Renders the children `v[from..]`, separating consecutive siblings
/// with exactly one blank line and no trailing blank line.
fn stringify_children(v: &Vec<Box<DtbNode>>, from: usize, indent: usize) -> (r: String)
    requires
        indent >= 1,
        from <= v@.len(),
        forall|i: int|
            from <= i < v@.len() ==> indent + height(#[trigger] kids_view(v@)[i]) <= usize::MAX,
    ensures
        r@ == unlines(ser_children(kids_view(v@).skip(from as int), indent as nat)),
    decreases *v, v@.len() - from,
{
    let ghost cs = kids_view(v@).skip(from as int);
    if from >= v.len() {
        let r = String::new();
        proof {
            assert(cs =~= Seq::<NodeModel>::empty());
            assert(unlines(ser_children(cs, indent as nat)) == Seq::<char>::empty());
        }
        r
    } else {
        proof {
            assert(indent + height(kids_view(v@)[from as int]) <= usize::MAX);
            assert(kids_view(v@)[from as int] == node_view(*v@[from as int]));
        }
        let first = v[from].stringify(indent);
        if from + 1 == v.len() {
            proof {
                assert(cs =~= seq![kids_view(v@)[from as int]]);
                assert(ser_children(cs, indent as nat) == ser_lines(cs[0], indent as nat));
            }
            first
        } else {
            let mut out = first;
            out.append("\n");
            let rest = stringify_children(v, from + 1, indent);
            out.append(rest.as_str());
            proof {
                lits();
                assert(cs.len() >= 2);
                assert(cs[0] == kids_view(v@)[from as int]);
                assert(cs.drop_first() =~= kids_view(v@).skip(from + 1));
                let a = ser_lines(cs[0], indent as nat);
                let b = seq![Seq::<char>::empty()];
                let c = ser_children(cs.drop_first(), indent as nat);
                assert(ser_children(cs, indent as nat) == a + b + c);
                lemma_unlines_app(a + b, c);
                lemma_unlines_app(a, b);
                lemma_unlines_one(Seq::<char>::empty());
                assert(unlines(b) =~= seq!['\n']);
            }
            out
        }
    }
}

// ---------------------------------------------------------------------
// Parsing.
// ---------------------------------------------------------------------

/// Whether the line's trimmed form starts with the comment marker.
fn is_comment_exec(l: &str) -> (r: bool)
    ensures
        r == is_comment(l@),
{
    let t = trim_str(l);
    t.unicode_len() >= 2 && t.get_char(0) == '/' && t.get_char(1) == '/'
}

/// Whether the line is an open event.
fn is_open_exec(l: &str) -> (r: bool)
    ensures
        r == is_open_line(l@),
{
    has_char_exec(l, '{') && !is_comment_exec(l)
}

/// Whether the line is a close event.
fn is_close_exec(l: &str) -> (r: bool)
    ensures
        r == is_close_line(l@),
{
    proof {
        lits();
        reveal_strlit("};");
    }
    !has_char_exec(l, '{') && has_pat(l, "};") && !is_comment_exec(l)
}

/// Whether the parser passes over the line (blank or comment).
fn is_skip_exec(l: &str) -> (r: bool)
    ensures
        r == skip_line(l@),
{
    trim_str(l).unicode_len() == 0 || is_comment_exec(l)
}

/// The node name on an open line, if its trimmed form ends with `{`.
fn open_name_exec(l: &str) -> (r: Option<String>)
    ensures
        match r {
            Some(name) => open_name(l@) == Some(name@),
            None => open_name(l@) is None,
        },
{
    let t = trim_str(l);
    let n = t.unicode_len();
    if n >= 1 && t.get_char(n - 1) == '{' {
        Some(String::from_str(trim_str(t.substring_char(0, n - 1))))
    } else {
        None
    }
}

/// Classifies a body line as a property, building the owned strings.
fn prop_of_line_exec(l: &str) -> (r: Option<DtbProperty>)
    ensures
        match r {
            Some(p) => prop_of_line(l@) == Some(p@),
            None => prop_of_line(l@) is None,
        },
{
    proof {
        lits();
    }
    let t = trim_str(l);
    let n = t.unicode_len();
    match find_pat(t, " = ", 0) {
        Some(k) => {
            proof {
                lemma_find_at(t@, eq_sep(), 0);
            }
            let key = trim_str(t.substring_char(0, k));
            let kn = key.unicode_len();
            let rest = trim_str(t.substring_char(k + 3, n));
            let rn = rest.unicode_len();
            if rn >= 1 && rest.get_char(rn - 1) == ';' && !(kn >= 2 && key.get_char(kn - 2) == ' '
                && key.get_char(kn - 1) == '=') {
                let value = String::from_str(rest.substring_char(0, rn - 1));
                Some(DtbProperty { key: String::from_str(key), value: Some(value) })
            } else {
                None
            }
        },
        None => {
            if !has_char_exec(t, '=') && n >= 1 && t.get_char(n - 1) == ';' {
                let key = String::from_str(t.substring_char(0, n - 1));
                Some(DtbProperty { key, value: None })
            } else {
                None
            }
        },
    }
}

/// Builds one node from the open event at line `i`, mirroring the model
/// parser [`parse_node`] step for step.
fn parse_node_exec(lines: &Vec<String>, i: usize, fuel: usize) -> (r: Result<
    (DtbNode, usize),
    DtsError,
>)
    ensures
        match r {
            Ok(p) => parse_node(line_views(lines@), i as int, fuel as nat) == Ok::<
                _,
                DtsError,
            >((p.0@, p.1 as int)),
            Err(e) => parse_node(line_views(lines@), i as int, fuel as nat) == Err::<
                (NodeModel, int),
                _,
            >(e),
        },
    decreases fuel, 0int,
{
    let ghost ls = line_views(lines@);
    if i >= lines.len() {
        return Err(DtsError::UnmatchedBracket);
    }
    match open_name_exec(lines[i].as_str()) {
        None => Err(DtsError::MalformedPropertyLine),
        Some(name) => {
            if fuel == 0 {
                Err(DtsError::UnmatchedBracket)
            } else {
                match parse_items_exec(lines, i + 1, fuel - 1) {
                    Ok((props, children, close)) => {
                        let node = DtbNode {
                            node_name: name,
                            properties: props,
                            child_nodes: children,
                        };
                        Ok((node, close))
                    },
                    Err(e) => Err(e),
                }
            }
        },
    }
}

/// Walks a node body from line `i`, mirroring the model parser
/// [`parse_items`] step for step.
fn parse_items_exec(lines: &Vec<String>, i: usize, fuel: usize) -> (r: Result<
    (Vec<DtbProperty>, Vec<Box<DtbNode>>, usize),
    DtsError,
>)
    ensures
        match r {
            Ok(t) => parse_items(line_views(lines@), i as int, fuel as nat) == Ok::<
                _,
                DtsError,
            >((props_view(t.0@), kids_view(t.1@), t.2 as int)),
            Err(e) => parse_items(line_views(lines@), i as int, fuel as nat) == Err::<
                (Seq<crate::model::PropModel>, Seq<NodeModel>, int),
                _,
            >(e),
        },
    decreases fuel, 1int,
{
    let ghost ls = line_views(lines@);
    if i >= lines.len() {
        return Err(DtsError::UnmatchedBracket);
    }
    if fuel == 0 {
        return Err(DtsError::UnmatchedBracket);
    }
    let l = lines[i].as_str();
    if is_open_exec(l) {
        match parse_node_exec(lines, i, fuel) {
            Ok((child, close)) => {
                proof {
                    lemma_parse_node_bounds(ls, i as int, fuel as nat);
                }
                match parse_items_exec(lines, close + 1, fuel - 1) {
                    Ok((props, mut children, end)) => {
                        let ghost old_kids = children@;
                        children.insert(0, Box::new(child));
                        proof {
                            assert(kids_view(children@) =~= seq![child@] + kids_view(old_kids));
                        }
                        Ok((props, children, end))
                    },
                    Err(e) => Err(e),
                }
            },
            Err(e) => Err(e),
        }
    } else if is_close_exec(l) {
        let props: Vec<DtbProperty> = Vec::new();
        let children: Vec<Box<DtbNode>> = Vec::new();
        proof {
            assert(props_view(props@) =~= Seq::<crate::model::PropModel>::empty());
            assert(kids_view(children@) =~= Seq::<NodeModel>::empty());
        }
        Ok((props, children, i))
    } else if is_skip_exec(l) {
        parse_items_exec(lines, i + 1, fuel - 1)
    } else {
        match prop_of_line_exec(l) {
            Some(p) => match parse_items_exec(lines, i + 1, fuel - 1) {
                Ok((mut props, children, end)) => {
                    let ghost old_props = props@;
                    props.insert(0, p);
                    proof {
                        assert(props_view(props@) =~= seq![p@] + props_view(old_props));
                    }
                    Ok((props, children, end))
                },
                Err(e) => Err(e),
            },
            None => Err(DtsError::MalformedPropertyLine),
        }
    }
}

/// Index of the first open event, scanning from the top.
fn find_first_open(lines: &Vec<String>) -> (r: Option<usize>)
    ensures
        match r {
            Some(k) => first_open(line_views(lines@), 0) == Some(k as int),
            None => first_open(line_views(lines@), 0) is None,
        },
{
    let ghost ls = line_views(lines@);
    let n = lines.len();
    let mut k: usize = 0;
    while k < n
        invariant
            0 <= k <= n,
            ls == line_views(lines@),
            n == ls.len(),
            n == lines@.len(),
            first_open(ls, 0) == first_open(ls, k as int),
        decreases n - k,
    {
        proof {
            assert(ls[k as int] == lines@[k as int]@);
        }
        if is_open_exec(lines[k].as_str()) {
            return Some(k);
        }
        proof {
            assert(first_open(ls, k as int) == first_open(ls, k + 1));
        }
        k = k + 1;
    }
    None
}

impl DtbNode {
    /// Parses source text into its root node.  Scans the lines once for
    /// open and close events, then builds the tree recursively from the
    /// first open event; content after the root's matching close is
    /// ignored.  Fails with a distinct error for an unmatched open event,
    /// a malformed body line, or input without any open event.
    pub fn load(content: String) -> (r: Result<DtbNode, DtsError>)
        ensures
            match r {
                Ok(node) => load_spec(content@) == Ok::<_, DtsError>(node@),
                Err(e) => load_spec(content@) == Err::<NodeModel, _>(e),
            },
    {
        let lines = split_to_lines(content.as_str());
        match find_first_open(&lines) {
            None => Err(DtsError::EmptyInput),
            Some(k) => match parse_node_exec(&lines, k, lines.len()) {
                Ok((node, _close)) => Ok(node),
                Err(e) => Err(e),
            },
        }
    }
}

} // verus!
