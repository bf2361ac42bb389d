//! The mathematical model of the device-tree source format: a ghost tree
//! datatype, the serializer written as a function from trees to lines of
//! text, and the parser written as a function from lines of text to trees.
//! The executable codec in [`crate::codec`] is proved equal to these
//! functions.

use vstd::prelude::*;
use crate::text::{trim, is_ws, has_char, contains_seq, find_at, split_lines, unlines};

verus! {

broadcast use vstd::seq::group_seq_axioms;

/// One property: a key with an optional raw value text.
pub struct PropModel {
    pub key: Seq<char>,
    pub value: Option<Seq<char>>,
}

/// One node: a name, ordered properties, ordered children.
pub struct NodeModel {
    pub name: Seq<char>,
    pub props: Seq<PropModel>,
    pub children: Seq<NodeModel>,
}

/// The ways a parse can fail.
#[derive(Debug, PartialEq, Eq, Structural, Clone, Copy)]
pub enum DtsError {
    /// An open event has no matching close event before input ends.
    UnmatchedBracket,
    /// A line inside a node body is neither an event nor a classifiable
    /// property statement.
    MalformedPropertyLine,
    /// The input has no open events at all.
    EmptyInput,
}

/// The ` = ` separator between a property key and its value.
pub open spec fn eq_sep() -> Seq<char> {
    seq![' ', '=', ' ']
}

/// The `};` marker that closes a node.
pub open spec fn close_pat() -> Seq<char> {
    seq!['}', ';']
}

/// The `/dts-v1/;` format-version header emitted before a root node.
pub open spec fn dts_header() -> Seq<char> {
    seq!['/', 'd', 't', 's', '-', 'v', '1', '/', ';']
}

/// The reserved single-character name of a root node.
pub open spec fn root_name() -> Seq<char> {
    seq!['/']
}

/// `n` tab characters: one indentation unit per nesting depth.
pub open spec fn tabs(n: nat) -> Seq<char> {
    Seq::new(n, |i: int| '\t')
}

// ---------------------------------------------------------------------
// Serialization: a tree rendered as a sequence of lines.
// ---------------------------------------------------------------------

/// The single line a property is rendered to at depth `d`.
pub open spec fn prop_line(p: PropModel, d: nat) -> Seq<char> {
    match p.value {
        Some(v) => tabs(d) + p.key + eq_sep() + v + seq![';'],
        None => tabs(d) + p.key + seq![';'],
    }
}

/// The property block of a node: one line per property, in order.
pub open spec fn ser_props(ps: Seq<PropModel>, d: nat) -> Seq<Seq<char>> {
    Seq::new(ps.len(), |i: int| prop_line(ps[i], d))
}

/// All lines of one serialized node at depth `d`: header, properties,
/// a blank separator if there are children, the child blocks separated
/// by single blank lines, and the close line.
pub open spec fn ser_lines(m: NodeModel, d: nat) -> Seq<Seq<char>>
    decreases m,
{
    seq![tabs(d) + m.name + seq![' ', '{']] + ser_props(m.props, d + 1) + (if m.children.len()
        > 0 {
        seq![Seq::<char>::empty()]
    } else {
        Seq::<Seq<char>>::empty()
    }) + ser_children(m.children, d + 1) + seq![tabs(d) + close_pat()]
}

/// The lines of a sequence of sibling nodes, separated by blank lines.
pub open spec fn ser_children(cs: Seq<NodeModel>, d: nat) -> Seq<Seq<char>>
    decreases cs,
{
    if cs.len() == 0 {
        Seq::empty()
    } else if cs.len() == 1 {
        ser_lines(cs[0], d)
    } else {
        ser_lines(cs[0], d) + seq![Seq::<char>::empty()] + ser_children(cs.drop_first(), d)
    }
}

/// The full serialized text of a node at depth `d`: the version header
/// (for a root at depth 0) followed by every line, each terminated by a
/// newline.
pub open spec fn stringify_spec(m: NodeModel, d: nat) -> Seq<char> {
    if m.name == root_name() && d == 0 {
        unlines(seq![dts_header(), Seq::<char>::empty()] + ser_lines(m, d))
    } else {
        unlines(ser_lines(m, d))
    }
}

// ---------------------------------------------------------------------
// Parsing: line classification and the recursive builder.
// ---------------------------------------------------------------------

/// A comment line: its trimmed form starts with `//`.
pub open spec fn is_comment(l: Seq<char>) -> bool {
    let t = trim(l);
    t.len() >= 2 && t[0] == '/' && t[1] == '/'
}

/// An open event: a non-comment line containing an opening brace.
pub open spec fn is_open_line(l: Seq<char>) -> bool {
    has_char(l, '{') && !is_comment(l)
}

/// A close event: a non-comment line containing the close marker and no
/// opening brace (an opening brace classifies the line as open instead).
pub open spec fn is_close_line(l: Seq<char>) -> bool {
    !has_char(l, '{') && contains_seq(l, close_pat()) && !is_comment(l)
}

/// A line the parser passes over: blank, or a comment.
pub open spec fn skip_line(l: Seq<char>) -> bool {
    trim(l).len() == 0 || is_comment(l)
}

/// The node name on an open line: the line with the brace suffix and
/// surrounding whitespace stripped.  `None` if the trimmed line does not
/// end with the opening brace.
pub open spec fn open_name(l: Seq<char>) -> Option<Seq<char>> {
    let t = trim(l);
    if t.len() >= 1 && t[t.len() - 1] == '{' {
        Some(trim(t.subrange(0, t.len() - 1)))
    } else {
        None
    }
}

/// Classifies a body line as a property.  A line containing the padded
/// equals separator splits once at its first occurrence into a key and a
/// terminator-stripped value; otherwise a terminated line without any
/// equals sign is a boolean property.  `None` means the line is
/// malformed.  A trimmed key ending in ` =` (possible only when other
/// whitespace hides an earlier separator) is rejected as malformed: on
/// output such a key would re-split at the earlier separator.
pub open spec fn prop_of_line(l: Seq<char>) -> Option<PropModel> {
    let t = trim(l);
    match find_at(t, eq_sep(), 0) {
        Some(k) => {
            let key = trim(t.subrange(0, k));
            let rest = trim(t.subrange(k + 3, t.len() as int));
            if rest.len() >= 1 && rest[rest.len() - 1] == ';' && !(key.len() >= 2 && key[key.len()
                - 2] == ' ' && key[key.len() - 1] == '=') {
                Some(PropModel { key, value: Some(rest.subrange(0, rest.len() - 1)) })
            } else {
                None
            }
        },
        None => {
            if !has_char(t, '=') && t.len() >= 1 && t[t.len() - 1] == ';' {
                Some(PropModel { key: t.subrange(0, t.len() - 1), value: None })
            } else {
                None
            }
        },
    }
}

/// Builds one node from the open event at line `i`.  Returns the node and
/// the index of its matching close line.  `fuel` bounds the recursion; the
/// top-level parse supplies more fuel than any input can consume, so fuel
/// can run out only while scanning past the end for a missing close.
pub open spec fn parse_node(ls: Seq<Seq<char>>, i: int, fuel: nat) -> Result<
    (NodeModel, int),
    DtsError,
>
    decreases fuel, 0int,
{
    if i < 0 || i >= ls.len() {
        Err(DtsError::UnmatchedBracket)
    } else {
        match open_name(ls[i]) {
            None => Err(DtsError::MalformedPropertyLine),
            Some(name) => {
                if fuel == 0 {
                    Err(DtsError::UnmatchedBracket)
                } else {
                    match parse_items(ls, i + 1, (fuel - 1) as nat) {
                        Ok((props, children, close)) => Ok(
                            (NodeModel { name, props, children }, close),
                        ),
                        Err(e) => Err(e),
                    }
                }
            },
        }
    }
}

/// Walks the body of a node from line `i`: collects property lines and
/// child blocks until the node's close event, which ends the body.
pub open spec fn parse_items(ls: Seq<Seq<char>>, i: int, fuel: nat) -> Result<
    (Seq<PropModel>, Seq<NodeModel>, int),
    DtsError,
>
    decreases fuel, 1int,
{
    if i < 0 || i >= ls.len() {
        Err(DtsError::UnmatchedBracket)
    } else if fuel == 0 {
        Err(DtsError::UnmatchedBracket)
    } else if is_open_line(ls[i]) {
        match parse_node(ls, i, fuel) {
            Ok((child, close)) => match parse_items(ls, close + 1, (fuel - 1) as nat) {
                Ok((props, children, end)) => Ok((props, seq![child] + children, end)),
                Err(e) => Err(e),
            },
            Err(e) => Err(e),
        }
    } else if is_close_line(ls[i]) {
        Ok((Seq::empty(), Seq::empty(), i))
    } else if skip_line(ls[i]) {
        parse_items(ls, i + 1, (fuel - 1) as nat)
    } else {
        match prop_of_line(ls[i]) {
            Some(p) => match parse_items(ls, i + 1, (fuel - 1) as nat) {
                Ok((props, children, end)) => Ok((seq![p] + props, children, end)),
                Err(e) => Err(e),
            },
            None => Err(DtsError::MalformedPropertyLine),
        }
    }
}

/// Index of the first open event at or after line `i`.
pub open spec fn first_open(ls: Seq<Seq<char>>, i: int) -> Option<int>
    decreases ls.len() - i when 0 <= i <= ls.len()
{
    if i >= ls.len() {
        None
    } else if is_open_line(ls[i]) {
        Some(i)
    } else {
        first_open(ls, i + 1)
    }
}

/// The whole parse: split into lines, find the first open event (none
/// means empty input), and build the root node from it.  Content after
/// the root's close line is ignored.
pub open spec fn load_spec(text: Seq<char>) -> Result<NodeModel, DtsError> {
    let ls = split_lines(text);
    match first_open(ls, 0) {
        None => Err(DtsError::EmptyInput),
        Some(k) => match parse_node(ls, k, ls.len() as nat) {
            Ok((m, close)) => Ok(m),
            Err(e) => Err(e),
        },
    }
}

/// A successful node parse ends at a close event strictly after the open
/// line and within the input.
pub proof fn lemma_parse_node_bounds(ls: Seq<Seq<char>>, i: int, fuel: nat)
    ensures
        parse_node(ls, i, fuel) matches Ok(r) ==> i < r.1 < ls.len() && is_close_line(ls[r.1]),
    decreases fuel, 0int,
{
    if parse_node(ls, i, fuel) is Ok {
        lemma_parse_items_bounds(ls, i + 1, (fuel - 1) as nat);
    }
}

/// A successful body walk ends at a close event at or after its start.
pub proof fn lemma_parse_items_bounds(ls: Seq<Seq<char>>, i: int, fuel: nat)
    ensures
        parse_items(ls, i, fuel) matches Ok(r) ==> i <= r.2 < ls.len() && is_close_line(
            ls[r.2],
        ),
    decreases fuel, 1int,
{
    if parse_items(ls, i, fuel) is Ok {
        if 0 <= i < ls.len() && fuel > 0 {
            if is_open_line(ls[i]) {
                lemma_parse_node_bounds(ls, i, fuel);
                match parse_node(ls, i, fuel) {
                    Ok(r) => lemma_parse_items_bounds(ls, r.1 + 1, (fuel - 1) as nat),
                    Err(_) => (),
                }
            } else if is_close_line(ls[i]) {
            } else if skip_line(ls[i]) {
                lemma_parse_items_bounds(ls, i + 1, (fuel - 1) as nat);
            } else {
                lemma_parse_items_bounds(ls, i + 1, (fuel - 1) as nat);
            }
        }
    }
}

// ---------------------------------------------------------------------
// Tree height, for bounding serialization depth.
// ---------------------------------------------------------------------

/// 1 plus the greatest height of any child.
pub open spec fn height(m: NodeModel) -> nat
    decreases m,
{
    1 + height_children(m.children)
}

pub open spec fn height_children(cs: Seq<NodeModel>) -> nat
    decreases cs,
{
    if cs.len() == 0 {
        0
    } else if height(cs[0]) >= height_children(cs.drop_first()) {
        height(cs[0])
    } else {
        height_children(cs.drop_first())
    }
}

pub proof fn lemma_height_child(cs: Seq<NodeModel>, i: int)
    requires
        0 <= i < cs.len(),
    ensures
        height(cs[i]) <= height_children(cs),
    decreases cs.len(),
{
    if i > 0 {
        lemma_height_child(cs.drop_first(), i - 1);
    }
}

// ---------------------------------------------------------------------
// Well-formedness: the trees that serialization reproduces exactly.
// Every tree the parser builds is well formed.
// ---------------------------------------------------------------------

/// `s` starts with the comment marker.
pub open spec fn starts_comment(s: Seq<char>) -> bool {
    s.len() >= 2 && s[0] == '/' && s[1] == '/'
}

/// A node name as the parser produces it: trimmed, on one line, and not
/// a comment.
pub open spec fn wf_name(n: Seq<char>) -> bool {
    trim(n) == n && !has_char(n, '\n') && !starts_comment(n)
}

/// Constraints shared by every property key.
pub open spec fn wf_key_common(k: Seq<char>) -> bool {
    !has_char(k, '\n') && !has_char(k, '{') && !contains_seq(k, close_pat())
        && !starts_comment(k)
}

/// A property as the parser produces it.  A valued key is trimmed,
/// nonempty, and contains no padded equals separator (nor ends just
/// before one); a boolean key contains no equals sign at all.  Values
/// carry no newline, brace, or close marker, and no leading whitespace.
pub open spec fn wf_prop(p: PropModel) -> bool {
    match p.value {
        Some(v) => wf_key_common(p.key) && p.key.len() > 0 && trim(p.key) == p.key
            && !contains_seq(p.key, eq_sep()) && !(p.key.len() >= 2 && p.key[p.key.len()
            - 2] == ' ' && p.key[p.key.len() - 1] == '=') && !has_char(v, '\n') && !has_char(
            v,
            '{',
        ) && !contains_seq(v, close_pat()) && (v.len() > 0 ==> !is_ws(v[0])) && (v.len() > 0
            ==> v[v.len() - 1] != '}')
        ,
        None => wf_key_common(p.key) && !has_char(p.key, '=') && (p.key.len() > 0 ==> !is_ws(
            p.key[0],
        )) && (p.key.len() > 0 ==> p.key[p.key.len() - 1] != '}'),
    }
}

/// A tree every node of which the parser could have produced.
pub open spec fn wf_node(m: NodeModel) -> bool
    decreases m,
{
    wf_name(m.name) && (forall|i: int|
        0 <= i < m.props.len() ==> wf_prop(#[trigger] m.props[i])) && (forall|i: int|
        0 <= i < m.children.len() ==> wf_node(#[trigger] m.children[i]))
}

} // verus!
