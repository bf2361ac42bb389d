use dtstree::model::DtsError;
use dtstree::node::{DtbNode, DtbProperty};

fn leaf(name: &str) -> Box<DtbNode> {
    Box::new(DtbNode { node_name: name.to_string(), properties: vec![], child_nodes: vec![] })
}

fn structurally_equal(a: &DtbNode, b: &DtbNode) -> bool {
    if a.node_name != b.node_name {
        return false;
    }
    if a.properties.len() != b.properties.len() || a.child_nodes.len() != b.child_nodes.len() {
        return false;
    }
    for (p, q) in a.properties.iter().zip(b.properties.iter()) {
        if p.key != q.key || p.value != q.value {
            return false;
        }
    }
    for (c, d) in a.child_nodes.iter().zip(b.child_nodes.iter()) {
        if !structurally_equal(c, d) {
            return false;
        }
    }
    true
}

#[test]
fn formatting_exactness_fixture() {
    let root = DtbNode {
        node_name: "/".to_string(),
        properties: vec![
            DtbProperty { key: "foo".to_string(), value: None },
            DtbProperty { key: "bar".to_string(), value: Some("<0x1>".to_string()) },
        ],
        child_nodes: vec![
            Box::new(DtbNode {
                node_name: "first".to_string(),
                properties: vec![DtbProperty {
                    key: "status".to_string(),
                    value: Some("\"okay\"".to_string()),
                }],
                child_nodes: vec![],
            }),
            leaf("second"),
        ],
    };
    let expected = "/dts-v1/;\n\n/ {\n\tfoo;\n\tbar = <0x1>;\n\n\tfirst {\n\t\tstatus = \"okay\";\n\t};\n\n\tsecond {\n\t};\n};\n";
    assert_eq!(root.stringify(0), expected);
}

#[test]
fn header_only_for_root_at_depth_zero() {
    let node = DtbNode {
        node_name: "child".to_string(),
        properties: vec![],
        child_nodes: vec![],
    };
    assert_eq!(node.stringify(0), "child {\n};\n");
    let root_deeper = DtbNode {
        node_name: "/".to_string(),
        properties: vec![],
        child_nodes: vec![],
    };
    assert_eq!(root_deeper.stringify(1), "\t/ {\n\t};\n");
    assert_eq!(root_deeper.stringify(0), "/dts-v1/;\n\n/ {\n};\n");
}

#[test]
fn round_trip_reproduces_structure() {
    let text = "/dts-v1/;\n\n/ {\n\tmodel = \"board\";\n\tflag;\n\n\tcam_i2cmux {\n\t\tstatus = \"disabled\";\n\n\t\ti2c@0 {\n\t\t\treg = <0x0>;\n\t\t};\n\n\t\ti2c@1 {\n\t\t};\n\t};\n};\n";
    let first = DtbNode::load(text.to_string()).expect("well-formed input parses");
    let rendered = first.stringify(0);
    let second = DtbNode::load(rendered.clone()).expect("serialized output parses");
    assert!(structurally_equal(&first, &second));
    assert_eq!(second.stringify(0), rendered);
}

#[test]
fn round_trip_on_ragged_input() {
    let text = "junk before\n/ {\n   a =  <1 2>;\n// comment with = sign;\n\n  b;\n  child {\n x = \"y z\";\n }; \n};\ntrailing junk";
    let first = DtbNode::load(text.to_string()).expect("parses");
    let rendered = first.stringify(0);
    let second = DtbNode::load(rendered).expect("reparses");
    assert!(structurally_equal(&first, &second));
}

#[test]
fn first_match_lookup_and_isolated_mutation() {
    let text = "/ {\n\tx {\n\t\tp = <1>;\n\t};\n\n\tx {\n\t\tp = <2>;\n\t};\n};\n";
    let mut root = DtbNode::load(text.to_string()).unwrap();
    let i = root.find_childnode("x").expect("a child named x exists");
    assert_eq!(i, 0);
    let first = root.child_mut(i);
    let pi = first.find_property("p").unwrap();
    first.property_mut(pi).value = Some("<9>".to_string());
    assert_eq!(root.child_nodes[0].properties[0].value.as_deref(), Some("<9>"));
    assert_eq!(root.child_nodes[1].properties[0].value.as_deref(), Some("<2>"));
}

#[test]
fn boolean_vs_valued_preservation() {
    let text = "/ {\n\tflag;\n\tvalued = \"a = b;\";\n};\n";
    let root = DtbNode::load(text.to_string()).unwrap();
    assert_eq!(root.properties[0].key, "flag");
    assert_eq!(root.properties[0].value, None);
    assert_eq!(root.properties[1].key, "valued");
    assert_eq!(root.properties[1].value.as_deref(), Some("\"a = b;\""));
    let out = root.stringify(0);
    assert!(out.contains("\tflag;\n"));
    assert!(!out.contains("flag ="));
    assert!(out.contains("\tvalued = \"a = b;\";\n"));
}

#[test]
fn unmatched_bracket_detection() {
    let text = "/ {\n\tfoo;\n\tchild {\n\t\tbar;\n\t};\n";
    assert!(matches!(DtbNode::load(text.to_string()), Err(DtsError::UnmatchedBracket)));
}

#[test]
fn empty_input_detection() {
    assert!(matches!(DtbNode::load(String::new()), Err(DtsError::EmptyInput)));
    assert!(matches!(DtbNode::load("no brackets here\n".to_string()), Err(DtsError::EmptyInput)));
    assert!(matches!(DtbNode::load("// a comment with { brace\n".to_string()), Err(DtsError::EmptyInput)));
}

#[test]
fn malformed_property_line_detection() {
    let text = "/ {\n\tthis line has no terminator\n};\n";
    assert!(matches!(DtbNode::load(text.to_string()), Err(DtsError::MalformedPropertyLine)));
    let text2 = "/ {\n\ta=b;\n};\n";
    assert!(matches!(DtbNode::load(text2.to_string()), Err(DtsError::MalformedPropertyLine)));
}

#[test]
fn lookup_miss_returns_empty() {
    let text = "/ {\n\tpresent;\n\n\there {\n\t};\n};\n";
    let root = DtbNode::load(text.to_string()).unwrap();
    assert_eq!(root.find_childnode("absent"), None);
    assert_eq!(root.find_property("absent"), None);
    assert_eq!(root.find_childnode("here"), Some(0));
    assert_eq!(root.find_property("present"), Some(0));
}

#[test]
fn comments_and_blank_lines_are_skipped() {
    let text = "/ {\n// note { with a brace\n\n\tkeep;\n};\n";
    let root = DtbNode::load(text.to_string()).unwrap();
    assert_eq!(root.properties.len(), 1);
    assert_eq!(root.properties[0].key, "keep");
    assert_eq!(root.child_nodes.len(), 0);
}

#[test]
fn name_and_counts() {
    let text = "/ {\n\ta;\n\tb = <1>;\n\n\tc {\n\t};\n};\n";
    let root = DtbNode::load(text.to_string()).unwrap();
    assert_eq!(root.name().as_str(), "/");
    assert_eq!(root.num_properties(), 2);
    assert_eq!(root.num_children(), 1);
}
