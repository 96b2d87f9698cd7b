use garlic_crust::knober::{
    header_line, is_well_shaped, read_definition, AttributeType, Rule, SynthDefinition, SyntaxNode,
};

fn leaf(rule: Rule, text: &str) -> SyntaxNode {
    SyntaxNode { rule, text: text.to_string(), children: Vec::new() }
}

fn branch(rule: Rule, children: Vec<SyntaxNode>) -> SyntaxNode {
    SyntaxNode { rule, text: String::new(), children }
}

fn attribute(name: &str, rule: Rule, value: &str) -> SyntaxNode {
    branch(Rule::Other, vec![leaf(Rule::Identifier, name), leaf(rule, value)])
}

fn demo_file() -> SyntaxNode {
    let osc = branch(
        Rule::Node,
        vec![
            leaf(Rule::Identifier, "osc1"),
            leaf(Rule::Identifier, "Oscillator"),
            attribute("shape", Rule::EnumEntry, "Triangle"),
            attribute("frequency", Rule::Number, "46.25"),
            attribute("label", Rule::Text, "\"kick\""),
            attribute("other", Rule::Other, "x"),
        ],
    );
    let env = branch(
        Rule::Node,
        vec![leaf(Rule::Identifier, "env1"), leaf(Rule::Identifier, "Envelope")],
    );
    let edge = branch(
        Rule::Edge,
        vec![
            leaf(Rule::Identifier, "env1"),
            leaf(Rule::Identifier, "output"),
            leaf(Rule::Identifier, "volume"),
            leaf(Rule::Identifier, "osc1"),
        ],
    );
    let block = branch(Rule::Block, vec![osc, leaf(Rule::Other, "comment"), edge, env]);
    branch(Rule::File, vec![leaf(Rule::Identifier, "Smash1"), block])
}

#[test]
fn reads_name_nodes_and_edges() {
    let file = demo_file();
    assert!(is_well_shaped(&file));
    let def = read_definition(&file);
    assert_eq!(def.name, "Smash1");
    assert_eq!(def.nodes.len(), 2);
    assert_eq!(def.nodes[0].name, "osc1");
    assert_eq!(def.nodes[0].node_type, "Oscillator");
    assert_eq!(def.nodes[1].name, "env1");
    assert_eq!(def.nodes[1].node_type, "Envelope");
    assert!(def.nodes[1].attributes.is_empty());
    assert_eq!(def.edges.len(), 1);
    assert_eq!(def.edges[0].from_node, "env1");
    assert_eq!(def.edges[0].from_attribute, "output");
    assert_eq!(def.edges[0].to_attribute, "volume");
    assert_eq!(def.edges[0].to_node, "osc1");
}

#[test]
fn attributes_keep_text_and_kind() {
    let def = read_definition(&demo_file());
    let attrs = &def.nodes[0].attributes;
    assert_eq!(attrs.len(), 4);
    assert_eq!(attrs[0].name, "shape");
    assert_eq!(attrs[0].value, "Triangle");
    assert_eq!(attrs[0].attribute_type, AttributeType::EnumEntry);
    assert_eq!(attrs[1].value, "46.25");
    assert_eq!(attrs[1].attribute_type, AttributeType::Number);
    assert_eq!(attrs[2].value, "\"kick\"");
    assert_eq!(attrs[2].attribute_type, AttributeType::Text);
    assert_eq!(attrs[3].attribute_type, AttributeType::Untyped);
}

#[test]
fn last_identifier_names_the_definition() {
    let file = branch(
        Rule::File,
        vec![leaf(Rule::Identifier, "first"), leaf(Rule::Other, "x"), leaf(Rule::Identifier, "second")],
    );
    let def = read_definition(&file);
    assert_eq!(def.name, "second");
    assert!(def.nodes.is_empty());
    assert!(def.edges.is_empty());
}

#[test]
fn file_without_identifier_has_empty_name() {
    let def = read_definition(&branch(Rule::File, Vec::new()));
    assert_eq!(def.name, "");
}

#[test]
fn blocks_are_read_in_file_order() {
    let b1 = branch(
        Rule::Block,
        vec![branch(Rule::Node, vec![leaf(Rule::Identifier, "a"), leaf(Rule::Identifier, "A")])],
    );
    let b2 = branch(
        Rule::Block,
        vec![branch(Rule::Node, vec![leaf(Rule::Identifier, "b"), leaf(Rule::Identifier, "B")])],
    );
    let def = read_definition(&branch(Rule::File, vec![b1, b2]));
    assert_eq!(def.nodes.len(), 2);
    assert_eq!(def.nodes[0].name, "a");
    assert_eq!(def.nodes[1].name, "b");
}

#[test]
fn node_with_one_child_is_not_well_shaped() {
    let block = branch(Rule::Block, vec![branch(Rule::Node, vec![leaf(Rule::Identifier, "a")])]);
    assert!(!is_well_shaped(&branch(Rule::File, vec![block])));
}

#[test]
fn short_edge_is_not_well_shaped() {
    let edge = branch(
        Rule::Edge,
        vec![leaf(Rule::Identifier, "a"), leaf(Rule::Identifier, "b"), leaf(Rule::Identifier, "c")],
    );
    let block = branch(Rule::Block, vec![edge]);
    assert!(!is_well_shaped(&branch(Rule::File, vec![block])));
}

#[test]
fn short_attribute_is_not_well_shaped() {
    let node = branch(
        Rule::Node,
        vec![
            leaf(Rule::Identifier, "a"),
            leaf(Rule::Identifier, "A"),
            branch(Rule::Other, vec![leaf(Rule::Identifier, "x")]),
        ],
    );
    let block = branch(Rule::Block, vec![node]);
    assert!(!is_well_shaped(&branch(Rule::File, vec![block])));
}

#[test]
fn entries_outside_blocks_are_not_checked() {
    let stray = branch(Rule::Node, vec![leaf(Rule::Identifier, "a")]);
    let file = branch(Rule::File, vec![stray]);
    assert!(is_well_shaped(&file));
    assert!(read_definition(&file).nodes.is_empty());
}

#[test]
fn header_line_names_the_definition() {
    let def = SynthDefinition { name: "Smash1".to_string(), nodes: Vec::new(), edges: Vec::new() };
    assert_eq!(header_line(&def), "Name: Smash1");
}
