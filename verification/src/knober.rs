use vstd::prelude::*;
use vstd::string::StringExecFns;

verus! {

/// The grammar rules of a synthesizer definition file that the reading of a
/// definition tells apart; every other rule is `Other`.
#[derive(Clone, Copy, Debug, PartialEq, Eq, Structural)]
pub enum Rule {
    File,
    Identifier,
    Block,
    Node,
    Edge,
    Text,
    EnumEntry,
    Number,
    Other,
}

/// A node of the parse tree of a definition file: the rule it matched, the text
/// it spans, and its sub-nodes in source order.
#[derive(Debug)]
pub struct SyntaxNode {
    pub rule: Rule,
    pub text: String,
    pub children: Vec<SyntaxNode>,
}

/// The kind of value an attribute of a node holds.
#[derive(Clone, Copy, Debug, PartialEq, Eq, Structural)]
pub enum AttributeType {
    Text,
    EnumEntry,
    Number,
    Untyped,
}

/// An attribute of a node: its name, the source text of its value, and the kind of
/// that value.
#[derive(Debug)]
pub struct Attribute {
    pub attribute_type: AttributeType,
    pub name: String,
    pub value: String,
}

/// A node of the synthesizer: an operator with its name, its type and its
/// attributes.
#[derive(Debug)]
pub struct Node {
    pub name: String,
    pub node_type: String,
    pub attributes: Vec<Attribute>,
}

/// A connection from an output of one node to an input of another.
#[derive(Debug)]
pub struct Edge {
    pub from_node: String,
    pub from_attribute: String,
    pub to_attribute: String,
    pub to_node: String,
}

/// A synthesizer definition: its name, its nodes and its edges, in file order.
#[derive(Debug)]
pub struct SynthDefinition {
    pub name: String,
    pub nodes: Vec<Node>,
    pub edges: Vec<Edge>,
}

pub struct AttributeView {
    pub attribute_type: AttributeType,
    pub name: Seq<char>,
    pub value: Seq<char>,
}

pub struct NodeView {
    pub name: Seq<char>,
    pub node_type: Seq<char>,
    pub attributes: Seq<AttributeView>,
}

pub struct EdgeView {
    pub from_node: Seq<char>,
    pub from_attribute: Seq<char>,
    pub to_attribute: Seq<char>,
    pub to_node: Seq<char>,
}

pub struct DefinitionView {
    pub name: Seq<char>,
    pub nodes: Seq<NodeView>,
    pub edges: Seq<EdgeView>,
}

impl View for Attribute {
    type V = AttributeView;

    open spec fn view(&self) -> AttributeView {
        AttributeView { attribute_type: self.attribute_type, name: self.name@, value: self.value@ }
    }
}

impl View for Node {
    type V = NodeView;

    open spec fn view(&self) -> NodeView {
        NodeView {
            name: self.name@,
            node_type: self.node_type@,
            attributes: self.attributes@.map_values(|a: Attribute| a@),
        }
    }
}

impl View for Edge {
    type V = EdgeView;

    open spec fn view(&self) -> EdgeView {
        EdgeView {
            from_node: self.from_node@,
            from_attribute: self.from_attribute@,
            to_attribute: self.to_attribute@,
            to_node: self.to_node@,
        }
    }
}

impl View for SynthDefinition {
    type V = DefinitionView;

    open spec fn view(&self) -> DefinitionView {
        DefinitionView {
            name: self.name@,
            nodes: self.nodes@.map_values(|n: Node| n@),
            edges: self.edges@.map_values(|e: Edge| e@),
        }
    }
}

/// An attribute entry names the attribute and then gives its value.
pub open spec fn attribute_shaped(a: SyntaxNode) -> bool {
    a.children@.len() >= 2
}

/// A node entry gives the node's name and type, then its attribute entries.
pub open spec fn node_shaped(n: SyntaxNode) -> bool {
    &&& n.children@.len() >= 2
    &&& forall|j: int| 2 <= j < n.children@.len() ==> attribute_shaped(#[trigger] n.children@[j])
}

/// An edge entry gives the source node and attribute, then the target attribute
/// and node.
pub open spec fn edge_shaped(e: SyntaxNode) -> bool {
    e.children@.len() >= 4
}

/// The entries of a block that are nodes or edges have the shape of their kind.
pub open spec fn block_shaped(b: SyntaxNode) -> bool {
    forall|j: int|
        0 <= j < b.children@.len() ==> {
            &&& (#[trigger] b.children@[j]).rule == Rule::Node ==> node_shaped(b.children@[j])
            &&& b.children@[j].rule == Rule::Edge ==> edge_shaped(b.children@[j])
        }
}

/// Every block entry of the file has the shape of a block.
pub open spec fn well_shaped(file: SyntaxNode) -> bool {
    forall|k: int|
        0 <= k < file.children@.len() && (#[trigger] file.children@[k]).rule == Rule::Block
            ==> block_shaped(file.children@[k])
}

/// The kind of an attribute value, by the rule that its text matched.
pub open spec fn attribute_type_of(rule: Rule) -> AttributeType {
    match rule {
        Rule::Text => AttributeType::Text,
        Rule::EnumEntry => AttributeType::EnumEntry,
        Rule::Number => AttributeType::Number,
        _ => AttributeType::Untyped,
    }
}

pub open spec fn attribute_of(a: SyntaxNode) -> AttributeView {
    AttributeView {
        attribute_type: attribute_type_of(a.children@[1].rule),
        name: a.children@[0].text@,
        value: a.children@[1].text@,
    }
}

pub open spec fn node_of(n: SyntaxNode) -> NodeView {
    NodeView {
        name: n.children@[0].text@,
        node_type: n.children@[1].text@,
        attributes: n.children@.skip(2).map_values(|a: SyntaxNode| attribute_of(a)),
    }
}

pub open spec fn edge_of(e: SyntaxNode) -> EdgeView {
    EdgeView {
        from_node: e.children@[0].text@,
        from_attribute: e.children@[1].text@,
        to_attribute: e.children@[2].text@,
        to_node: e.children@[3].text@,
    }
}

/// The nodes that block entries define, in order.
pub open spec fn block_nodes(entries: Seq<SyntaxNode>) -> Seq<NodeView>
    decreases entries.len(),
{
    if entries.len() == 0 {
        Seq::empty()
    } else if entries.last().rule == Rule::Node {
        block_nodes(entries.drop_last()).push(node_of(entries.last()))
    } else {
        block_nodes(entries.drop_last())
    }
}

/// The edges that block entries define, in order.
pub open spec fn block_edges(entries: Seq<SyntaxNode>) -> Seq<EdgeView>
    decreases entries.len(),
{
    if entries.len() == 0 {
        Seq::empty()
    } else if entries.last().rule == Rule::Edge {
        block_edges(entries.drop_last()).push(edge_of(entries.last()))
    } else {
        block_edges(entries.drop_last())
    }
}

/// The name that file entries give: that of the last identifier, or the empty
/// name where there is none.
pub open spec fn file_name(entries: Seq<SyntaxNode>) -> Seq<char>
    decreases entries.len(),
{
    if entries.len() == 0 {
        Seq::empty()
    } else if entries.last().rule == Rule::Identifier {
        entries.last().text@
    } else {
        file_name(entries.drop_last())
    }
}

/// The nodes of all blocks among file entries, block after block.
pub open spec fn file_nodes(entries: Seq<SyntaxNode>) -> Seq<NodeView>
    decreases entries.len(),
{
    if entries.len() == 0 {
        Seq::empty()
    } else if entries.last().rule == Rule::Block {
        file_nodes(entries.drop_last()) + block_nodes(entries.last().children@)
    } else {
        file_nodes(entries.drop_last())
    }
}

/// The edges of all blocks among file entries, block after block.
pub open spec fn file_edges(entries: Seq<SyntaxNode>) -> Seq<EdgeView>
    decreases entries.len(),
{
    if entries.len() == 0 {
        Seq::empty()
    } else if entries.last().rule == Rule::Block {
        file_edges(entries.drop_last()) + block_edges(entries.last().children@)
    } else {
        file_edges(entries.drop_last())
    }
}

/// The definition that a parsed file gives.
pub open spec fn definition_of(file: SyntaxNode) -> DefinitionView {
    DefinitionView {
        name: file_name(file.children@),
        nodes: file_nodes(file.children@),
        edges: file_edges(file.children@),
    }
}


/// How many of `entries` matched `rule`.
pub open spec fn rule_count(entries: Seq<SyntaxNode>, rule: Rule) -> nat
    decreases entries.len(),
{
    if entries.len() == 0 {
        0
    } else {
        rule_count(entries.drop_last(), rule) + (if entries.last().rule == rule {
            1nat
        } else {
            0nat
        })
    }
}

/// How many entries of the blocks among file entries matched `rule`.
pub open spec fn block_entry_count(entries: Seq<SyntaxNode>, rule: Rule) -> nat
    decreases entries.len(),
{
    if entries.len() == 0 {
        0
    } else {
        block_entry_count(entries.drop_last(), rule) + (if entries.last().rule == Rule::Block {
            rule_count(entries.last().children@, rule)
        } else {
            0nat
        })
    }
}

/// The place, counted in file order, of entry `j` of block `k` among the block
/// entries that matched `rule`.
pub open spec fn entry_place(entries: Seq<SyntaxNode>, k: int, j: int, rule: Rule) -> int {
    (block_entry_count(entries.take(k), rule) + rule_count(entries[k].children@.take(j), rule)) as int
}

proof fn lemma_block_edges_places(entries: Seq<SyntaxNode>)
    ensures
        block_edges(entries).len() == rule_count(entries, Rule::Edge),
        forall|j: int|
            0 <= j < entries.len() && (#[trigger] entries[j]).rule == Rule::Edge ==> {
                &&& rule_count(entries.take(j), Rule::Edge) < rule_count(entries, Rule::Edge)
                &&& block_edges(entries)[rule_count(entries.take(j), Rule::Edge) as int]
                    == edge_of(entries[j])
            },
    decreases entries.len(),
{
    if entries.len() > 0 {
        let d = entries.drop_last();
        lemma_block_edges_places(d);
        assert forall|j: int|
            0 <= j < entries.len() && (#[trigger] entries[j]).rule == Rule::Edge implies {
            &&& rule_count(entries.take(j), Rule::Edge) < rule_count(entries, Rule::Edge)
            &&& block_edges(entries)[rule_count(entries.take(j), Rule::Edge) as int] == edge_of(
                entries[j],
            )
        } by {
            if j < entries.len() - 1 {
                assert(entries.take(j) =~= d.take(j));
                assert(d[j] == entries[j]);
            } else {
                assert(entries.take(j) =~= d);
            }
        }
    }
}

proof fn lemma_block_nodes_places(entries: Seq<SyntaxNode>)
    ensures
        block_nodes(entries).len() == rule_count(entries, Rule::Node),
        forall|j: int|
            0 <= j < entries.len() && (#[trigger] entries[j]).rule == Rule::Node ==> {
                &&& rule_count(entries.take(j), Rule::Node) < rule_count(entries, Rule::Node)
                &&& block_nodes(entries)[rule_count(entries.take(j), Rule::Node) as int]
                    == node_of(entries[j])
            },
    decreases entries.len(),
{
    if entries.len() > 0 {
        let d = entries.drop_last();
        lemma_block_nodes_places(d);
        assert forall|j: int|
            0 <= j < entries.len() && (#[trigger] entries[j]).rule == Rule::Node implies {
            &&& rule_count(entries.take(j), Rule::Node) < rule_count(entries, Rule::Node)
            &&& block_nodes(entries)[rule_count(entries.take(j), Rule::Node) as int] == node_of(
                entries[j],
            )
        } by {
            if j < entries.len() - 1 {
                assert(entries.take(j) =~= d.take(j));
                assert(d[j] == entries[j]);
            } else {
                assert(entries.take(j) =~= d);
            }
        }
    }
}

proof fn lemma_file_reads_len(entries: Seq<SyntaxNode>)
    ensures
        file_edges(entries).len() == block_entry_count(entries, Rule::Edge),
        file_nodes(entries).len() == block_entry_count(entries, Rule::Node),
    decreases entries.len(),
{
    if entries.len() > 0 {
        lemma_file_reads_len(entries.drop_last());
        lemma_block_edges_places(entries.last().children@);
        lemma_block_nodes_places(entries.last().children@);
    }
}

proof fn lemma_file_reads_prefix(entries: Seq<SyntaxNode>, m: int)
    requires
        0 <= m <= entries.len(),
    ensures
        file_edges(entries.take(m)).len() <= file_edges(entries).len(),
        forall|i: int|
            0 <= i < file_edges(entries.take(m)).len() ==> #[trigger] file_edges(entries.take(m))[i]
                == file_edges(entries)[i],
        file_nodes(entries.take(m)).len() <= file_nodes(entries).len(),
        forall|i: int|
            0 <= i < file_nodes(entries.take(m)).len() ==> #[trigger] file_nodes(entries.take(m))[i]
                == file_nodes(entries)[i],
    decreases entries.len(),
{
    if m == entries.len() {
        assert(entries.take(m) =~= entries);
    } else {
        let d = entries.drop_last();
        assert(entries.take(m) =~= d.take(m));
        lemma_file_reads_prefix(d, m);
    }
}

/// The edges read from a file are exactly one per edge entry of its blocks, in
/// file order: as many as there are edge entries, and the edge at the place of an
/// edge entry joins the texts of that entry's first four parts.
pub proof fn lemma_edges_follow_edge_entries(file: SyntaxNode)
    ensures
        definition_of(file).edges.len() == block_entry_count(file.children@, Rule::Edge),
        forall|k: int, j: int|
            0 <= k < file.children@.len() && file.children@[k].rule == Rule::Block && 0 <= j
                < file.children@[k].children@.len() && (#[trigger] file.children@[k].children@[j]).rule
                == Rule::Edge ==> definition_of(file).edges[entry_place(
                file.children@,
                k,
                j,
                Rule::Edge,
            )] == (EdgeView {
                from_node: file.children@[k].children@[j].children@[0].text@,
                from_attribute: file.children@[k].children@[j].children@[1].text@,
                to_attribute: file.children@[k].children@[j].children@[2].text@,
                to_node: file.children@[k].children@[j].children@[3].text@,
            }),
{
    let entries = file.children@;
    lemma_file_reads_len(entries);
    assert forall|k: int, j: int|
        0 <= k < entries.len() && entries[k].rule == Rule::Block && 0 <= j
            < entries[k].children@.len() && (#[trigger] entries[k].children@[j]).rule
            == Rule::Edge implies definition_of(file).edges[entry_place(entries, k, j, Rule::Edge)]
        == edge_of(entries[k].children@[j]) by {
        let t = entries.take(k + 1);
        assert(t.drop_last() =~= entries.take(k));
        assert(t.last() == entries[k]);
        lemma_file_reads_len(entries.take(k));
        lemma_block_edges_places(entries[k].children@);
        lemma_file_reads_prefix(entries, k + 1);
        let p = entry_place(entries, k, j, Rule::Edge);
        assert(file_edges(t)[p] == file_edges(entries)[p]);
    }
}

/// The nodes read from a well-shaped file are exactly one per node entry of its
/// blocks, in file order: the node at the place of a node entry has the entry's
/// name and type, and one attribute per attribute entry of it, in order, each with
/// its name, its value text and the kind of that value.
pub proof fn lemma_nodes_follow_node_entries(file: SyntaxNode)
    requires
        well_shaped(file),
    ensures
        definition_of(file).nodes.len() == block_entry_count(file.children@, Rule::Node),
        forall|k: int, j: int|
            0 <= k < file.children@.len() && file.children@[k].rule == Rule::Block && 0 <= j
                < file.children@[k].children@.len() && (#[trigger] file.children@[k].children@[j]).rule
                == Rule::Node ==> {
                let n = file.children@[k].children@[j];
                let v = definition_of(file).nodes[entry_place(file.children@, k, j, Rule::Node)];
                &&& v.name == n.children@[0].text@
                &&& v.node_type == n.children@[1].text@
                &&& v.attributes.len() + 2 == n.children@.len()
                &&& forall|a: int|
                    0 <= a < v.attributes.len() ==> #[trigger] v.attributes[a] == (AttributeView {
                        attribute_type: match n.children@[a + 2].children@[1].rule {
                            Rule::Text => AttributeType::Text,
                            Rule::EnumEntry => AttributeType::EnumEntry,
                            Rule::Number => AttributeType::Number,
                            _ => AttributeType::Untyped,
                        },
                        name: n.children@[a + 2].children@[0].text@,
                        value: n.children@[a + 2].children@[1].text@,
                    })
            },
{
    let entries = file.children@;
    lemma_file_reads_len(entries);
    assert forall|k: int, j: int|
        0 <= k < entries.len() && entries[k].rule == Rule::Block && 0 <= j
            < entries[k].children@.len() && (#[trigger] entries[k].children@[j]).rule
            == Rule::Node implies definition_of(file).nodes[entry_place(entries, k, j, Rule::Node)]
        == node_of(entries[k].children@[j]) && node_shaped(entries[k].children@[j]) by {
        let t = entries.take(k + 1);
        assert(t.drop_last() =~= entries.take(k));
        assert(t.last() == entries[k]);
        lemma_file_reads_len(entries.take(k));
        lemma_block_nodes_places(entries[k].children@);
        lemma_file_reads_prefix(entries, k + 1);
        let p = entry_place(entries, k, j, Rule::Node);
        assert(file_nodes(t)[p] == file_nodes(entries)[p]);
        assert(block_shaped(entries[k]));
    }
}

/// Reading more entries never changes what earlier entries gave: where the
/// entries of one file begin the entries of another, its edges and nodes begin
/// the edges and nodes of the other.
pub proof fn lemma_later_entries_keep_earlier_reads(first: SyntaxNode, longer: SyntaxNode)
    requires
        first.children@.len() <= longer.children@.len(),
        first.children@ == longer.children@.take(first.children@.len() as int),
    ensures
        definition_of(first).edges.len() <= definition_of(longer).edges.len(),
        forall|i: int|
            0 <= i < definition_of(first).edges.len() ==> #[trigger] definition_of(first).edges[i]
                == definition_of(longer).edges[i],
        definition_of(first).nodes.len() <= definition_of(longer).nodes.len(),
        forall|i: int|
            0 <= i < definition_of(first).nodes.len() ==> #[trigger] definition_of(first).nodes[i]
                == definition_of(longer).nodes[i],
{
    lemma_file_reads_prefix(longer.children@, first.children@.len() as int);
}

/// A file is accepted exactly when, in every block, each node entry has a name,
/// a type and attribute entries of a name and a value each, and each edge entry
/// has its four parts; nothing else bears on acceptance.
pub proof fn lemma_well_shaped_exactly(file: SyntaxNode)
    ensures
        well_shaped(file) <==> forall|k: int, j: int|
            0 <= k < file.children@.len() && file.children@[k].rule == Rule::Block && 0 <= j
                < file.children@[k].children@.len() ==> {
                &&& (#[trigger] file.children@[k].children@[j]).rule == Rule::Node ==> {
                    &&& file.children@[k].children@[j].children@.len() >= 2
                    &&& forall|a: int|
                        2 <= a < file.children@[k].children@[j].children@.len()
                            ==> (#[trigger] file.children@[k].children@[j].children@[a]).children@.len()
                            >= 2
                }
                &&& file.children@[k].children@[j].rule == Rule::Edge
                    ==> file.children@[k].children@[j].children@.len() >= 4
            },
{
    let entries = file.children@;
    if well_shaped(file) {
        assert forall|k: int, j: int|
            0 <= k < entries.len() && entries[k].rule == Rule::Block && 0 <= j
                < entries[k].children@.len() implies {
            &&& (#[trigger] entries[k].children@[j]).rule == Rule::Node ==> {
                &&& entries[k].children@[j].children@.len() >= 2
                &&& forall|a: int|
                    2 <= a < entries[k].children@[j].children@.len()
                        ==> (#[trigger] entries[k].children@[j].children@[a]).children@.len() >= 2
            }
            &&& entries[k].children@[j].rule == Rule::Edge ==> entries[k].children@[j].children@.len()
                >= 4
        } by {
            assert(block_shaped(entries[k]));
            if entries[k].children@[j].rule == Rule::Node {
                assert(node_shaped(entries[k].children@[j]));
            }
        }
    }
    if forall|k: int, j: int|
        0 <= k < entries.len() && entries[k].rule == Rule::Block && 0 <= j
            < entries[k].children@.len() ==> {
            &&& (#[trigger] entries[k].children@[j]).rule == Rule::Node ==> {
                &&& entries[k].children@[j].children@.len() >= 2
                &&& forall|a: int|
                    2 <= a < entries[k].children@[j].children@.len()
                        ==> (#[trigger] entries[k].children@[j].children@[a]).children@.len() >= 2
            }
            &&& entries[k].children@[j].rule == Rule::Edge ==> entries[k].children@[j].children@.len()
                >= 4
        } {
        assert forall|k: int|
            0 <= k < entries.len() && (#[trigger] entries[k]).rule == Rule::Block implies block_shaped(
            entries[k],
        ) by {
            assert forall|j: int| 0 <= j < entries[k].children@.len() implies {
                &&& (#[trigger] entries[k].children@[j]).rule == Rule::Node ==> node_shaped(
                    entries[k].children@[j],
                )
                &&& entries[k].children@[j].rule == Rule::Edge ==> edge_shaped(
                    entries[k].children@[j],
                )
            } by {
                if entries[k].children@[j].rule == Rule::Node {
                    assert forall|a: int|
                        2 <= a < entries[k].children@[j].children@.len() implies attribute_shaped(
                        #[trigger] entries[k].children@[j].children@[a],
                    ) by {
                        assert(entries[k].children@[j].children@[a].children@.len() >= 2);
                    }
                }
            }
        }
    }
}

/// Acceptance is decided block by block: a file with one more entry is accepted
/// exactly when the file without it is, and a file of that entry alone is.
pub proof fn lemma_well_shaped_per_entry(first: SyntaxNode, longer: SyntaxNode, single: SyntaxNode)
    requires
        longer.children@.len() == first.children@.len() + 1,
        first.children@ == longer.children@.drop_last(),
        single.children@ == seq![longer.children@.last()],
    ensures
        well_shaped(longer) <==> well_shaped(first) && well_shaped(single),
{
    let n = first.children@.len() as int;
    if well_shaped(first) && well_shaped(single) {
        assert forall|k: int|
            0 <= k < longer.children@.len() && (#[trigger] longer.children@[k]).rule == Rule::Block
                implies block_shaped(longer.children@[k]) by {
            if k < n {
                assert(first.children@[k] == longer.children@[k]);
            } else {
                assert(single.children@[0] == longer.children@[k]);
            }
        }
    }
    if well_shaped(longer) {
        assert forall|k: int|
            0 <= k < first.children@.len() && (#[trigger] first.children@[k]).rule == Rule::Block
                implies block_shaped(first.children@[k]) by {
            assert(first.children@[k] == longer.children@[k]);
        }
        assert forall|k: int|
            0 <= k < single.children@.len() && (#[trigger] single.children@[k]).rule == Rule::Block
                implies block_shaped(single.children@[k]) by {
            assert(single.children@[k] == longer.children@[n]);
        }
    }
}

fn read_attribute(entry: &SyntaxNode) -> (attribute: Attribute)
    requires
        attribute_shaped(*entry),
    ensures
        attribute@ == attribute_of(*entry),
{
    let name = &entry.children[0];
    let value = &entry.children[1];
    let attribute_type = match value.rule {
        Rule::Text => AttributeType::Text,
        Rule::EnumEntry => AttributeType::EnumEntry,
        Rule::Number => AttributeType::Number,
        _ => AttributeType::Untyped,
    };
    Attribute { attribute_type, name: name.text.clone(), value: value.text.clone() }
}

fn read_node(entry: &SyntaxNode) -> (node: Node)
    requires
        node_shaped(*entry),
    ensures
        node@ == node_of(*entry),
{
    let mut attributes: Vec<Attribute> = Vec::new();
    let mut j: usize = 2;
    while j < entry.children.len()
        invariant
            node_shaped(*entry),
            2 <= j <= entry.children@.len(),
            attributes@.len() == j - 2,
            forall|k: int|
                0 <= k < attributes@.len() ==> (#[trigger] attributes@[k])@ == attribute_of(
                    entry.children@[k + 2],
                ),
        decreases entry.children@.len() - j,
    {
        attributes.push(read_attribute(&entry.children[j]));
        j = j + 1;
    }
    let node = Node {
        name: entry.children[0].text.clone(),
        node_type: entry.children[1].text.clone(),
        attributes,
    };
    assert(node@.attributes =~= node_of(*entry).attributes);
    node
}

fn read_edge(entry: &SyntaxNode) -> (edge: Edge)
    requires
        edge_shaped(*entry),
    ensures
        edge@ == edge_of(*entry),
{
    Edge {
        from_node: entry.children[0].text.clone(),
        from_attribute: entry.children[1].text.clone(),
        to_attribute: entry.children[2].text.clone(),
        to_node: entry.children[3].text.clone(),
    }
}

/// Reads the entries of one block into `nodes` and `edges`.
fn read_block(block: &SyntaxNode, nodes: &mut Vec<Node>, edges: &mut Vec<Edge>)
    requires
        block_shaped(*block),
    ensures
        final(nodes)@.map_values(|n: Node| n@) == old(nodes)@.map_values(|n: Node| n@)
            + block_nodes(block.children@),
        final(edges)@.map_values(|e: Edge| e@) == old(edges)@.map_values(|e: Edge| e@)
            + block_edges(block.children@),
{
    let ghost nodes0 = old(nodes)@.map_values(|n: Node| n@);
    let ghost edges0 = old(edges)@.map_values(|e: Edge| e@);
    let mut j: usize = 0;
    while j < block.children.len()
        invariant
            block_shaped(*block),
            0 <= j <= block.children@.len(),
            nodes@.map_values(|n: Node| n@) == nodes0 + block_nodes(
                block.children@.take(j as int),
            ),
            edges@.map_values(|e: Edge| e@) == edges0 + block_edges(
                block.children@.take(j as int),
            ),
        decreases block.children@.len() - j,
    {
        let entry = &block.children[j];
        let ghost taken = block.children@.take(j as int);
        let ghost nodes_before = nodes@;
        let ghost edges_before = edges@;
        assert(block.children@.take(j + 1).drop_last() =~= taken);
        assert(block.children@.take(j + 1).last() == block.children@[j as int]);
        match entry.rule {
            Rule::Node => {
                let node = read_node(entry);
                nodes.push(node);
                assert(nodes@.map_values(|n: Node| n@) =~= nodes_before.map_values(|n: Node| n@).push(
                    node@,
                ));
            },
            Rule::Edge => {
                let edge = read_edge(entry);
                edges.push(edge);
                assert(edges@.map_values(|e: Edge| e@) =~= edges_before.map_values(|e: Edge| e@).push(
                    edge@,
                ));
            },
            _ => {},
        }
        j = j + 1;
    }
    assert(block.children@.take(block.children@.len() as int) =~= block.children@);
}

/// Reads the synthesizer definition out of the parse tree of a definition file:
/// the name of its last identifier, and the nodes and edges of its blocks, in
/// file order. Entries of other kinds are passed over.
pub fn read_definition(file: &SyntaxNode) -> (definition: SynthDefinition)
    requires
        well_shaped(*file),
    ensures
        definition@ == definition_of(*file),
{
    let mut name = String::new();
    let mut nodes: Vec<Node> = Vec::new();
    let mut edges: Vec<Edge> = Vec::new();
    let mut k: usize = 0;
    assert(nodes@.map_values(|n: Node| n@) =~= Seq::<NodeView>::empty());
    assert(edges@.map_values(|e: Edge| e@) =~= Seq::<EdgeView>::empty());
    while k < file.children.len()
        invariant
            well_shaped(*file),
            0 <= k <= file.children@.len(),
            name@ == file_name(file.children@.take(k as int)),
            nodes@.map_values(|n: Node| n@) == file_nodes(file.children@.take(k as int)),
            edges@.map_values(|e: Edge| e@) == file_edges(file.children@.take(k as int)),
        decreases file.children@.len() - k,
    {
        let entry = &file.children[k];
        assert(file.children@.take(k + 1).drop_last() =~= file.children@.take(k as int));
        assert(file.children@.take(k + 1).last() == file.children@[k as int]);
        match entry.rule {
            Rule::Identifier => {
                name = entry.text.clone();
            },
            Rule::Block => {
                read_block(entry, &mut nodes, &mut edges);
            },
            _ => {},
        }
        k = k + 1;
    }
    assert(file.children@.take(file.children@.len() as int) =~= file.children@);
    SynthDefinition { name, nodes, edges }
}

fn is_node_shaped(entry: &SyntaxNode) -> (shaped: bool)
    ensures
        shaped == node_shaped(*entry),
{
    if entry.children.len() < 2 {
        return false;
    }
    let mut a: usize = 2;
    while a < entry.children.len()
        invariant
            2 <= a <= entry.children@.len(),
            forall|i: int| 2 <= i < a ==> attribute_shaped(#[trigger] entry.children@[i]),
        decreases entry.children@.len() - a,
    {
        if entry.children[a].children.len() < 2 {
            assert(!attribute_shaped(entry.children@[a as int]));
            return false;
        }
        a = a + 1;
    }
    true
}

fn is_block_shaped(block: &SyntaxNode) -> (shaped: bool)
    ensures
        shaped == block_shaped(*block),
{
    let mut j: usize = 0;
    while j < block.children.len()
        invariant
            0 <= j <= block.children@.len(),
            forall|i: int|
                0 <= i < j ==> {
                    &&& (#[trigger] block.children@[i]).rule == Rule::Node ==> node_shaped(
                        block.children@[i],
                    )
                    &&& block.children@[i].rule == Rule::Edge ==> edge_shaped(block.children@[i])
                },
        decreases block.children@.len() - j,
    {
        let entry = &block.children[j];
        if entry.rule == Rule::Node {
            if !is_node_shaped(entry) {
                assert(block.children@[j as int].rule == Rule::Node);
                return false;
            }
        } else if entry.rule == Rule::Edge {
            if entry.children.len() < 4 {
                assert(block.children@[j as int].rule == Rule::Edge);
                return false;
            }
        }
        j = j + 1;
    }
    true
}

/// Whether a parse tree has the shape that `read_definition` reads.
pub fn is_well_shaped(file: &SyntaxNode) -> (shaped: bool)
    ensures
        shaped == well_shaped(*file),
{
    let mut k: usize = 0;
    while k < file.children.len()
        invariant
            0 <= k <= file.children@.len(),
            forall|i: int|
                0 <= i < k && (#[trigger] file.children@[i]).rule == Rule::Block ==> block_shaped(
                    file.children@[i],
                ),
        decreases file.children@.len() - k,
    {
        let entry = &file.children[k];
        if entry.rule == Rule::Block && !is_block_shaped(entry) {
            assert(file.children@[k as int].rule == Rule::Block);
            return false;
        }
        k = k + 1;
    }
    true
}

/// The line that reports a definition: `Name: ` followed by its name.
pub fn header_line(definition: &SynthDefinition) -> (line: String)
    ensures
        line@ == "Name: "@ + definition.name@,
{
    String::from_str("Name: ").concat(definition.name.as_str())
}

} // verus!
