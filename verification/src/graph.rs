//! The code graph's data model: typed nodes with names, locations and
//! string properties, and typed edges between node ids.

use crate::text::str_eq;
use vstd::prelude::*;

verus! {

/// Identifier of a node (a 128-bit UUID).
pub type NodeId = u128;

/// Kind of a graph node.
#[derive(Clone, Copy, Debug, PartialEq, Eq, Structural)]
pub enum NodeType {
    Function,
    Class,
    Struct,
    Enum,
    Interface,
    Annotation,
    Module,
    Variable,
    File,
    ConfigKey,
    TypeAlias,
    Macro,
    Import,
    Table,
    Dependency,
    Job,
    BuildStep,
    AnsiblePlaybook,
    AnsiblePlay,
    AnsibleTask,
    AnsibleRole,
    AnsibleHandler,
    AnsibleVariable,
    AnsibleTemplate,
    ChefCookbook,
    ChefRecipe,
    ChefResource,
    ChefAttribute,
    ChefTemplate,
    ChefCustomResource,
    PuppetModule,
    PuppetClass,
    PuppetDefinedType,
    PuppetResource,
    PuppetVariable,
    PuppetFact,
}

/// Kind of a graph edge.
#[derive(Clone, Copy, Debug, PartialEq, Eq, Structural)]
pub enum EdgeType {
    Calls,
    Contains,
    Uses,
    References,
    DefinedIn,
    UsesConfig,
    AnnotatedWith,
    Extends,
    Implements,
    InheritsClass,
    Instantiates,
    Modifies,
    Permits,
    DependsOn,
    DependsOnRole,
    DependsOnModule,
    DependsOnCookbook,
    IncludesRole,
    IncludesRecipe,
    IncludesPlaybook,
    IncludesClass,
    ExecutesTask,
    NotifiesHandler,
    NotifiesResource,
    RequiresResource,
    DeclaresResource,
    DefinesAttribute,
    RendersTemplate,
    UsesTemplate,
    UsesFact,
}

/// A node of the code graph.
#[derive(Clone, Debug)]
pub struct Node {
    /// Unique id.
    pub id: NodeId,
    /// Kind of node.
    pub node_type: NodeType,
    /// Short name.
    pub name: String,
    /// Fully qualified name, when known.
    pub qualified_name: Option<String>,
    /// Source file, when known.
    pub file_path: Option<String>,
    /// First source line, when known.
    pub start_line: Option<usize>,
    /// Last source line, when known.
    pub end_line: Option<usize>,
    /// String properties (the last entry for a key is its value).
    pub properties: Vec<(String, String)>,
    /// Labels.
    pub labels: Vec<String>,
    /// Signature text, for callables.
    pub signature: Option<String>,
    /// Declared return type, for callables.
    pub return_type: Option<String>,
    /// Hash of the symbol's body, when known.
    pub code_hash: Option<String>,
}

/// A directed, typed edge between two node ids.
#[derive(Clone, Copy, Debug, PartialEq, Eq, Structural)]
pub struct Edge {
    /// Source node.
    pub from: NodeId,
    /// Target node.
    pub to: NodeId,
    /// Kind of edge.
    pub edge_type: EdgeType,
    /// Source line of the call, for call edges that carry it.
    pub call_site_line: Option<usize>,
}

/// Value of property `key` among `props` (the last entry with that key, so
/// that a later entry replaces an earlier one).
pub open spec fn prop_lookup(props: Seq<(String, String)>, key: Seq<char>) -> Option<Seq<char>>
    decreases props.len(),
{
    if props.len() == 0 {
        None
    } else if props.last().0@ == key {
        Some(props.last().1@)
    } else {
        prop_lookup(props.drop_last(), key)
    }
}

impl Node {
    /// Value of the property `key`, when the node has it.
    pub open spec fn property(&self, key: Seq<char>) -> Option<Seq<char>> {
        prop_lookup(self.properties@, key)
    }

    /// Value of the property `key`, when the node has it.
    pub fn get_property(&self, key: &str) -> (r: Option<&String>)
        ensures
            match r {
                Some(v) => self.property(key@) == Some(v@),
                None => self.property(key@) is None,
            },
    {
        let mut i: usize = self.properties.len();
        proof {
            assert(self.properties@.take(i as int) =~= self.properties@);
        }
        while i > 0
            invariant
                i <= self.properties@.len(),
                prop_lookup(self.properties@, key@) == prop_lookup(self.properties@.take(i as int), key@),
            decreases i,
        {
            proof {
                assert(self.properties@.take(i as int).drop_last() =~= self.properties@.take(i - 1));
                assert(self.properties@.take(i as int).last() == self.properties@[i - 1]);
            }
            if str_eq(self.properties[i - 1].0.as_str(), key) {
                return Some(&self.properties[i - 1].1);
            }
            i = i - 1;
        }
        None
    }
}

impl Edge {
    /// Create an edge.
    pub fn new(from: NodeId, to: NodeId, edge_type: EdgeType) -> (e: Edge)
        ensures
            e == (Edge { from, to, edge_type, call_site_line: None }),
    {
        Edge { from, to, edge_type, call_site_line: None }
    }

    /// This edge with the source line of its call site.
    pub fn with_call_site_line(self, line: usize) -> (e: Edge)
        ensures
            e == (Edge { call_site_line: Some(line), ..self }),
    {
        Edge { call_site_line: Some(line), ..self }
    }
}

/// `id` carries the marks of a random (version 4) UUID: version nibble 4
/// and variant bits `10`, as a big-endian 128-bit number.
pub open spec fn is_v4_id(id: NodeId) -> bool {
    &&& (id >> 76u32) & 0xFu128 == 4
    &&& (id >> 62u32) & 0x3u128 == 2
}

/// A fresh random node id from `uuid::Uuid::new_v4`. Claimed: only the
/// version and variant bits that every outcome has; the other bits are random.
#[verifier::external_body]
pub(crate) fn fresh_node_id() -> (id: NodeId)
    ensures
        is_v4_id(id),
{
    uuid::Uuid::new_v4().as_u128()
}

impl Node {
    /// A node of the given kind and name with a fresh random id and nothing else set.
    pub fn new(node_type: NodeType, name: &str) -> (n: Node)
        ensures
            n.node_type == node_type,
            n.name@ == name@,
            n.qualified_name is None,
            n.file_path is None,
            n.start_line is None,
            n.end_line is None,
            n.properties@.len() == 0,
            n.labels@.len() == 0,
            n.signature is None,
            n.return_type is None,
            n.code_hash is None,
            is_v4_id(n.id),
    {
        Node {
            id: fresh_node_id(),
            node_type,
            name: name.to_owned(),
            qualified_name: None,
            file_path: None,
            start_line: None,
            end_line: None,
            properties: Vec::new(),
            labels: Vec::new(),
            signature: None,
            return_type: None,
            code_hash: None,
        }
    }

    /// This node with its source file set.
    pub fn with_file_path(self, path: String) -> (n: Node)
        ensures
            n == (Node { file_path: Some(path), ..self }),
    {
        Node { file_path: Some(path), ..self }
    }

    /// This node with its qualified name set.
    pub fn with_qualified_name(self, qualified_name: String) -> (n: Node)
        ensures
            n == (Node { qualified_name: Some(qualified_name), ..self }),
    {
        Node { qualified_name: Some(qualified_name), ..self }
    }

    /// This node with its signature text set.
    pub fn with_signature(self, signature: String) -> (n: Node)
        ensures
            n == (Node { signature: Some(signature), ..self }),
    {
        Node { signature: Some(signature), ..self }
    }

    /// This node with its return type set.
    pub fn with_return_type(self, return_type: String) -> (n: Node)
        ensures
            n == (Node { return_type: Some(return_type), ..self }),
    {
        Node { return_type: Some(return_type), ..self }
    }

    /// This node with one more label.
    pub fn with_label(self, label: String) -> (n: Node)
        ensures
            n.labels@ == self.labels@.push(label),
            n == (Node { labels: n.labels, ..self }),
    {
        let mut node = self;
        node.labels.push(label);
        node
    }

    /// This node with one more property entry, which replaces any earlier
    /// value for the same key.
    pub fn with_property(self, key: String, value: String) -> (n: Node)
        ensures
            n.properties@ == self.properties@.push((key, value)),
            n == (Node { properties: n.properties, ..self }),
    {
        let mut node = self;
        node.properties.push((key, value));
        node
    }

    /// This node with the hash of its body set.
    pub fn with_code_hash(self, code_hash: String) -> (n: Node)
        ensures
            n == (Node { code_hash: Some(code_hash), ..self }),
    {
        Node { code_hash: Some(code_hash), ..self }
    }

    /// This node with its source line span set.
    pub fn with_lines(self, start_line: usize, end_line: usize) -> (n: Node)
        ensures
            n == (Node { start_line: Some(start_line), end_line: Some(end_line), ..self }),
    {
        Node { start_line: Some(start_line), end_line: Some(end_line), ..self }
    }
}

} // verus!
