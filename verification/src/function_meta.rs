//! Display names of functions for the dashboard's function lists, with
//! fallbacks from the exported record, to a cache, to the graph, to the id.

use crate::graph::{Node, NodeId, NodeType};
use crate::graph_builder::text_of;
use crate::obsidian::hex_fixed;
use crate::query::MemoryBackend;
use std::collections::HashMap;
use vstd::prelude::*;
use vstd::utf8::encode_utf8;

verus! {

broadcast use vstd::std_specs::hash::group_hash_axioms;

/// A function's display name and source path.
pub type FunctionMeta = (String, Option<String>);

/// `c` is an ASCII hexadecimal digit, either case.
pub open spec fn hex_digit_byte(c: u8) -> bool {
    (48 <= c <= 57) || (65 <= c <= 70) || (97 <= c <= 102)
}

/// `s` is a hyphenated UUID: 36 bytes, hyphens at 8, 13, 18 and 23, hex digits elsewhere.
pub open spec fn hyphenated_uuid_bytes(s: Seq<u8>) -> bool {
    &&& s.len() == 36
    &&& forall|i: int|
        0 <= i < 36 ==> if i == 8 || i == 13 || i == 18 || i == 23 {
            #[trigger] s[i] == 45u8
        } else {
            hex_digit_byte(s[i])
        }
}

/// `c` with ASCII upper-case letters made lower-case.
pub open spec fn ascii_lower_byte(c: u8) -> u8 {
    if 65 <= c <= 90 {
        (c + 32) as u8
    } else {
        c
    }
}

/// The bytes that `uuid::Uuid::parse_str` accepts: 32 hex digits, a
/// hyphenated UUID, one in braces, or one after `urn:uuid:` (any case).
pub open spec fn uuid_bytes_accepted(b: Seq<u8>) -> bool {
    if b.len() == 32 {
        forall|i: int| 0 <= i < 32 ==> hex_digit_byte(#[trigger] b[i])
    } else if b.len() == 36 {
        hyphenated_uuid_bytes(b)
    } else if b.len() == 38 {
        b[0] == 123u8 && b[37] == 125u8 && hyphenated_uuid_bytes(b.subrange(1, 37))
    } else if b.len() == 45 {
        &&& forall|i: int| 0 <= i < 9 ==> ascii_lower_byte(#[trigger] b[i]) == seq![117u8, 114u8, 110u8, 58u8, 117u8, 117u8, 105u8, 100u8, 58u8][i]
        &&& hyphenated_uuid_bytes(b.subrange(9, 45))
    } else {
        false
    }
}

/// Calls `uuid::Uuid::parse_str`; claimed, from the crate's parser: it
/// succeeds exactly on the text's bytes that `uuid_bytes_accepted` describes.
#[verifier::external_body]
fn parses_as_uuid(s: &str) -> (b: bool)
    ensures
        b == uuid_bytes_accepted(encode_utf8(s@)),
{
    uuid::Uuid::parse_str(s).is_ok()
}

/// The hyphenated lower-case text of the UUID whose big-endian value is `id`
/// (8-4-4-4-12 hex digits).
pub open spec fn uuid_text(id: u128) -> Seq<char> {
    let h = hex_fixed(id as nat, 32);
    h.subrange(0, 8) + seq!['-'] + h.subrange(8, 12) + seq!['-'] + h.subrange(12, 16) + seq!['-']
        + h.subrange(16, 20) + seq!['-'] + h.subrange(20, 32)
}

/// Calls `uuid::Uuid::from_u128(id).to_string()`. Claimed, from the crate's
/// source: `from_u128` takes the value's big-endian bytes and `Display`
/// writes them hyphenated in lower-case hex.
#[verifier::external_body]
fn uuid_string(id: u128) -> (s: String)
    ensures
        s@ == uuid_text(id),
{
    uuid::Uuid::from_u128(id).to_string()
}

/// `name` has the shape of a UUID: 36 bytes, a hyphen at byte 8, and it parses.
pub open spec fn looks_like_uuid(name: Seq<char>) -> bool {
    &&& encode_utf8(name).len() == 36
    &&& encode_utf8(name)[8] == 45u8
    &&& uuid_bytes_accepted(encode_utf8(name))
}

fn looks_like_uuid_exec(name: &str) -> (b: bool)
    ensures
        b == looks_like_uuid(name@),
{
    let bytes = name.as_bytes();
    bytes.len() == 36 && bytes[8] == 45u8 && parses_as_uuid(name)
}

/// Name and path of each function node by id (the last function node with
/// an id wins).
pub open spec fn function_metas(nodes: Seq<Node>) -> Map<NodeId, FunctionMeta>
    decreases nodes.len(),
{
    if nodes.len() == 0 {
        Map::empty()
    } else {
        let m = function_metas(nodes.drop_last());
        let n = nodes.last();
        if n.node_type == NodeType::Function {
            m.insert(n.id, (n.name, n.file_path))
        } else {
            m
        }
    }
}

fn copy_path(p: &Option<String>) -> (r: Option<String>)
    ensures
        r == *p,
{
    match p {
        Some(s) => Some(s.clone()),
        None => None,
    }
}

/// Name and path of each function node of the graph, by id.
pub fn function_meta_from_backend(backend: &MemoryBackend) -> (m: HashMap<NodeId, FunctionMeta>)
    ensures
        m@ == function_metas(backend.node_seq()),
{
    let nodes = backend.nodes();
    let mut out: HashMap<NodeId, FunctionMeta> = HashMap::new();
    let mut i: usize = 0;
    proof {
        assert(nodes@.take(0) =~= Seq::<Node>::empty());
        assert(out@ =~= function_metas(nodes@.take(0)));
    }
    while i < nodes.len()
        invariant
            i <= nodes@.len(),
            nodes@ == backend.node_seq(),
            out@ == function_metas(nodes@.take(i as int)),
        decreases nodes@.len() - i,
    {
        proof {
            assert(nodes@.take(i + 1).drop_last() =~= nodes@.take(i as int));
            assert(nodes@.take(i + 1).last() == nodes@[i as int]);
        }
        let n = &nodes[i];
        if n.node_type == NodeType::Function {
            out.insert(n.id, (n.name.clone(), copy_path(&n.file_path)));
        }
        i = i + 1;
    }
    proof {
        assert(nodes@.take(i as int) =~= nodes@);
    }
    out
}

/// The display name and path of function `id`: the record's own name when it
/// has one that is not a UUID; else the cached entry, when its name is not a
/// UUID; else the graph's function node, when its name is not a UUID; else
/// the UUID text with the record's path.
pub open spec fn resolved_meta(
    id: NodeId,
    record_name: Seq<char>,
    record_path: Option<String>,
    nodes: Seq<Node>,
    cache: Map<NodeId, FunctionMeta>,
) -> (Seq<char>, Option<Seq<char>>) {
    let from_graph = function_metas(nodes);
    if record_name.len() > 0 && !looks_like_uuid(record_name) {
        (record_name, text_of(record_path))
    } else if cache.contains_key(id) && !looks_like_uuid(cache[id].0@) {
        (cache[id].0@, text_of(cache[id].1))
    } else if from_graph.contains_key(id) && !looks_like_uuid(from_graph[id].0@) {
        (from_graph[id].0@, text_of(from_graph[id].1))
    } else {
        (uuid_text(id), text_of(record_path))
    }
}

/// Lookup with fallbacks: the record's fields, then the cache, then the
/// graph, then the id itself (see `resolved_meta`).
pub fn resolve_function_meta(
    function_id: &NodeId,
    record_name: &str,
    record_path: &Option<String>,
    _repo_root: &str,
    backend: &MemoryBackend,
    cache: &HashMap<NodeId, FunctionMeta>,
) -> (r: FunctionMeta)
    ensures
        (r.0@, text_of(r.1)) == resolved_meta(*function_id, record_name@, *record_path, backend.node_seq(), cache@),
{
    if !record_name.is_empty() && !looks_like_uuid_exec(record_name) {
        return (record_name.to_owned(), copy_path(record_path));
    }
    match cache.get(function_id) {
        Some(meta) => {
            if !looks_like_uuid_exec(meta.0.as_str()) {
                return (meta.0.clone(), copy_path(&meta.1));
            }
        },
        None => {},
    }
    let from_graph = function_meta_from_backend(backend);
    match from_graph.get(function_id) {
        Some(meta) => {
            if !looks_like_uuid_exec(meta.0.as_str()) {
                return (meta.0.clone(), copy_path(&meta.1));
            }
        },
        None => {},
    }
    (uuid_string(*function_id), copy_path(record_path))
}

} // verus!
