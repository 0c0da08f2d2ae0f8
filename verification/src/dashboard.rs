//! Figures of the universe bundle's graph payload: node and edge counts and
//! the graph digest, read from the snapshot header when there is one.

use crate::graph::{Edge, EdgeType, Node, NodeType};
use crate::query::MemoryBackend;
use crate::text::{string_of_range, to_chars};
use vstd::bytes::{spec_u64_from_le_bytes, u64_from_le_bytes};
use vstd::prelude::*;
use vstd::slice::slice_subrange;
use vstd::utf8::{decode_utf8, valid_utf8};

verus! {

/// The magic bytes `RBGR` that open a graph snapshot.
pub open spec fn snapshot_magic() -> Seq<u8> {
    seq![82u8, 66u8, 71u8, 82u8]
}

/// `b` starts with a complete snapshot header (92 bytes, magic first).
pub open spec fn has_snapshot_header(b: Seq<u8>) -> bool {
    b.len() >= 92 && b.subrange(0, 4) == snapshot_magic()
}

/// `s` without its trailing NUL characters.
pub open spec fn trim_nuls(s: Seq<char>) -> Seq<char>
    decreases s.len(),
{
    if s.len() > 0 && s.last() == '\0' {
        trim_nuls(s.drop_last())
    } else {
        s
    }
}

/// The digest field of a header (bytes 28 to 92): its UTF-8 text without
/// trailing NULs, or empty when it is not UTF-8.
pub open spec fn header_digest(b: Seq<u8>) -> Seq<char> {
    let d = b.subrange(28, 92);
    if valid_utf8(d) {
        trim_nuls(decode_utf8(d))
    } else {
        Seq::empty()
    }
}

/// Calls `std::str::from_utf8`; claimed, as its documentation says: it
/// succeeds exactly on valid UTF-8, with the decoded text.
#[verifier::external_body]
fn utf8_text(bytes: &[u8]) -> (r: Option<String>)
    ensures
        match r {
            Some(s) => valid_utf8(bytes@) && s@ == decode_utf8(bytes@),
            None => !valid_utf8(bytes@),
        },
{
    match std::str::from_utf8(bytes) {
        Ok(s) => Some(s.to_string()),
        Err(_) => None,
    }
}

fn trim_nul_text(s: &str) -> (r: String)
    ensures
        r@ == trim_nuls(s@),
{
    let cs = to_chars(s);
    let mut n: usize = cs.len();
    proof {
        assert(cs@.take(n as int) =~= cs@);
    }
    while n > 0 && cs[n - 1] == '\0'
        invariant
            n <= cs@.len(),
            trim_nuls(cs@) == trim_nuls(cs@.take(n as int)),
        decreases n,
    {
        proof {
            assert(cs@.take(n as int).drop_last() =~= cs@.take(n - 1));
        }
        n = n - 1;
    }
    proof {
        assert(cs@.subrange(0, n as int) =~= cs@.take(n as int));
    }
    string_of_range(cs.as_slice(), 0, n)
}

/// Node count, edge count and digest of the graph payload: from the snapshot
/// header when `snapshot` holds one, else the in-memory graph's counts and an
/// empty digest.
pub fn payload_stats(snapshot: Option<&[u8]>, backend: &MemoryBackend) -> (r: (u64, u64, String))
    ensures
        match snapshot {
            Some(b) if has_snapshot_header(b@) => r.0 == spec_u64_from_le_bytes(b@.subrange(12, 20)) && r.1
                == spec_u64_from_le_bytes(b@.subrange(20, 28)) && r.2@ == header_digest(b@),
            _ => r.0 == backend.node_seq().len() && r.1 == backend.edge_seq().len() && r.2@.len() == 0,
        },
{
    match snapshot {
        Some(b) => {
            if b.len() >= 92 && b[0] == 82u8 && b[1] == 66u8 && b[2] == 71u8 && b[3] == 82u8 {
                proof {
                    assert(b@.subrange(0, 4) =~= snapshot_magic());
                }
                let nodes = u64_from_le_bytes(slice_subrange(b, 12, 20));
                let edges = u64_from_le_bytes(slice_subrange(b, 20, 28));
                let digest = match utf8_text(slice_subrange(b, 28, 92)) {
                    Some(text) => trim_nul_text(text.as_str()),
                    None => String::new(),
                };
                return (nodes, edges, digest);
            }
            proof {
                if b@.len() >= 92 {
                    assert(b@.subrange(0, 4)[0] == b@[0]);
                    assert(b@.subrange(0, 4)[1] == b@[1]);
                    assert(b@.subrange(0, 4)[2] == b@[2]);
                    assert(b@.subrange(0, 4)[3] == b@[3]);
                }
            }
        },
        None => {},
    }
    (backend.node_count() as u64, backend.edge_count() as u64, String::new())
}


/// Counts of a graph for the bundle's metrics section.
#[derive(Clone, Copy, Debug, PartialEq, Eq, Structural)]
pub struct GraphCounts {
    /// Function nodes.
    pub function_count: usize,
    /// Class nodes.
    pub class_count: usize,
    /// Call edges.
    pub calls_count: usize,
}

/// Number of nodes of kind `t`.
pub open spec fn count_nodes(nodes: Seq<Node>, t: NodeType) -> nat
    decreases nodes.len(),
{
    if nodes.len() == 0 {
        0
    } else {
        count_nodes(nodes.drop_last(), t) + if nodes.last().node_type == t {
            1nat
        } else {
            0nat
        }
    }
}

/// Number of edges of kind `t`.
pub open spec fn count_edges(edges: Seq<Edge>, t: EdgeType) -> nat
    decreases edges.len(),
{
    if edges.len() == 0 {
        0
    } else {
        count_edges(edges.drop_last(), t) + if edges.last().edge_type == t {
            1nat
        } else {
            0nat
        }
    }
}

/// Function, class and call counts of the graph.
pub fn graph_counts(backend: &MemoryBackend) -> (c: GraphCounts)
    ensures
        c.function_count == count_nodes(backend.node_seq(), NodeType::Function),
        c.class_count == count_nodes(backend.node_seq(), NodeType::Class),
        c.calls_count == count_edges(backend.edge_seq(), EdgeType::Calls),
{
    let nodes = backend.nodes();
    let edges = backend.edges();
    let mut functions: usize = 0;
    let mut classes: usize = 0;
    let mut i: usize = 0;
    proof {
        assert(nodes@.take(0) =~= Seq::<Node>::empty());
    }
    while i < nodes.len()
        invariant
            i <= nodes@.len(),
            functions == count_nodes(nodes@.take(i as int), NodeType::Function),
            classes == count_nodes(nodes@.take(i as int), NodeType::Class),
            functions <= i && classes <= i,
        decreases nodes@.len() - i,
    {
        proof {
            assert(nodes@.take(i + 1).drop_last() =~= nodes@.take(i as int));
            assert(nodes@.take(i + 1).last() == nodes@[i as int]);
        }
        if nodes[i].node_type == NodeType::Function {
            functions = functions + 1;
        } else if nodes[i].node_type == NodeType::Class {
            classes = classes + 1;
        }
        i = i + 1;
    }
    let mut calls: usize = 0;
    let mut j: usize = 0;
    proof {
        assert(nodes@.take(i as int) =~= nodes@);
        assert(edges@.take(0) =~= Seq::<Edge>::empty());
    }
    while j < edges.len()
        invariant
            j <= edges@.len(),
            calls == count_edges(edges@.take(j as int), EdgeType::Calls),
            calls <= j,
        decreases edges@.len() - j,
    {
        proof {
            assert(edges@.take(j + 1).drop_last() =~= edges@.take(j as int));
            assert(edges@.take(j + 1).last() == edges@[j as int]);
        }
        if edges[j].edge_type == EdgeType::Calls {
            calls = calls + 1;
        }
        j = j + 1;
    }
    proof {
        assert(edges@.take(j as int) =~= edges@);
    }
    GraphCounts { function_count: functions, class_count: classes, calls_count: calls }
}

} // verus!
