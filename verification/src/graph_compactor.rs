//! Log-structured compaction of a base graph snapshot with a delta segment:
//! base nodes from invalidated files are dropped, the delta's nodes are
//! appended, and an edge survives only when both its ends are alive.

use crate::graph::{Edge, Node, NodeId, NodeType};
use crate::text::{ends_with_chars, normalize_path_str, slash_normalized, str_eq, to_chars};
use std::collections::HashSet;
use vstd::prelude::*;

verus! {

broadcast use vstd::std_specs::hash::group_hash_axioms;

/// The characters of each string.
pub open spec fn string_views(v: Seq<String>) -> Seq<Seq<char>> {
    v.map_values(|s: String| s@)
}

/// `norm` names one of the invalidated paths: equal to it, or ending in `/` and it.
pub open spec fn path_matches(norm: Seq<char>, invalidated: Seq<Seq<char>>) -> bool {
    exists|i: int|
        0 <= i < invalidated.len() && (invalidated[i] == norm || (seq!['/'] + invalidated[i]).is_suffix_of(
            norm,
        ))
}

/// The node belongs to an invalidated file: by its file path, or, for a file
/// node without one, by its name.
pub open spec fn matches_invalidated(node: Node, invalidated: Seq<Seq<char>>) -> bool {
    &&& invalidated.len() > 0
    &&& match node.file_path {
        Some(fp) => path_matches(slash_normalized(fp@), invalidated),
        None => node.node_type == NodeType::File && path_matches(slash_normalized(node.name@), invalidated),
    }
}

/// Law: a node belongs to an invalidated file exactly when its normalized
/// path (its file path, or for a file node without one its name) is one of
/// the invalidated paths, or ends with one of them right after a `/`: a match
/// starts at a path component, so `b.rs` does not match `src/lib.rs`.
pub proof fn lemma_invalidation_at_component(node: Node, invalidated: Seq<Seq<char>>)
    ensures
        matches_invalidated(node, invalidated) <==> {
            &&& invalidated.len() > 0
            &&& (node.file_path is Some || node.node_type == NodeType::File)
            &&& exists|i: int|
                0 <= i < invalidated.len() && {
                    let path = slash_normalized(
                        match node.file_path {
                            Some(fp) => fp@,
                            None => node.name@,
                        },
                    );
                    let p = #[trigger] invalidated[i];
                    ||| path == p
                    ||| (path.len() > p.len() && path[path.len() - p.len() - 1] == '/' && path.subrange(
                        path.len() - p.len(),
                        path.len() as int,
                    ) == p)
                }
        },
{
    let path = slash_normalized(
        match node.file_path {
            Some(fp) => fp@,
            None => node.name@,
        },
    );
    assert forall|i: int| 0 <= i < invalidated.len() implies ((seq!['/'] + #[trigger] invalidated[i]).is_suffix_of(path)
        <==> (path.len() > invalidated[i].len() && path[path.len() - invalidated[i].len() - 1] == '/' && path.subrange(
        path.len() - invalidated[i].len(),
        path.len() as int,
    ) == invalidated[i])) by {
        let p = invalidated[i];
        let t = seq!['/'] + p;
        if t.is_suffix_of(path) {
            let off = path.len() - t.len();
            assert(path[off] == t[0]);
            assert(path.subrange(path.len() - p.len(), path.len() as int) =~= p) by {
                assert forall|j: int| 0 <= j < p.len() implies path.subrange(path.len() - p.len(), path.len() as int)[j] == p[j] by {
                    assert(path[off + 1 + j] == t[1 + j]);
                }
            }
        }
        if path.len() > p.len() && path[path.len() - p.len() - 1] == '/' && path.subrange(
            path.len() - p.len(),
            path.len() as int,
        ) == p {
            assert(t.len() <= path.len());
            assert(t =~= path.subrange(path.len() - t.len(), path.len() as int)) by {
                assert forall|j: int| 0 <= j < t.len() implies t[j] == path.subrange(path.len() - t.len(), path.len() as int)[j] by {
                    if j > 0 {
                        assert(path.subrange(path.len() - p.len(), path.len() as int)[j - 1] == p[j - 1]);
                    }
                }
            }
        }
    }
}

/// The base nodes that survive the invalidation, in order.
pub open spec fn kept_nodes(nodes: Seq<Node>, invalidated: Seq<Seq<char>>) -> Seq<Node>
    decreases nodes.len(),
{
    if nodes.len() == 0 {
        nodes
    } else {
        let r = kept_nodes(nodes.drop_last(), invalidated);
        if matches_invalidated(nodes.last(), invalidated) {
            r
        } else {
            r.push(nodes.last())
        }
    }
}

/// Ids of the nodes.
pub open spec fn node_ids(nodes: Seq<Node>) -> Set<NodeId> {
    Set::new(|id: NodeId| exists|i: int| 0 <= i < nodes.len() && nodes[i].id == id)
}

/// The edges whose two ends are in `alive`, in order.
pub open spec fn edges_within(edges: Seq<Edge>, alive: Set<NodeId>) -> Seq<Edge>
    decreases edges.len(),
{
    if edges.len() == 0 {
        edges
    } else {
        let r = edges_within(edges.drop_last(), alive);
        let e = edges.last();
        if alive.contains(e.from) && alive.contains(e.to) {
            r.push(e)
        } else {
            r
        }
    }
}

/// Extracted changes to merge into a base snapshot.
pub struct DeltaSegment {
    /// Normalized file paths whose nodes must be dropped from the base.
    pub invalidated_files: Vec<String>,
    /// Freshly extracted nodes from added or changed files.
    pub new_nodes: Vec<Node>,
    /// Freshly extracted edges.
    pub new_edges: Vec<Edge>,
}

impl DeltaSegment {
    /// Create an empty delta.
    pub fn new() -> (d: Self)
        ensures
            d.invalidated_files@.len() == 0,
            d.new_nodes@.len() == 0,
            d.new_edges@.len() == 0,
    {
        DeltaSegment { invalidated_files: Vec::new(), new_nodes: Vec::new(), new_edges: Vec::new() }
    }

    /// Record a path as invalidated, with its separators normalized; a path
    /// already recorded is not recorded twice.
    pub fn invalidate_file(&mut self, path: &str)
        ensures
            string_views(final(self).invalidated_files@) == if string_views(old(self).invalidated_files@).contains(
                slash_normalized(path@),
            ) {
                string_views(old(self).invalidated_files@)
            } else {
                string_views(old(self).invalidated_files@).push(slash_normalized(path@))
            },
            final(self).new_nodes == old(self).new_nodes,
            final(self).new_edges == old(self).new_edges,
    {
        let norm = normalize_path_str(path);
        let mut i: usize = 0;
        while i < self.invalidated_files.len()
            invariant
                i <= self.invalidated_files@.len(),
                norm@ == slash_normalized(path@),
                forall|j: int| 0 <= j < i ==> self.invalidated_files@[j]@ != norm@,
            decreases self.invalidated_files@.len() - i,
        {
            if str_eq(self.invalidated_files[i].as_str(), norm.as_str()) {
                proof {
                    assert(string_views(self.invalidated_files@)[i as int] == norm@);
                }
                return;
            }
            i = i + 1;
        }
        proof {
            assert(!string_views(self.invalidated_files@).contains(norm@));
        }
        let ghost before = self.invalidated_files@;
        self.invalidated_files.push(norm);
        proof {
            assert(string_views(self.invalidated_files@) =~= string_views(before).push(slash_normalized(path@)));
        }
    }
}

/// Whether `node` belongs to one of the `invalidated` files (see [`matches_invalidated`]).
pub fn node_matches_invalidated(node: &Node, invalidated: &Vec<String>) -> (r: bool)
    ensures
        r == matches_invalidated(*node, string_views(invalidated@)),
{
    if invalidated.len() == 0 {
        return false;
    }
    match &node.file_path {
        Some(fp) => path_matches_any(fp.as_str(), invalidated),
        None => {
            if node.node_type == NodeType::File {
                path_matches_any(node.name.as_str(), invalidated)
            } else {
                false
            }
        },
    }
}

/// Whether the normalized `path` names one of the invalidated paths.
fn path_matches_any(path: &str, invalidated: &Vec<String>) -> (r: bool)
    ensures
        r == path_matches(slash_normalized(path@), string_views(invalidated@)),
{
    let norm = normalize_path_str(path);
    let nc = to_chars(norm.as_str());
    let ghost inv = string_views(invalidated@);
    let mut i: usize = 0;
    while i < invalidated.len()
        invariant
            i <= invalidated@.len(),
            inv == string_views(invalidated@),
            nc@ == slash_normalized(path@),
            norm@ == nc@,
            forall|j: int|
                0 <= j < i ==> !(inv[j] == nc@ || (seq!['/'] + inv[j]).is_suffix_of(nc@)),
        decreases invalidated@.len() - i,
    {
        let mut tail: Vec<char> = Vec::new();
        tail.push('/');
        let ic = to_chars(invalidated[i].as_str());
        let mut k: usize = 0;
        while k < ic.len()
            invariant
                k <= ic@.len(),
                tail@ == seq!['/'] + ic@.take(k as int),
            decreases ic@.len() - k,
        {
            tail.push(ic[k]);
            proof {
                assert(ic@.take(k + 1) =~= ic@.take(k as int).push(ic@[k as int]));
            }
            k = k + 1;
        }
        proof {
            assert(ic@.take(ic@.len() as int) =~= ic@);
            assert(inv[i as int] == ic@);
            assert(tail@ =~= seq!['/'] + inv[i as int]);
        }
        let hit = str_eq(invalidated[i].as_str(), norm.as_str()) || ends_with_chars(nc.as_slice(), tail.as_slice());
        if hit {
            proof {
                assert(inv[i as int] == nc@ || (seq!['/'] + inv[i as int]).is_suffix_of(nc@));
            }
            return true;
        }
        i = i + 1;
    }
    false
}

/// Statistics from a compaction run.
#[derive(Clone, Debug, PartialEq, Eq)]
pub struct CompactStats {
    /// Nodes kept from the base snapshot.
    pub nodes_kept: usize,
    /// Nodes dropped due to invalidated files.
    pub nodes_dropped: usize,
    /// Nodes appended from the delta.
    pub nodes_from_delta: usize,
    /// Edges kept from the base snapshot.
    pub edges_kept: usize,
    /// Edges dropped (an end not alive).
    pub edges_dropped: usize,
    /// Edges appended from the delta.
    pub edges_from_delta: usize,
    /// Content digest of the written snapshot (empty until it is written).
    pub content_digest: String,
}

impl Default for CompactStats {
    fn default() -> (s: Self)
        ensures
            s.nodes_kept == 0,
            s.nodes_dropped == 0,
            s.nodes_from_delta == 0,
            s.edges_kept == 0,
            s.edges_dropped == 0,
            s.edges_from_delta == 0,
            s.content_digest@.len() == 0,
    {
        CompactStats {
            nodes_kept: 0,
            nodes_dropped: 0,
            nodes_from_delta: 0,
            edges_kept: 0,
            edges_dropped: 0,
            edges_from_delta: 0,
            content_digest: String::new(),
        }
    }
}

/// A graph snapshot held in memory: its nodes and edges.
pub struct SnapshotGraph {
    /// Nodes, in snapshot order.
    pub nodes: Vec<Node>,
    /// Edges, in snapshot order.
    pub edges: Vec<Edge>,
}

/// Compacts a base snapshot with a delta segment.
pub struct GraphCompactor {
    base: SnapshotGraph,
    delta: DeltaSegment,
}

impl GraphCompactor {
    /// The base snapshot.
    pub closed spec fn base(&self) -> SnapshotGraph {
        self.base
    }

    /// The delta segment.
    pub closed spec fn delta(&self) -> DeltaSegment {
        self.delta
    }

    /// Create a compactor over a base snapshot and an owned delta.
    pub fn new(base: SnapshotGraph, delta: DeltaSegment) -> (c: Self)
        ensures
            c.base() == base,
            c.delta() == delta,
    {
        GraphCompactor { base, delta }
    }

    /// Merge the delta into the base: the kept base nodes then the delta's
    /// nodes; the base edges then the delta's edges, each only when both its
    /// ends are among those nodes; and the counts of what was kept, dropped
    /// and added (the digest is left empty for the writer to fill in).
    pub fn compact(self) -> (r: (SnapshotGraph, CompactStats))
        ensures
            ({
                let inv = string_views(self.delta().invalidated_files@);
                let kept = kept_nodes(self.base().nodes@, inv);
                let nodes = kept + self.delta().new_nodes@;
                let alive = node_ids(nodes);
                let base_edges = edges_within(self.base().edges@, alive);
                let delta_edges = edges_within(self.delta().new_edges@, alive);
                &&& r.0.nodes@ == nodes
                &&& r.0.edges@ == base_edges + delta_edges
                &&& r.1.nodes_kept == kept.len()
                &&& r.1.nodes_dropped == self.base().nodes@.len() - kept.len()
                &&& r.1.nodes_from_delta == self.delta().new_nodes@.len()
                &&& r.1.edges_kept == base_edges.len()
                &&& r.1.edges_dropped == self.base().edges@.len() - base_edges.len()
                &&& r.1.edges_from_delta == delta_edges.len()
                &&& r.1.content_digest@.len() == 0
            }),
    {
        let ghost inv = string_views(self.delta.invalidated_files@);
        let ghost base_nodes = self.base.nodes@;
        let ghost delta_nodes = self.delta.new_nodes@;
        assert(base_nodes.len() == self.base.nodes.len());
        assert(delta_nodes.len() == self.delta.new_nodes.len());
        let GraphCompactor { base, delta } = self;
        let SnapshotGraph { nodes: base_node_vec, edges: base_edges } = base;
        let DeltaSegment { invalidated_files, new_nodes, new_edges } = delta;
        let mut stats = CompactStats::default();
        let mut alive: HashSet<NodeId> = HashSet::new();
        let mut nodes: Vec<Node> = Vec::new();
        let mut dropped: usize = 0;
        proof {
            assert(base_nodes.take(0) =~= Seq::<Node>::empty());
            assert(node_ids(Seq::<Node>::empty()) =~= Set::<NodeId>::empty());
        }
        for node in it: base_node_vec.into_iter()
            invariant
                it.seq() == base_nodes,
                inv == string_views(invalidated_files@),
                nodes@ == kept_nodes(base_nodes.take(it.index() as int), inv),
                alive@ == node_ids(nodes@),
                dropped + nodes@.len() == it.index(),
                base_nodes.len() <= usize::MAX,
        {
            proof {
                assert(base_nodes.take(it.index() + 1).drop_last() =~= base_nodes.take(it.index() as int));
                assert(base_nodes.take(it.index() + 1).last() == node);
            }
            if node_matches_invalidated(&node, &invalidated_files) {
                dropped = dropped + 1;
            } else {
                let ghost before = nodes@;
                alive.insert(node.id);
                nodes.push(node);
                proof {
                    assert(node_ids(nodes@) =~= node_ids(before).insert(node.id)) by {
                        assert forall|id: NodeId| node_ids(nodes@).contains(id) implies node_ids(before).insert(
                            node.id,
                        ).contains(id) by {
                            let i = choose|i: int| 0 <= i < nodes@.len() && nodes@[i].id == id;
                            if i < before.len() {
                                assert(before[i].id == id);
                            }
                        }
                        assert forall|id: NodeId| node_ids(before).insert(node.id).contains(id) implies node_ids(
                            nodes@,
                        ).contains(id) by {
                            if id == node.id {
                                assert(nodes@[before.len() as int].id == id);
                            } else {
                                let i = choose|i: int| 0 <= i < before.len() && before[i].id == id;
                                assert(nodes@[i].id == id);
                            }
                        }
                    }
                }
            }
        }
        proof {
            assert(base_nodes.take(base_nodes.len() as int) =~= base_nodes);
        }
        let ghost kept = nodes@;
        stats.nodes_kept = nodes.len();
        stats.nodes_dropped = dropped;
        let mut from_delta: usize = 0;
        for node in it: new_nodes.into_iter()
            invariant
                it.seq() == delta_nodes,
                nodes@ == kept + delta_nodes.take(it.index() as int),
                alive@ == node_ids(nodes@),
                from_delta == it.index(),
                delta_nodes.len() <= usize::MAX,
        {
            let ghost before = nodes@;
            alive.insert(node.id);
            nodes.push(node);
            proof {
                assert(delta_nodes.take(it.index() + 1) =~= delta_nodes.take(it.index() as int).push(node));
                assert(node_ids(nodes@) =~= node_ids(before).insert(node.id)) by {
                    assert forall|id: NodeId| node_ids(nodes@).contains(id) implies node_ids(before).insert(
                        node.id,
                    ).contains(id) by {
                        let i = choose|i: int| 0 <= i < nodes@.len() && nodes@[i].id == id;
                        if i < before.len() {
                            assert(before[i].id == id);
                        }
                    }
                    assert forall|id: NodeId| node_ids(before).insert(node.id).contains(id) implies node_ids(
                        nodes@,
                    ).contains(id) by {
                        if id == node.id {
                            assert(nodes@[before.len() as int].id == id);
                        } else {
                            let i = choose|i: int| 0 <= i < before.len() && before[i].id == id;
                            assert(nodes@[i].id == id);
                        }
                    }
                }
            }
            from_delta = from_delta + 1;
        }
        proof {
            assert(delta_nodes.take(delta_nodes.len() as int) =~= delta_nodes);
        }
        stats.nodes_from_delta = from_delta;
        let ghost all_alive = alive@;
        let mut edges: Vec<Edge> = Vec::new();
        let mut edges_dropped: usize = 0;
        let mut i: usize = 0;
        proof {
            assert(base_edges@.take(0) =~= Seq::<Edge>::empty());
        }
        while i < base_edges.len()
            invariant
                i <= base_edges@.len(),
                alive@ == all_alive,
                edges@ == edges_within(base_edges@.take(i as int), all_alive),
                edges_dropped + edges@.len() == i,
            decreases base_edges@.len() - i,
        {
            let e = base_edges[i];
            proof {
                assert(base_edges@.take(i + 1).drop_last() =~= base_edges@.take(i as int));
                assert(base_edges@.take(i + 1).last() == e);
            }
            if alive.contains(&e.from) && alive.contains(&e.to) {
                edges.push(e);
            } else {
                edges_dropped = edges_dropped + 1;
            }
            i = i + 1;
        }
        proof {
            assert(base_edges@.take(base_edges@.len() as int) =~= base_edges@);
        }
        stats.edges_kept = edges.len();
        stats.edges_dropped = edges_dropped;
        let ghost kept_edges = edges@;
        let mut j: usize = 0;
        let mut edges_from_delta: usize = 0;
        proof {
            assert(new_edges@.take(0) =~= Seq::<Edge>::empty());
            assert(kept_edges + edges_within(new_edges@.take(0), all_alive) =~= kept_edges);
        }
        while j < new_edges.len()
            invariant
                j <= new_edges@.len(),
                alive@ == all_alive,
                edges@ == kept_edges + edges_within(new_edges@.take(j as int), all_alive),
                edges_from_delta == edges_within(new_edges@.take(j as int), all_alive).len(),
                edges_from_delta <= j,
            decreases new_edges@.len() - j,
        {
            let e = new_edges[j];
            proof {
                assert(new_edges@.take(j + 1).drop_last() =~= new_edges@.take(j as int));
                assert(new_edges@.take(j + 1).last() == e);
            }
            if alive.contains(&e.from) && alive.contains(&e.to) {
                edges.push(e);
                edges_from_delta = edges_from_delta + 1;
            }
            j = j + 1;
        }
        proof {
            assert(new_edges@.take(new_edges@.len() as int) =~= new_edges@);
        }
        stats.edges_from_delta = edges_from_delta;
        (SnapshotGraph { nodes, edges }, stats)
    }
}


/// Every edge kept by `edges_within` has both ends in `alive`.
proof fn lemma_edges_within_closed(edges: Seq<Edge>, alive: Set<NodeId>)
    ensures
        forall|i: int|
            0 <= i < edges_within(edges, alive).len() ==> alive.contains(
                (#[trigger] edges_within(edges, alive)[i]).from,
            ) && alive.contains(edges_within(edges, alive)[i].to),
    decreases edges.len(),
{
    if edges.len() > 0 {
        lemma_edges_within_closed(edges.drop_last(), alive);
    }
}

/// No node of an invalidated file survives in the kept base nodes.
proof fn lemma_kept_nodes_valid(nodes: Seq<Node>, invalidated: Seq<Seq<char>>)
    ensures
        forall|i: int|
            0 <= i < kept_nodes(nodes, invalidated).len() ==> !matches_invalidated(
                #[trigger] kept_nodes(nodes, invalidated)[i],
                invalidated,
            ),
    decreases nodes.len(),
{
    if nodes.len() > 0 {
        lemma_kept_nodes_valid(nodes.drop_last(), invalidated);
        let r = kept_nodes(nodes.drop_last(), invalidated);
        if !matches_invalidated(nodes.last(), invalidated) {
            assert forall|i: int| 0 <= i < r.push(nodes.last()).len() implies !matches_invalidated(
                #[trigger] r.push(nodes.last())[i],
                invalidated,
            ) by {
                if i < r.len() {
                    assert(r.push(nodes.last())[i] == r[i]);
                }
            }
        }
    }
}

/// A compacted snapshot is closed and fresh: every edge joins two of its
/// nodes, and no base node of an invalidated file remains (the delta's own
/// nodes are all kept).
pub proof fn lemma_compaction_closed(base: SnapshotGraph, delta: DeltaSegment)
    ensures
        ({
            let inv = string_views(delta.invalidated_files@);
            let kept = kept_nodes(base.nodes@, inv);
            let nodes = kept + delta.new_nodes@;
            let alive = node_ids(nodes);
            let edges = edges_within(base.edges@, alive) + edges_within(delta.new_edges@, alive);
            &&& forall|i: int| 0 <= i < edges.len() ==> alive.contains((#[trigger] edges[i]).from) && alive.contains(edges[i].to)
            &&& forall|i: int| 0 <= i < kept.len() ==> !matches_invalidated(#[trigger] kept[i], inv)
        }),
{
    let inv = string_views(delta.invalidated_files@);
    let kept = kept_nodes(base.nodes@, inv);
    let nodes = kept + delta.new_nodes@;
    let alive = node_ids(nodes);
    let a = edges_within(base.edges@, alive);
    let b = edges_within(delta.new_edges@, alive);
    lemma_edges_within_closed(base.edges@, alive);
    lemma_edges_within_closed(delta.new_edges@, alive);
    lemma_kept_nodes_valid(base.nodes@, inv);
    assert forall|i: int| 0 <= i < (a + b).len() implies alive.contains((#[trigger] (a + b)[i]).from) && alive.contains(
        (a + b)[i].to,
    ) by {
        if i < a.len() {
            assert((a + b)[i] == a[i]);
        } else {
            assert((a + b)[i] == b[i - a.len()]);
        }
    }
}

} // verus!
