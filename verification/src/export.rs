//! Diagram export helpers: label escaping and stable diagram node ids.

use crate::text::{
    char_is_alphanumeric, decimal, decimal_chars, from_chars, push_char, to_chars,
    unicode_alphanumeric,
};
use crate::error::Error;
use crate::graph::{Edge, EdgeType, Node, NodeId};
use crate::query::{execute, query_positions, select_nodes, MemoryBackend};
use std::collections::HashSet;
use vstd::prelude::*;

verus! {

broadcast use vstd::std_specs::hash::group_hash_axioms;

/// How one character is written inside a Mermaid or DOT label.
pub open spec fn escape_char(c: char) -> Seq<char> {
    if c == '\\' {
        seq!['\\', '\\']
    } else if c == '"' {
        seq!['\\', '"']
    } else if c == '\n' {
        seq![' ']
    } else if c == '[' {
        seq!['(']
    } else if c == ']' {
        seq![')']
    } else {
        seq![c]
    }
}

/// `s` with each character escaped.
pub open spec fn escaped_label(s: Seq<char>) -> Seq<char>
    decreases s.len(),
{
    if s.len() == 0 {
        Seq::empty()
    } else {
        escaped_label(s.drop_last()) + escape_char(s.last())
    }
}

/// Escape text for Mermaid / DOT labels: backslashes and double quotes get a
/// backslash, newlines become spaces, square brackets become parentheses.
pub fn escape_label(text: &str) -> (r: String)
    ensures
        r@ == escaped_label(text@),
{
    let cs = to_chars(text);
    let mut r = String::new();
    let mut i: usize = 0;
    while i < cs.len()
        invariant
            cs@ == text@,
            i <= cs@.len(),
            r@ == escaped_label(cs@.take(i as int)),
        decreases cs@.len() - i,
    {
        let c = cs[i];
        let ghost before = r@;
        if c == '\\' {
            push_char(&mut r, '\\');
            push_char(&mut r, '\\');
        } else if c == '"' {
            push_char(&mut r, '\\');
            push_char(&mut r, '"');
        } else if c == '\n' {
            push_char(&mut r, ' ');
        } else if c == '[' {
            push_char(&mut r, '(');
        } else if c == ']' {
            push_char(&mut r, ')');
        } else {
            push_char(&mut r, c);
        }
        proof {
            assert(cs@.take(i + 1).drop_last() =~= cs@.take(i as int));
            assert(r@ =~= before + escape_char(c));
        }
        i = i + 1;
    }
    proof {
        assert(cs@.take(cs@.len() as int) =~= cs@);
    }
    r
}

/// Longest part of a name kept in a diagram id.
pub const DIAGRAM_NAME_CHARS: usize = 20;

/// The name part of a diagram id: its first characters, with every
/// non-alphanumeric one replaced by `_`.
pub open spec fn diagram_safe_name(name: Seq<char>) -> Seq<char> {
    let k = if name.len() < DIAGRAM_NAME_CHARS { name.len() as int } else { DIAGRAM_NAME_CHARS as int };
    name.take(k).map_values(|c: char| if unicode_alphanumeric(c) { c } else { '_' })
}

/// Stable short id for diagram nodes: `n`, the index, `_`, and the safe name.
pub fn node_diagram_id(index: usize, name: &str) -> (r: String)
    ensures
        r@ == seq!['n'] + decimal(index as nat) + seq!['_'] + diagram_safe_name(name@),
{
    let cs = to_chars(name);
    let k: usize = if cs.len() < DIAGRAM_NAME_CHARS { cs.len() } else { DIAGRAM_NAME_CHARS };
    let mut out: Vec<char> = Vec::new();
    out.push('n');
    let digits = decimal_chars(index as u64);
    let mut j: usize = 0;
    while j < digits.len()
        invariant
            j <= digits@.len(),
            out@ == seq!['n'] + digits@.take(j as int),
        decreases digits@.len() - j,
    {
        out.push(digits[j]);
        proof {
            assert(digits@.take(j + 1) =~= digits@.take(j as int).push(digits@[j as int]));
        }
        j = j + 1;
    }
    out.push('_');
    let ghost head = out@;
    let mut i: usize = 0;
    while i < k
        invariant
            cs@ == name@,
            k <= cs@.len(),
            i <= k,
            out@ == head + cs@.take(i as int).map_values(|c: char| if unicode_alphanumeric(c) { c } else { '_' }),
        decreases k - i,
    {
        let c = cs[i];
        let alnum = char_is_alphanumeric(c);
        out.push(if alnum { c } else { '_' });
        proof {
            assert(cs@.take(i + 1).map_values(|c: char| if unicode_alphanumeric(c) { c } else { '_' })
                =~= cs@.take(i as int).map_values(|c: char| if unicode_alphanumeric(c) { c } else { '_' }).push(
                if alnum { c } else { '_' },
            ));
        }
        i = i + 1;
    }
    proof {
        assert(digits@.take(digits@.len() as int) =~= digits@);
        assert(out@ =~= seq!['n'] + decimal(index as nat) + seq!['_'] + diagram_safe_name(name@));
    }
    from_chars(out.as_slice())
}

/// Nodes and edges selected for export.
pub struct Subgraph<'a> {
    /// Selected nodes.
    pub nodes: Vec<&'a Node>,
    /// Edges whose endpoints are both selected nodes.
    pub edges: Vec<Edge>,
}

/// Edge kinds followed when expanding a selection.
pub open spec fn expands_along(t: EdgeType) -> bool {
    t == EdgeType::Calls || t == EdgeType::Contains || t == EdgeType::Uses
}

/// Ids one expansion step away from `ids`, along calls, containment and uses,
/// in either direction.
pub open spec fn neighbors(edges: Seq<Edge>, ids: Set<NodeId>) -> Set<NodeId>
    decreases edges.len(),
{
    if edges.len() == 0 {
        Set::empty()
    } else {
        let r = neighbors(edges.drop_last(), ids);
        let e = edges.last();
        if !expands_along(e.edge_type) {
            r
        } else {
            let r1 = if ids.contains(e.from) { r.insert(e.to) } else { r };
            if ids.contains(e.to) { r1.insert(e.from) } else { r1 }
        }
    }
}

/// Ids within `k` expansion steps of `seeds`.
pub open spec fn reach(edges: Seq<Edge>, seeds: Set<NodeId>, k: nat) -> Set<NodeId>
    decreases k,
{
    if k == 0 {
        seeds
    } else {
        let r = reach(edges, seeds, (k - 1) as nat);
        r.union(neighbors(edges, r))
    }
}

/// Once a step adds nothing, no later step does.
proof fn lemma_reach_stable(edges: Seq<Edge>, seeds: Set<NodeId>, k: nat, j: nat)
    requires
        k <= j,
        reach(edges, seeds, k + 1) == reach(edges, seeds, k),
    ensures
        reach(edges, seeds, j) == reach(edges, seeds, k),
    decreases j - k,
{
    if j > k + 1 {
        lemma_reach_stable(edges, seeds, k, (j - 1) as nat);
        assert(reach(edges, seeds, j) == reach(edges, seeds, (j - 1) as nat).union(
            neighbors(edges, reach(edges, seeds, (j - 1) as nat)),
        ));
    }
}

/// Ids of the nodes.
pub open spec fn ids_of(nodes: Seq<Node>) -> Set<NodeId> {
    Set::new(|id: NodeId| exists|i: int| 0 <= i < nodes.len() && nodes[i].id == id)
}

/// The store's nodes whose ids are in `ids`, in store order.
pub open spec fn nodes_with_ids(nodes: Seq<Node>, ids: Set<NodeId>) -> Seq<Node>
    decreases nodes.len(),
{
    if nodes.len() == 0 {
        nodes
    } else {
        let r = nodes_with_ids(nodes.drop_last(), ids);
        if ids.contains(nodes.last().id) {
            r.push(nodes.last())
        } else {
            r
        }
    }
}

/// The store's edges with both ends in `ids`, in store order.
pub open spec fn edges_among(edges: Seq<Edge>, ids: Set<NodeId>) -> Seq<Edge>
    decreases edges.len(),
{
    if edges.len() == 0 {
        edges
    } else {
        let r = edges_among(edges.drop_last(), ids);
        if ids.contains(edges.last().from) && ids.contains(edges.last().to) {
            r.push(edges.last())
        } else {
            r
        }
    }
}

/// The ids a selection includes: the seeds' ids, expanded `max_depth` steps
/// when a depth is given.
pub open spec fn included_ids(edges: Seq<Edge>, seeds: Seq<Node>, max_depth: Option<usize>) -> Set<NodeId> {
    match max_depth {
        Some(d) => reach(edges, ids_of(seeds), d as nat),
        None => ids_of(seeds),
    }
}

/// Expand `ids` by one step in place; returns whether anything was added.
fn expand_once(edges: &[Edge], ids: &mut HashSet<NodeId>) -> (grew: bool)
    ensures
        final(ids)@ == old(ids)@.union(neighbors(edges@, old(ids)@)),
        !grew ==> final(ids)@ == old(ids)@,
{
    let ghost start = ids@;
    let mut adds: Vec<NodeId> = Vec::new();
    let mut i: usize = 0;
    proof {
        assert(edges@.take(0) =~= Seq::<Edge>::empty());
    }
    while i < edges.len()
        invariant
            i <= edges@.len(),
            ids@ == start,
            forall|y: NodeId| adds@.contains(y) <==> #[trigger] neighbors(edges@.take(i as int), start).contains(y),
        decreases edges@.len() - i,
    {
        let e = edges[i];
        let ghost ab = adds@;
        proof {
            assert(edges@.take(i + 1).drop_last() =~= edges@.take(i as int));
            assert(edges@.take(i + 1).last() == e);
        }
        if e.edge_type == EdgeType::Calls || e.edge_type == EdgeType::Contains || e.edge_type == EdgeType::Uses {
            if ids.contains(&e.from) {
                adds.push(e.to);
            }
            let ghost ab1 = adds@;
            if ids.contains(&e.to) {
                adds.push(e.from);
            }
            proof {
                assert forall|y: NodeId| adds@.contains(y) <==> (ab.contains(y) || (start.contains(e.from) && y == e.to)
                    || (start.contains(e.to) && y == e.from)) by {
                    if adds@.contains(y) {
                        let q = choose|q: int| 0 <= q < adds@.len() && adds@[q] == y;
                        if q < ab.len() {
                            assert(ab[q] == y);
                        }
                    }
                    if ab.contains(y) {
                        let q = choose|q: int| 0 <= q < ab.len() && ab[q] == y;
                        assert(adds@[q] == y);
                    }
                    if start.contains(e.from) && y == e.to {
                        assert(ab1[ab.len() as int] == y);
                        assert(adds@[ab.len() as int] == y);
                    }
                    if start.contains(e.to) && y == e.from {
                        assert(adds@[adds@.len() - 1] == y);
                    }
                }
            }
        }
        proof {
            let n1 = neighbors(edges@.take(i + 1), start);
            let n0 = neighbors(edges@.take(i as int), start);
            let ex = e.edge_type == EdgeType::Calls || e.edge_type == EdgeType::Contains || e.edge_type
                == EdgeType::Uses;
            assert(expands_along(e.edge_type) == ex);
            assert forall|y: NodeId| adds@.contains(y) <==> n1.contains(y) by {
                assert(n0.contains(y) <==> ab.contains(y));
                if !ex {
                    assert(adds@ == ab);
                }
            }
        }
        i = i + 1;
    }
    proof {
        assert(edges@.take(edges@.len() as int) =~= edges@);
    }
    let mut grew = false;
    let mut k: usize = 0;
    while k < adds.len()
        invariant
            k <= adds@.len(),
            ids@ == start.union(Set::new(|y: NodeId| adds@.take(k as int).contains(y))),
            !grew ==> ids@ == start,
        decreases adds@.len() - k,
    {
        let ghost before = ids@;
        let fresh = ids.insert(adds[k]);
        if fresh {
            grew = true;
        }
        proof {
            let t0 = adds@.take(k as int);
            let t1 = adds@.take(k + 1);
            assert(t1 =~= t0.push(adds@[k as int]));
            assert forall|y: NodeId| t1.contains(y) <==> (t0.contains(y) || y == adds@[k as int]) by {
                if t1.contains(y) {
                    let q = choose|q: int| 0 <= q < t1.len() && t1[q] == y;
                    if q < t0.len() {
                        assert(t0[q] == y);
                    }
                }
                if t0.contains(y) {
                    let q = choose|q: int| 0 <= q < t0.len() && t0[q] == y;
                    assert(t1[q] == y);
                }
                if y == adds@[k as int] {
                    assert(t1[k as int] == y);
                }
            }
            assert(ids@ =~= start.union(Set::new(|y: NodeId| t1.contains(y))));
            if !fresh {
                assert(ids@ =~= before);
            }
        }
        k = k + 1;
    }
    proof {
        assert(adds@.take(adds@.len() as int) =~= adds@);
        assert(ids@ =~= start.union(neighbors(edges@, start)));
    }
    grew
}

/// Select the nodes matching `query`, expanded along calls, containment and
/// uses (either direction) up to `max_depth` steps when given, with every
/// edge whose two ends were selected.
pub fn select_subgraph<'a>(backend: &'a MemoryBackend, query: &str, max_depth: Option<usize>) -> (r: Result<Subgraph<'a>, Error>)
    ensures
        match query_positions(backend.node_seq(), query@) {
            Ok(s) => r matches Ok(sg) && {
                let seeds = select_nodes(backend.node_seq(), s);
                let ids = included_ids(backend.edge_seq(), seeds, max_depth);
                let chosen = nodes_with_ids(backend.node_seq(), ids);
                &&& sg.nodes@.map_values(|x: &Node| *x) == chosen
                &&& sg.edges@ == edges_among(backend.edge_seq(), ids_of(chosen))
            },
            Err(msg) => r matches Err(Error::InvalidQuery(e)) && e@ == msg,
        },
{
    let seeds = match execute(backend, query) {
        Ok(s) => s,
        Err(e) => {
            return Err(e);
        },
    };
    let ghost seed_nodes = seeds@.map_values(|x: &Node| *x);
    let nodes = backend.nodes();
    let edges = backend.edges();
    let mut ids: HashSet<NodeId> = HashSet::new();
    let mut k: usize = 0;
    while k < seeds.len()
        invariant
            k <= seeds@.len(),
            seed_nodes == seeds@.map_values(|x: &Node| *x),
            ids@ == ids_of(seed_nodes.take(k as int)),
        decreases seeds@.len() - k,
    {
        ids.insert(seeds[k].id);
        proof {
            let t0 = seed_nodes.take(k as int);
            let t1 = seed_nodes.take(k + 1);
            assert(t1 =~= t0.push(seed_nodes[k as int]));
            assert(ids@ =~= ids_of(t1)) by {
                assert forall|id: NodeId| ids_of(t1).contains(id) implies ids@.contains(id) by {
                    let j = choose|j: int| 0 <= j < t1.len() && t1[j].id == id;
                    if j < k {
                        assert(t0[j].id == id);
                    }
                }
                assert forall|id: NodeId| ids@.contains(id) implies ids_of(t1).contains(id) by {
                    if id != seeds@[k as int].id {
                        let j = choose|j: int| 0 <= j < t0.len() && t0[j].id == id;
                        assert(t1[j].id == id);
                    } else {
                        assert(t1[k as int].id == id);
                    }
                }
            }
        }
        k = k + 1;
    }
    proof {
        assert(seed_nodes.take(seeds@.len() as int) =~= seed_nodes);
    }
    let ghost seed_ids = ids@;
    match max_depth {
        Some(depth) => {
            let mut level: usize = 0;
            let mut stable = false;
            while level < depth && !stable
                invariant
                    level <= depth,
                    ids@ == reach(edges@, seed_ids, level as nat),
                    stable ==> reach(edges@, seed_ids, (level + 1) as nat) == reach(edges@, seed_ids, level as nat),
                decreases depth - level, if stable { 0int } else { 1int },
            {
                let grew = expand_once(edges, &mut ids);
                if grew {
                    level = level + 1;
                } else {
                    stable = true;
                }
            }
            proof {
                if stable {
                    lemma_reach_stable(edges@, seed_ids, level as nat, depth as nat);
                }
            }
        },
        None => {},
    }
    let ghost inc = ids@;
    let mut chosen: Vec<&Node> = Vec::new();
    let mut chosen_ids: HashSet<NodeId> = HashSet::new();
    let mut j: usize = 0;
    proof {
        assert(nodes@.take(0) =~= Seq::<Node>::empty());
        assert(ids_of(Seq::<Node>::empty()) =~= Set::<NodeId>::empty());
    }
    while j < nodes.len()
        invariant
            j <= nodes@.len(),
            ids@ == inc,
            chosen@.map_values(|x: &Node| *x) == nodes_with_ids(nodes@.take(j as int), inc),
            chosen_ids@ == ids_of(chosen@.map_values(|x: &Node| *x)),
        decreases nodes@.len() - j,
    {
        proof {
            assert(nodes@.take(j + 1).drop_last() =~= nodes@.take(j as int));
            assert(nodes@.take(j + 1).last() == nodes@[j as int]);
        }
        if ids.contains(&nodes[j].id) {
            let ghost cb = chosen@.map_values(|x: &Node| *x);
            chosen.push(&nodes[j]);
            chosen_ids.insert(nodes[j].id);
            proof {
                let cv = chosen@.map_values(|x: &Node| *x);
                assert(cv =~= cb.push(nodes@[j as int]));
                assert(chosen_ids@ =~= ids_of(cv)) by {
                    assert forall|id: NodeId| ids_of(cv).contains(id) implies chosen_ids@.contains(id) by {
                        let q = choose|q: int| 0 <= q < cv.len() && cv[q].id == id;
                        if q < cb.len() {
                            assert(cb[q].id == id);
                        }
                    }
                    assert forall|id: NodeId| chosen_ids@.contains(id) implies ids_of(cv).contains(id) by {
                        if id == nodes@[j as int].id {
                            assert(cv[cb.len() as int].id == id);
                        } else {
                            let q = choose|q: int| 0 <= q < cb.len() && cb[q].id == id;
                            assert(cv[q].id == id);
                        }
                    }
                }
            }
        }
        j = j + 1;
    }
    proof {
        assert(nodes@.take(nodes@.len() as int) =~= nodes@);
    }
    let mut kept: Vec<Edge> = Vec::new();
    let mut q: usize = 0;
    proof {
        assert(edges@.take(0) =~= Seq::<Edge>::empty());
    }
    while q < edges.len()
        invariant
            q <= edges@.len(),
            kept@ == edges_among(edges@.take(q as int), chosen_ids@),
        decreases edges@.len() - q,
    {
        let e = edges[q];
        proof {
            assert(edges@.take(q + 1).drop_last() =~= edges@.take(q as int));
            assert(edges@.take(q + 1).last() == e);
        }
        if chosen_ids.contains(&e.from) && chosen_ids.contains(&e.to) {
            kept.push(e);
        }
        q = q + 1;
    }
    proof {
        assert(edges@.take(edges@.len() as int) =~= edges@);
    }
    Ok(Subgraph { nodes: chosen, edges: kept })
}


/// Node and edge counts of what a query exports: the whole graph for `all`,
/// otherwise the subgraph of the matching nodes (no expansion).
pub fn filtered_counts(backend: &MemoryBackend, query: &str) -> (r: Result<(usize, usize), Error>)
    ensures
        query@ == "all"@ ==> r == Ok::<(usize, usize), Error>(
            (backend.node_seq().len() as usize, backend.edge_seq().len() as usize),
        ),
        query@ != "all"@ ==> match query_positions(backend.node_seq(), query@) {
            Ok(s) => r matches Ok(c) && {
                let chosen = nodes_with_ids(backend.node_seq(), ids_of(select_nodes(backend.node_seq(), s)));
                &&& c.0 == chosen.len()
                &&& c.1 == edges_among(backend.edge_seq(), ids_of(chosen)).len()
            },
            Err(msg) => r matches Err(Error::InvalidQuery(e)) && e@ == msg,
        },
{
    if crate::text::str_eq(query, "all") {
        return Ok((backend.node_count(), backend.edge_count()));
    }
    match select_subgraph(backend, query, None) {
        Ok(sg) => Ok((sg.nodes.len(), sg.edges.len())),
        Err(e) => Err(e),
    }
}


/// A deeper expansion keeps everything a shallower one selects (and depth 0
/// is the matches themselves).
pub proof fn lemma_expansion_monotone(edges: Seq<Edge>, seeds: Set<NodeId>, k: nat, j: nat)
    requires
        k <= j,
    ensures
        reach(edges, seeds, k).subset_of(reach(edges, seeds, j)),
        seeds.subset_of(reach(edges, seeds, j)),
    decreases j,
{
    if j > 0 {
        if k < j {
            lemma_expansion_monotone(edges, seeds, k, (j - 1) as nat);
        }
        lemma_expansion_monotone(edges, seeds, 0, (j - 1) as nat);
    }
}

/// A subgraph's edges join two of its nodes.
pub proof fn lemma_subgraph_edges_closed(edges: Seq<Edge>, ids: Set<NodeId>)
    ensures
        forall|i: int|
            0 <= i < edges_among(edges, ids).len() ==> ids.contains((#[trigger] edges_among(edges, ids)[i]).from)
                && ids.contains(edges_among(edges, ids)[i].to),
    decreases edges.len(),
{
    if edges.len() > 0 {
        lemma_subgraph_edges_closed(edges.drop_last(), ids);
        let r = edges_among(edges.drop_last(), ids);
        if ids.contains(edges.last().from) && ids.contains(edges.last().to) {
            assert forall|i: int| 0 <= i < r.push(edges.last()).len() implies ids.contains(
                (#[trigger] r.push(edges.last())[i]).from,
            ) && ids.contains(r.push(edges.last())[i].to) by {
                if i < r.len() {
                    assert(r.push(edges.last())[i] == r[i]);
                }
            }
        }
    }
}

} // verus!
