//! Universe layout data: bridges between communities, and the units (class,
//! file or module groups) that a package's members fall into.

use crate::graph::{Node, NodeId, NodeType};
use crate::obsidian::node_by_id;
use std::collections::HashMap;
use crate::text::{from_chars, str_eq, string_of_range, to_chars};
use vstd::prelude::*;

verus! {

broadcast use vstd::std_specs::hash::group_hash_axioms;

/// Weighted link between two communities (`source < target`).
#[derive(Clone, Copy, Debug, PartialEq, Eq, Structural)]
pub struct UniverseBridge {
    /// The smaller community id.
    pub source_community_id: usize,
    /// The larger community id.
    pub target_community_id: usize,
    /// Summed weight of the package edges between the two communities.
    pub weight: u32,
}

/// A package of the metagraph, as the layout reads it.
#[derive(Clone, Debug)]
pub struct Metanode {
    /// Package id.
    pub id: u32,
    /// Package label.
    pub label: String,
    /// Graph node indices of the package's members.
    pub member_indices: Vec<u32>,
    /// Community of the package, when assigned.
    pub community_id: Option<usize>,
}

/// A weighted edge between two packages.
#[derive(Clone, Debug)]
pub struct Metaedge {
    /// Source package id.
    pub source: u32,
    /// Target package id.
    pub target: u32,
    /// Edge weight.
    pub weight: u32,
}

// ---------------------------------------------------------------------------
// Bridges
// ---------------------------------------------------------------------------

/// Community of package `id`: that of the last package with this id and a community.
pub open spec fn community_of(ns: Seq<Metanode>, id: u32) -> Option<usize>
    decreases ns.len(),
{
    if ns.len() == 0 {
        None
    } else if ns.last().id == id && ns.last().community_id is Some {
        ns.last().community_id
    } else {
        community_of(ns.drop_last(), id)
    }
}

/// The ordered community pair an edge bridges, when its ends lie in two
/// different communities.
pub open spec fn edge_pair(ns: Seq<Metanode>, e: Metaedge) -> Option<(usize, usize)> {
    match (community_of(ns, e.source), community_of(ns, e.target)) {
        (Some(a), Some(b)) => if a == b {
            None
        } else if a < b {
            Some((a, b))
        } else {
            Some((b, a))
        },
        _ => None,
    }
}

/// Total weight of the edges bridging pair `p`.
pub open spec fn pair_weight(ns: Seq<Metanode>, es: Seq<Metaedge>, p: (usize, usize)) -> nat
    decreases es.len(),
{
    if es.len() == 0 {
        0
    } else {
        pair_weight(ns, es.drop_last(), p) + if edge_pair(ns, es.last()) == Some(p) {
            es.last().weight as nat
        } else {
            0
        }
    }
}

/// Some edge bridges pair `p`.
pub open spec fn pair_present(ns: Seq<Metanode>, es: Seq<Metaedge>, p: (usize, usize)) -> bool {
    exists|i: int| 0 <= i < es.len() && edge_pair(ns, es[i]) == Some(p)
}

/// `x` comes before `y`: heavier first, then by source, then by target.
pub open spec fn bridge_before(x: UniverseBridge, y: UniverseBridge) -> bool {
    x.weight > y.weight || (x.weight == y.weight && (x.source_community_id < y.source_community_id || (
    x.source_community_id == y.source_community_id && x.target_community_id < y.target_community_id)))
}

/// The pair of a bridge.
pub open spec fn bridge_key(b: UniverseBridge) -> (usize, usize) {
    (b.source_community_id, b.target_community_id)
}

proof fn lemma_pair_weight_prefix(ns: Seq<Metanode>, es: Seq<Metaedge>, k: int, p: (usize, usize))
    requires
        0 <= k <= es.len(),
    ensures
        pair_weight(ns, es.take(k), p) <= pair_weight(ns, es, p),
    decreases es.len() - k,
{
    if k < es.len() {
        lemma_pair_weight_prefix(ns, es, k + 1, p);
        assert(es.take(k + 1).drop_last() =~= es.take(k));
    } else {
        assert(es.take(k) =~= es);
    }
}

fn community_of_exec(ns: &[Metanode], id: u32) -> (r: Option<usize>)
    ensures
        r == community_of(ns@, id),
{
    let mut i: usize = ns.len();
    proof {
        assert(ns@.take(ns@.len() as int) =~= ns@);
    }
    while i > 0
        invariant
            i <= ns@.len(),
            community_of(ns@, id) == community_of(ns@.take(i as int), id),
        decreases i,
    {
        proof {
            assert(ns@.take(i as int).drop_last() =~= ns@.take(i - 1));
            assert(ns@.take(i as int).last() == ns@[i - 1]);
        }
        let n = &ns[i - 1];
        if n.id == id && n.community_id.is_some() {
            return n.community_id;
        }
        i = i - 1;
    }
    proof {
        assert(ns@.take(0) =~= Seq::<Metanode>::empty());
    }
    None
}

/// Bridges between communities: one per pair of distinct communities joined
/// by a package edge, weighted by the summed edge weights; heaviest first,
/// then by source and target community.
pub fn bridge_edges(metanodes: &[Metanode], metaedges: &[Metaedge]) -> (bridges: Vec<UniverseBridge>)
    requires
        forall|a: usize, b: usize| pair_weight(metanodes@, metaedges@, (a, b)) <= u32::MAX,
    ensures
        forall|i: int|
            0 <= i < bridges@.len() ==> {
                let b = #[trigger] bridges@[i];
                &&& b.source_community_id < b.target_community_id
                &&& pair_present(metanodes@, metaedges@, bridge_key(b))
                &&& b.weight == pair_weight(metanodes@, metaedges@, bridge_key(b))
            },
        forall|a: usize, b: usize|
            #![trigger pair_present(metanodes@, metaedges@, (a, b))]
            pair_present(metanodes@, metaedges@, (a, b)) ==> exists|i: int|
                0 <= i < bridges@.len() && bridge_key(bridges@[i]) == (a, b),
        forall|i: int, j: int| 0 <= i < j < bridges@.len() ==> bridge_before(bridges@[i], bridges@[j]),
{
    let ghost ns = metanodes@;
    let ghost es = metaedges@;
    let mut acc: Vec<UniverseBridge> = Vec::new();
    let mut i: usize = 0;
    proof {
        assert(es.take(0) =~= Seq::<Metaedge>::empty());
    }
    while i < metaedges.len()
        invariant
            i <= es.len(),
            ns == metanodes@,
            es == metaedges@,
            forall|a: usize, b: usize| pair_weight(ns, es, (a, b)) <= u32::MAX,
            forall|x: int, y: int| 0 <= x < y < acc@.len() ==> bridge_key(acc@[x]) != bridge_key(acc@[y]),
            forall|x: int|
                0 <= x < acc@.len() ==> {
                    let b = #[trigger] acc@[x];
                    &&& b.source_community_id < b.target_community_id
                    &&& pair_present(ns, es.take(i as int), bridge_key(b))
                    &&& b.weight == pair_weight(ns, es.take(i as int), bridge_key(b))
                },
            forall|a: usize, b: usize|
                #![trigger pair_present(ns, es.take(i as int), (a, b))]
                pair_present(ns, es.take(i as int), (a, b)) ==> exists|x: int|
                    0 <= x < acc@.len() && bridge_key(acc@[x]) == (a, b),
        decreases es.len() - i,
    {
        let e = &metaedges[i];
        let src = community_of_exec(metanodes, e.source);
        let dst = community_of_exec(metanodes, e.target);
        let ghost t0 = es.take(i as int);
        let ghost t1 = es.take(i + 1);
        proof {
            assert(t1.drop_last() =~= t0);
            assert(t1.last() == *e);
        }
        let pair: Option<(usize, usize)> = match (src, dst) {
            (Some(a), Some(b)) => if a == b {
                None
            } else if a < b {
                Some((a, b))
            } else {
                Some((b, a))
            },
            _ => None,
        };
        proof {
            assert(pair == edge_pair(ns, *e));
            assert forall|p: (usize, usize)| #[trigger] pair_weight(ns, t1, p) == pair_weight(ns, t0, p) + if pair == Some(p) {
                e.weight as nat
            } else {
                0
            } by {}
            assert forall|p: (usize, usize)| #[trigger] pair_present(ns, t1, p) <==> (pair_present(ns, t0, p) || pair == Some(p)) by {
                if pair_present(ns, t1, p) {
                    let q = choose|q: int| 0 <= q < t1.len() && edge_pair(ns, t1[q]) == Some(p);
                    if q < t0.len() {
                        assert(t0[q] == t1[q]);
                    }
                }
                if pair_present(ns, t0, p) {
                    let q = choose|q: int| 0 <= q < t0.len() && edge_pair(ns, t0[q]) == Some(p);
                    assert(t1[q] == t0[q]);
                }
                if pair == Some(p) {
                    assert(t1[i as int] == *e);
                }
            }
        }
        let ghost a0 = acc@;
        match pair {
            None => {
                proof {
                    assert forall|x: int| 0 <= x < acc@.len() implies {
                        let bb = #[trigger] acc@[x];
                        &&& pair_present(ns, t1, bridge_key(bb))
                        &&& bb.weight == pair_weight(ns, t1, bridge_key(bb))
                    } by {
                        assert(pair_weight(ns, t1, bridge_key(acc@[x])) == pair_weight(ns, t0, bridge_key(acc@[x])));
                        assert(pair_present(ns, t0, bridge_key(acc@[x])));
                    }
                }
            },
            Some((a, b)) => {
                let mut j: usize = 0;
                let mut found = false;
                while j < acc.len() && !found
                    invariant
                        j <= acc@.len(),
                        found ==> j < acc@.len() && bridge_key(acc@[j as int]) == (a, b),
                        !found ==> forall|x: int| 0 <= x < j ==> bridge_key(acc@[x]) != (a, b),
                    decreases acc@.len() - j, if found { 0int } else { 1int },
                {
                    if acc[j].source_community_id == a && acc[j].target_community_id == b {
                        found = true;
                    } else {
                        j = j + 1;
                    }
                }
                let ghost ab = acc@;
                assert(ab == a0);
                if found {
                    proof {
                        lemma_pair_weight_prefix(ns, es, i + 1, (a, b));
                        assert(acc@[j as int].weight == pair_weight(ns, t0, (a, b)));
                    }
                    let old_b = acc[j];
                    let nb = UniverseBridge {
                        source_community_id: a,
                        target_community_id: b,
                        weight: old_b.weight + e.weight,
                    };
                    acc.set(j, nb);
                    proof {
                        assert(bridge_key(acc@[j as int]) == (a, b));
                        assert(exists|x: int| 0 <= x < acc@.len() && bridge_key(acc@[x]) == (a, b));
                        assert forall|x: int| 0 <= x < acc@.len() implies {
                            let bb = #[trigger] acc@[x];
                            &&& bb.source_community_id < bb.target_community_id
                            &&& pair_present(ns, t1, bridge_key(bb))
                            &&& bb.weight == pair_weight(ns, t1, bridge_key(bb))
                        } by {
                            if x != j {
                                assert(acc@[x] == ab[x]);
                                assert(bridge_key(ab[x]) != (a, b));
                                assert(pair_weight(ns, t1, bridge_key(ab[x])) == pair_weight(ns, t0, bridge_key(ab[x])));
                                assert(pair_present(ns, t0, bridge_key(ab[x])));
                            }
                        }
                        assert forall|x: int, y: int| 0 <= x < y < acc@.len() implies bridge_key(acc@[x]) != bridge_key(acc@[y]) by {
                            assert(bridge_key(acc@[x]) == bridge_key(ab[x]));
                            assert(bridge_key(acc@[y]) == bridge_key(ab[y]));
                        }
                    }
                } else {
                    proof {
                        lemma_pair_weight_prefix(ns, es, i + 1, (a, b));
                        assert(!pair_present(ns, t0, (a, b)));
                        assert(pair_weight(ns, t0, (a, b)) == 0) by {
                            lemma_pair_weight_absent(ns, t0, (a, b));
                        }
                    }
                    acc.push(UniverseBridge { source_community_id: a, target_community_id: b, weight: e.weight });
                    proof {
                        assert forall|x: int| 0 <= x < acc@.len() implies {
                            let bb = #[trigger] acc@[x];
                            &&& bb.source_community_id < bb.target_community_id
                            &&& pair_present(ns, t1, bridge_key(bb))
                            &&& bb.weight == pair_weight(ns, t1, bridge_key(bb))
                        } by {
                            if x < ab.len() {
                                assert(acc@[x] == ab[x]);
                                assert(bridge_key(ab[x]) != (a, b));
                                assert(pair_weight(ns, t1, bridge_key(ab[x])) == pair_weight(ns, t0, bridge_key(ab[x])));
                                assert(pair_present(ns, t0, bridge_key(ab[x])));
                            }
                        }
                        assert(bridge_key(acc@[ab.len() as int]) == (a, b));
                        assert(exists|x: int| 0 <= x < acc@.len() && bridge_key(acc@[x]) == (a, b));
                    }
                }
            },
        }
        proof {
            assert(acc@.len() >= a0.len());
            assert(forall|x: int| 0 <= x < a0.len() ==> bridge_key(#[trigger] acc@[x]) == bridge_key(a0[x]));
            assert(pair matches Some(p) ==> exists|x: int| 0 <= x < acc@.len() && bridge_key(acc@[x]) == p);
            assert forall|a: usize, b: usize|
                #![trigger pair_present(ns, t1, (a, b))]
                pair_present(ns, t1, (a, b)) implies exists|x: int| 0 <= x < acc@.len() && bridge_key(acc@[x]) == (a, b) by {
                if pair_present(ns, t0, (a, b)) {
                    let x = choose|x: int| 0 <= x < a0.len() && bridge_key(a0[x]) == (a, b);
                    assert(bridge_key(acc@[x]) == (a, b));
                }
            }
        }
        i = i + 1;
    }
    proof {
        assert(es.take(es.len() as int) =~= es);
    }
    let ghost acc_v = acc@;
    let out = sort_bridges(acc);
    proof {
        assert forall|i: int| 0 <= i < out@.len() implies {
            let b = #[trigger] out@[i];
            &&& b.source_community_id < b.target_community_id
            &&& pair_present(ns, es, bridge_key(b))
            &&& b.weight == pair_weight(ns, es, bridge_key(b))
        } by {
            assert(out@.contains(out@[i]));
            let x = choose|x: int| 0 <= x < acc_v.len() && acc_v[x] == out@[i];
        }
        assert forall|a: usize, b: usize|
            #![trigger pair_present(ns, es, (a, b))]
            pair_present(ns, es, (a, b)) implies exists|i: int| 0 <= i < out@.len() && bridge_key(out@[i]) == (a, b) by {
            let x = choose|x: int| 0 <= x < acc_v.len() && bridge_key(acc_v[x]) == (a, b);
            assert(acc_v.contains(acc_v[x]));
            assert(out@.contains(acc_v[x]));
            let i = choose|i: int| 0 <= i < out@.len() && out@[i] == acc_v[x];
        }
    }
    out
}

/// No edge bridges the pair: its weight is zero.
proof fn lemma_pair_weight_absent(ns: Seq<Metanode>, es: Seq<Metaedge>, p: (usize, usize))
    requires
        !pair_present(ns, es, p),
    ensures
        pair_weight(ns, es, p) == 0,
    decreases es.len(),
{
    if es.len() > 0 {
        assert(!pair_present(ns, es.drop_last(), p)) by {
            if pair_present(ns, es.drop_last(), p) {
                let q = choose|q: int| 0 <= q < es.drop_last().len() && edge_pair(ns, es.drop_last()[q]) == Some(p);
                assert(es[q] == es.drop_last()[q]);
            }
        }
        lemma_pair_weight_absent(ns, es.drop_last(), p);
        assert(edge_pair(ns, es.last()) != Some(p)) by {
            if edge_pair(ns, es.last()) == Some(p) {
                assert(es[es.len() - 1] == es.last());
            }
        }
    }
}

proof fn lemma_before_total(x: UniverseBridge, y: UniverseBridge)
    requires
        bridge_key(x) != bridge_key(y),
    ensures
        bridge_before(x, y) || bridge_before(y, x),
{
}

proof fn lemma_before_trans(x: UniverseBridge, y: UniverseBridge, z: UniverseBridge)
    requires
        bridge_before(x, y),
        bridge_before(y, z),
    ensures
        bridge_before(x, z),
{
}

fn before_exec(x: &UniverseBridge, y: &UniverseBridge) -> (r: bool)
    ensures
        r == bridge_before(*x, *y),
{
    x.weight > y.weight || (x.weight == y.weight && (x.source_community_id < y.source_community_id || (
    x.source_community_id == y.source_community_id && x.target_community_id < y.target_community_id)))
}

/// The bridges in `bridge_before` order (their keys are distinct).
fn sort_bridges(acc: Vec<UniverseBridge>) -> (out: Vec<UniverseBridge>)
    requires
        forall|x: int, y: int| 0 <= x < y < acc@.len() ==> bridge_key(acc@[x]) != bridge_key(acc@[y]),
    ensures
        out@.len() == acc@.len(),
        forall|b: UniverseBridge| out@.contains(b) <==> acc@.contains(b),
        forall|i: int, j: int| 0 <= i < j < out@.len() ==> bridge_before(out@[i], out@[j]),
{
    let mut out: Vec<UniverseBridge> = Vec::new();
    let mut m: usize = 0;
    while m < acc.len()
        invariant
            m <= acc@.len(),
            forall|x: int, y: int| 0 <= x < y < acc@.len() ==> bridge_key(acc@[x]) != bridge_key(acc@[y]),
            out@.len() == m,
            forall|b: UniverseBridge| out@.contains(b) <==> acc@.take(m as int).contains(b),
            forall|i: int, j: int| 0 <= i < j < out@.len() ==> bridge_before(out@[i], out@[j]),
        decreases acc@.len() - m,
    {
        let x = acc[m];
        let mut k: usize = 0;
        while k < out.len() && !before_exec(&x, &out[k])
            invariant
                k <= out@.len(),
                forall|i: int| 0 <= i < k ==> !bridge_before(x, out@[i]),
            decreases out@.len() - k,
        {
            k = k + 1;
        }
        proof {
            let t0 = acc@.take(m as int);
            assert forall|i: int| 0 <= i < out@.len() implies bridge_key(out@[i]) != bridge_key(x) by {
                assert(out@.contains(out@[i]));
                assert(t0.contains(out@[i]));
                let q = choose|q: int| 0 <= q < t0.len() && t0[q] == out@[i];
                assert(acc@[q] == out@[i]);
            }
            assert forall|i: int| 0 <= i < k implies bridge_before(out@[i], x) by {
                lemma_before_total(x, out@[i]);
            }
            assert forall|i: int| k <= i < out@.len() implies bridge_before(x, out@[i]) by {
                if k < i {
                    lemma_before_trans(x, out@[k as int], out@[i]);
                }
            }
        }
        let ghost ob = out@;
        out.insert(k, x);
        proof {
            assert(out@ == ob.insert(k as int, x));
            let t0 = acc@.take(m as int);
            let t1 = acc@.take(m + 1);
            assert(t1 =~= t0.push(x));
            assert forall|b: UniverseBridge| out@.contains(b) <==> t1.contains(b) by {
                if out@.contains(b) {
                    let q = choose|q: int| 0 <= q < out@.len() && out@[q] == b;
                    if q < k {
                        assert(ob[q] == b);
                        assert(ob.contains(b));
                    } else if q > k {
                        assert(ob[q - 1] == b);
                        assert(ob.contains(b));
                    }
                    if b != x {
                        assert(t0.contains(b));
                        let r = choose|r: int| 0 <= r < t0.len() && t0[r] == b;
                        assert(t1[r] == b);
                    } else {
                        assert(t1[m as int] == b);
                    }
                }
                if t1.contains(b) {
                    let r = choose|r: int| 0 <= r < t1.len() && t1[r] == b;
                    if r < m {
                        assert(t0[r] == b);
                        assert(ob.contains(b));
                        let q = choose|q: int| 0 <= q < ob.len() && ob[q] == b;
                        if q < k {
                            assert(out@[q] == b);
                        } else {
                            assert(out@[q + 1] == b);
                        }
                    } else {
                        assert(out@[k as int] == b);
                    }
                }
            }
            assert forall|i: int, j: int| 0 <= i < j < out@.len() implies bridge_before(out@[i], out@[j]) by {
                if i < k && j == k {
                } else if i < k && j > k {
                    assert(out@[j] == ob[j - 1]);
                } else if i == k {
                    assert(out@[j] == ob[j - 1]);
                } else if i > k {
                    assert(out@[i] == ob[i - 1]);
                    assert(out@[j] == ob[j - 1]);
                }
            }
        }
        m = m + 1;
    }
    proof {
        assert(acc@.take(acc@.len() as int) =~= acc@);
    }
    out
}

// ---------------------------------------------------------------------------
// Units
// ---------------------------------------------------------------------------

/// A group of package members shown together: a class with its methods, a
/// source file, or a module.
#[derive(Clone, Debug)]
pub struct UniverseUnit {
    /// Unit id within its package.
    pub id: u32,
    /// Display label.
    pub label: String,
    /// `class`, `file` or `module`.
    pub kind: String,
    /// Graph node indices of the members.
    pub member_indices: Vec<u32>,
    /// Summed lines of code, when positive.
    pub loc_estimate: Option<u32>,
}

/// A unit as plain values: id, label, kind, members, lines of code.
pub type UnitView = (u32, Seq<char>, Seq<char>, Seq<u32>, Option<u32>);

/// The plain values of a unit.
pub open spec fn unit_view(u: UniverseUnit) -> UnitView {
    (u.id, u.label@, u.kind@, u.member_indices@, u.loc_estimate)
}

/// A package member as the unit grouping reads it.
#[derive(Clone, Debug)]
pub struct MemberNode {
    /// Graph node index.
    pub index: u32,
    /// Short name.
    pub name: String,
    /// Qualified name, when known.
    pub qualified_name: Option<String>,
    /// Source file, when known.
    pub file_path: Option<String>,
    /// Node kind.
    pub node_type: NodeType,
    /// Lines of code.
    pub loc: u32,
}

/// Lines spanned by a node (inclusive), or 0 without a valid span; the count
/// is kept to 32 bits.
pub open spec fn loc_of(n: Node) -> u32 {
    match (n.start_line, n.end_line) {
        (Some(s), Some(e)) => if e >= s {
            ((e - s + 1) % 0x1_0000_0000) as u32
        } else {
            0
        },
        _ => 0,
    }
}

/// Lines spanned by a node (see [`loc_of`]).
pub fn node_loc(node: &Node) -> (r: u32)
    ensures
        r == loc_of(*node),
{
    match (node.start_line, node.end_line) {
        (Some(s), Some(e)) => if e >= s {
            let d: u128 = (e as u128) - (s as u128) + 1;
            (d % 0x1_0000_0000) as u32
        } else {
            0
        },
        _ => 0,
    }
}

/// Classes, structs, interfaces and enums each form a unit.
pub open spec fn type_unit(t: NodeType) -> bool {
    t == NodeType::Class || t == NodeType::Struct || t == NodeType::Interface || t == NodeType::Enum
}

/// Whether the node type forms a class-like unit.
pub fn is_type_unit(node_type: NodeType) -> (b: bool)
    ensures
        b == type_unit(node_type),
{
    node_type == NodeType::Class || node_type == NodeType::Struct || node_type == NodeType::Interface
        || node_type == NodeType::Enum
}

/// A path separator.
pub open spec fn is_path_sep(c: char) -> bool {
    c == '/' || c == '\\'
}

/// The part of `p` after its last path separator.
pub open spec fn last_segment(p: Seq<char>) -> Seq<char>
    decreases p.len(),
{
    if p.len() == 0 {
        p
    } else if is_path_sep(p.last()) {
        Seq::empty()
    } else {
        last_segment(p.drop_last()).push(p.last())
    }
}

fn last_segment_chars(p: &Vec<char>) -> (r: Vec<char>)
    ensures
        r@ == last_segment(p@),
{
    let mut i: usize = p.len();
    while i > 0 && !(p[i - 1] == '/' || p[i - 1] == '\\')
        invariant
            i <= p@.len(),
            forall|j: int| i <= j < p@.len() ==> !is_path_sep(p@[j]),
        decreases i,
    {
        i = i - 1;
    }
    let mut r: Vec<char> = Vec::new();
    let mut k: usize = i;
    while k < p.len()
        invariant
            i <= k <= p@.len(),
            r@ == p@.subrange(i as int, k as int),
        decreases p@.len() - k,
    {
        r.push(p[k]);
        proof {
            assert(p@.subrange(i as int, k + 1) =~= p@.subrange(i as int, k as int).push(p@[k as int]));
        }
        k = k + 1;
    }
    proof {
        lemma_last_segment_from(p@, i as int);
    }
    r
}

/// The last segment starts right after the last separator.
proof fn lemma_last_segment_from(p: Seq<char>, i: int)
    requires
        0 <= i <= p.len(),
        forall|j: int| i <= j < p.len() ==> !is_path_sep(p[j]),
        i == 0 || is_path_sep(p[i - 1]),
    ensures
        last_segment(p) == p.subrange(i, p.len() as int),
    decreases p.len(),
{
    if p.len() > i {
        assert(p.drop_last().len() < p.len());
        lemma_last_segment_from(p.drop_last(), i);
        assert(p.drop_last().subrange(i, p.len() - 1).push(p.last()) =~= p.subrange(i, p.len() as int));
    } else if p.len() > 0 {
        assert(p.subrange(i, p.len() as int) =~= Seq::<char>::empty());
    } else {
        assert(p.subrange(i, p.len() as int) =~= p);
    }
}

/// The label of a unit: the name, or else the file name of the path, or else `file`.
pub open spec fn unit_label_of(name: Seq<char>, file_path: Option<Seq<char>>) -> Seq<char> {
    if name.len() > 0 {
        name
    } else {
        match file_path {
            Some(p) => last_segment(p),
            None => "file"@,
        }
    }
}

/// The characters of an optional string.
pub open spec fn opt_view(o: Option<String>) -> Option<Seq<char>> {
    match o {
        Some(s) => Some(s@),
        None => None,
    }
}

/// The label of a unit (see [`unit_label_of`]).
pub fn unit_label(name: &str, file_path: &Option<String>) -> (r: String)
    ensures
        r@ == unit_label_of(name@, opt_view(*file_path)),
{
    if !name.is_empty() {
        return name.to_owned();
    }
    match file_path {
        Some(p) => {
            let pc = to_chars(p.as_str());
            let seg = last_segment_chars(&pc);
            from_chars(seg.as_slice())
        },
        None => "file".to_owned(),
    }
}

/// Summed lines of the members whose index is in `indices`.
pub open spec fn loc_total(members: Seq<MemberNode>, indices: Seq<u32>) -> nat
    decreases members.len(),
{
    if members.len() == 0 {
        0
    } else {
        loc_total(members.drop_last(), indices) + if indices.contains(members.last().index) {
            members.last().loc as nat
        } else {
            0
        }
    }
}

/// Summed lines of all members.
pub open spec fn loc_all(members: Seq<MemberNode>) -> nat
    decreases members.len(),
{
    if members.len() == 0 {
        0
    } else {
        loc_all(members.drop_last()) + members.last().loc as nat
    }
}

proof fn lemma_loc_total_le_all(members: Seq<MemberNode>, indices: Seq<u32>)
    ensures
        loc_total(members, indices) <= loc_all(members),
    decreases members.len(),
{
    if members.len() > 0 {
        lemma_loc_total_le_all(members.drop_last(), indices);
    }
}

/// The summed lines, when positive.
pub open spec fn loc_estimate_of(members: Seq<MemberNode>, indices: Seq<u32>) -> Option<u32> {
    let t = loc_total(members, indices);
    if t > 0 { Some(t as u32) } else { None }
}

fn contains_u32(v: &[u32], x: u32) -> (b: bool)
    ensures
        b == v@.contains(x),
{
    let mut i: usize = 0;
    while i < v.len()
        invariant
            i <= v@.len(),
            forall|j: int| 0 <= j < i ==> v@[j] != x,
        decreases v@.len() - i,
    {
        if v[i] == x {
            return true;
        }
        i = i + 1;
    }
    false
}

/// Summed lines of the members with an index in `indices`, when positive.
pub fn sum_loc(members: &[MemberNode], indices: &[u32]) -> (r: Option<u32>)
    requires
        loc_all(members@) <= u32::MAX,
    ensures
        r == loc_estimate_of(members@, indices@),
{
    let mut total: u32 = 0;
    let mut i: usize = 0;
    proof {
        assert(members@.take(0) =~= Seq::<MemberNode>::empty());
        lemma_loc_total_le_all(members@, indices@);
    }
    while i < members.len()
        invariant
            i <= members@.len(),
            loc_all(members@) <= u32::MAX,
            total == loc_total(members@.take(i as int), indices@),
        decreases members@.len() - i,
    {
        proof {
            assert(members@.take(i + 1).drop_last() =~= members@.take(i as int));
            assert(members@.take(i + 1).last() == members@[i as int]);
            lemma_loc_total_le_all(members@.take(i + 1), indices@);
            lemma_loc_all_prefix(members@, i + 1);
        }
        if contains_u32(indices, members[i].index) {
            total = total + members[i].loc;
        }
        i = i + 1;
    }
    proof {
        assert(members@.take(members@.len() as int) =~= members@);
    }
    if total > 0 {
        Some(total)
    } else {
        None
    }
}

proof fn lemma_loc_all_prefix(members: Seq<MemberNode>, k: int)
    requires
        0 <= k <= members.len(),
    ensures
        loc_all(members.take(k)) <= loc_all(members),
    decreases members.len() - k,
{
    if k < members.len() {
        lemma_loc_all_prefix(members, k + 1);
        assert(members.take(k + 1).drop_last() =~= members.take(k));
    } else {
        assert(members.take(k) =~= members);
    }
}

// ---------------------------------------------------------------------------
// File units
// ---------------------------------------------------------------------------

/// Strict lexicographic order on character sequences (the order of `String`,
/// as UTF-8 preserves the order of code points).
pub open spec fn lex_lt(a: Seq<char>, b: Seq<char>) -> bool
    decreases a.len(),
{
    if b.len() == 0 {
        false
    } else if a.len() == 0 {
        true
    } else if a[0] != b[0] {
        a[0] < b[0]
    } else {
        lex_lt(a.drop_first(), b.drop_first())
    }
}

pub(crate) proof fn lemma_lex_irrefl(a: Seq<char>)
    ensures
        !lex_lt(a, a),
    decreases a.len(),
{
    if a.len() > 0 {
        lemma_lex_irrefl(a.drop_first());
    }
}

pub(crate) proof fn lemma_lex_total(a: Seq<char>, b: Seq<char>)
    requires
        a != b,
    ensures
        lex_lt(a, b) || lex_lt(b, a),
    decreases a.len(),
{
    if a.len() > 0 && b.len() > 0 && a[0] == b[0] {
        if a.drop_first() == b.drop_first() {
            assert(a =~= seq![a[0]] + a.drop_first());
            assert(b =~= seq![b[0]] + b.drop_first());
        }
        lemma_lex_total(a.drop_first(), b.drop_first());
    } else if a.len() == 0 && b.len() == 0 {
        assert(a =~= b);
    }
}

pub(crate) proof fn lemma_lex_trans(a: Seq<char>, b: Seq<char>, c: Seq<char>)
    requires
        lex_lt(a, b),
        lex_lt(b, c),
    ensures
        lex_lt(a, c),
    decreases a.len(),
{
    if a.len() > 0 && b.len() > 0 && c.len() > 0 && a[0] == b[0] && b[0] == c[0] {
        lemma_lex_trans(a.drop_first(), b.drop_first(), c.drop_first());
    }
}

pub(crate) fn lex_lt_exec(a: &Vec<char>, b: &Vec<char>) -> (r: bool)
    ensures
        r == lex_lt(a@, b@),
{
    let mut i: usize = 0;
    proof {
        assert(a@.skip(0) =~= a@);
        assert(b@.skip(0) =~= b@);
    }
    while i < a.len() && i < b.len() && a[i] == b[i]
        invariant
            i <= a@.len(),
            i <= b@.len(),
            lex_lt(a@, b@) == lex_lt(a@.skip(i as int), b@.skip(i as int)),
        decreases a@.len() - i,
    {
        proof {
            assert(a@.skip(i as int).drop_first() =~= a@.skip(i + 1));
            assert(b@.skip(i as int).drop_first() =~= b@.skip(i + 1));
        }
        i = i + 1;
    }
    if i == b.len() {
        proof {
            assert(b@.skip(i as int).len() == 0);
        }
        false
    } else if i == a.len() {
        proof {
            assert(a@.skip(i as int).len() == 0);
        }
        true
    } else {
        proof {
            assert(a@.skip(i as int)[0] == a@[i as int]);
            assert(b@.skip(i as int)[0] == b@[i as int]);
        }
        a[i] < b[i]
    }
}

/// The grouping key of a function: its file, or `(unknown)`.
pub open spec fn file_key(f: MemberNode) -> Seq<char> {
    match f.file_path {
        Some(p) => p@,
        None => "(unknown)"@,
    }
}

/// Indices of the functions with key `k`, in order.
pub open spec fn key_members(fs: Seq<MemberNode>, k: Seq<char>) -> Seq<u32>
    decreases fs.len(),
{
    if fs.len() == 0 {
        Seq::empty()
    } else {
        let r = key_members(fs.drop_last(), k);
        if file_key(fs.last()) == k {
            r.push(fs.last().index)
        } else {
            r
        }
    }
}

/// Some function has key `k`.
pub open spec fn has_key(fs: Seq<MemberNode>, k: Seq<char>) -> bool {
    exists|i: int| 0 <= i < fs.len() && file_key(fs[i]) == k
}

/// The unit of the functions with key `k`.
pub open spec fn file_unit(fs: Seq<MemberNode>, members: Seq<MemberNode>, k: Seq<char>, id: u32) -> UnitView {
    (id, last_segment(k), "file"@, key_members(fs, k), loc_estimate_of(members, key_members(fs, k)))
}

/// `ks` is strictly increasing.
pub open spec fn strictly_sorted(ks: Seq<Seq<char>>) -> bool {
    forall|i: int, j: int| 0 <= i < j < ks.len() ==> lex_lt(ks[i], ks[j])
}

/// `units` are the file units of the functions: one per distinct key, keys
/// in increasing order, ids counting up from `id_start`.
pub open spec fn file_units_of(fs: Seq<MemberNode>, members: Seq<MemberNode>, id_start: u32, units: Seq<UnitView>) -> bool {
    exists|ks: Seq<Seq<char>>|
        {
            &&& strictly_sorted(ks)
            &&& (forall|k: Seq<char>| #[trigger] ks.contains(k) <==> has_key(fs, k))
            &&& units.len() == ks.len()
            &&& forall|i: int| 0 <= i < ks.len() ==> #[trigger] units[i] == file_unit(fs, members, ks[i], (id_start + i) as u32)
        }
}

fn file_key_chars(f: &MemberNode) -> (r: Vec<char>)
    ensures
        r@ == file_key(*f),
{
    match &f.file_path {
        Some(p) => to_chars(p.as_str()),
        None => to_chars("(unknown)"),
    }
}

fn chars_eq(a: &Vec<char>, b: &Vec<char>) -> (r: bool)
    ensures
        r == (a@ == b@),
{
    if a.len() != b.len() {
        return false;
    }
    let mut i: usize = 0;
    while i < a.len()
        invariant
            a@.len() == b@.len(),
            i <= a@.len(),
            forall|j: int| 0 <= j < i ==> a@[j] == b@[j],
        decreases a@.len() - i,
    {
        if a[i] != b[i] {
            return false;
        }
        i = i + 1;
    }
    proof {
        assert(a@ =~= b@);
    }
    true
}

/// Units grouping the functions by file, files in increasing order, ids from `id_start`.
pub fn file_path_units(functions: &[&MemberNode], members: &[MemberNode], id_start: u32) -> (units: Vec<UniverseUnit>)
    requires
        loc_all(members@) <= u32::MAX,
        id_start + functions@.len() <= u32::MAX,
    ensures
        file_units_of(
            functions@.map_values(|f: &MemberNode| *f),
            members@,
            id_start,
            units@.map_values(|u: UniverseUnit| unit_view(u)),
        ),
{
    let ghost fs = functions@.map_values(|f: &MemberNode| *f);
    let mut keys: Vec<Vec<char>> = Vec::new();
    let mut lists: Vec<Vec<u32>> = Vec::new();
    let mut j: usize = 0;
    proof {
        assert(fs.take(0) =~= Seq::<MemberNode>::empty());
    }
    while j < functions.len()
        invariant
            j <= fs.len(),
            fs == functions@.map_values(|f: &MemberNode| *f),
            keys@.len() == lists@.len(),
            keys@.len() <= j,
            strictly_sorted(keys@.map_values(|v: Vec<char>| v@)),
            forall|k: Seq<char>| keys@.map_values(|v: Vec<char>| v@).contains(k) <==> has_key(fs.take(j as int), k),
            forall|g: int| 0 <= g < keys@.len() ==> (#[trigger] lists@[g])@ == key_members(fs.take(j as int), keys@[g]@),
        decreases fs.len() - j,
    {
        let f = functions[j];
        let key = file_key_chars(f);
        let ghost kv = keys@.map_values(|v: Vec<char>| v@);
        let ghost t0 = fs.take(j as int);
        let ghost t1 = fs.take(j + 1);
        proof {
            assert(t1.drop_last() =~= t0);
            assert(t1.last() == *f);
            assert(fs[j as int] == *f);
        }
        let mut k: usize = 0;
        while k < keys.len() && lex_lt_exec(&keys[k], &key)
            invariant
                k <= keys@.len(),
                kv == keys@.map_values(|v: Vec<char>| v@),
                forall|g: int| 0 <= g < k ==> lex_lt(kv[g], key@),
            decreases keys@.len() - k,
        {
            k = k + 1;
        }
        if k < keys.len() && chars_eq(&keys[k], &key) {
            let mut l: Vec<u32> = Vec::new();
            std::mem::swap(&mut l, &mut lists[k]);
            let ghost lb = lists@;
            l.push(f.index);
            lists.set(k, l);
            proof {
                assert forall|k2: Seq<char>| kv.contains(k2) <==> has_key(t1, k2) by {
                    if has_key(t1, k2) {
                        let q = choose|q: int| 0 <= q < t1.len() && file_key(t1[q]) == k2;
                        if q < t0.len() {
                            assert(t0[q] == t1[q]);
                        } else {
                            assert(kv[k as int] == k2);
                        }
                    }
                    if has_key(t0, k2) {
                        let q = choose|q: int| 0 <= q < t0.len() && file_key(t0[q]) == k2;
                        assert(t1[q] == t0[q]);
                    }
                }
                assert forall|g: int| 0 <= g < keys@.len() implies (#[trigger] lists@[g])@ == key_members(t1, keys@[g]@) by {
                    if g != k {
                        assert(lists@[g] == lb[g]);
                        assert(keys@[g]@ == kv[g]);
                        assert(kv[g] != key@) by {
                            lemma_lex_irrefl(key@);
                            if g < k {
                            } else {
                                assert(lex_lt(kv[k as int], kv[g]));
                                lemma_lex_irrefl(kv[g]);
                            }
                        }
                    }
                }
            }
        } else {
            proof {
                assert forall|g: int| k <= g < kv.len() implies lex_lt(key@, #[trigger] kv[g]) by {
                    assert(!lex_lt(kv[k as int], key@));
                    assert(kv[k as int] != key@);
                    lemma_lex_total(kv[k as int], key@);
                    if g > k {
                        lemma_lex_trans(key@, kv[k as int], kv[g]);
                    }
                }
                assert(!kv.contains(key@)) by {
                    if kv.contains(key@) {
                        let q = choose|q: int| 0 <= q < kv.len() && kv[q] == key@;
                        lemma_lex_irrefl(key@);
                    }
                }
                assert(key_members(t0, key@) =~= Seq::<u32>::empty()) by {
                    lemma_key_members_absent(t0, key@);
                }
            }
            let mut l: Vec<u32> = Vec::new();
            l.push(f.index);
            let ghost lb = lists@;
            let ghost kb = keys@;
            keys.insert(k, key);
            lists.insert(k, l);
            proof {
                let kv1 = keys@.map_values(|v: Vec<char>| v@);
                assert(kv1 =~= kv.insert(k as int, key@));
                assert forall|a: int, b: int| 0 <= a < b < kv1.len() implies lex_lt(kv1[a], kv1[b]) by {
                    if a < k && b == k {
                    } else if a < k && b > k {
                        assert(kv1[b] == kv[b - 1]);
                        lemma_lex_trans(kv1[a], key@, kv1[b]);
                    } else if a == k {
                        assert(kv1[b] == kv[b - 1]);
                    } else if a > k {
                        assert(kv1[a] == kv[a - 1]);
                        assert(kv1[b] == kv[b - 1]);
                    }
                }
                assert forall|k2: Seq<char>| kv1.contains(k2) <==> has_key(t1, k2) by {
                    if kv1.contains(k2) {
                        let q = choose|q: int| 0 <= q < kv1.len() && kv1[q] == k2;
                        if q < k {
                            assert(kv[q] == k2);
                        } else if q > k {
                            assert(kv[q - 1] == k2);
                        }
                        if k2 != key@ {
                            assert(kv.contains(k2));
                            assert(has_key(t0, k2));
                            let r = choose|r: int| 0 <= r < t0.len() && file_key(t0[r]) == k2;
                            assert(t1[r] == t0[r]);
                        } else {
                            assert(file_key(t1[j as int]) == k2);
                        }
                    }
                    if has_key(t1, k2) {
                        let r = choose|r: int| 0 <= r < t1.len() && file_key(t1[r]) == k2;
                        if r < t0.len() {
                            assert(t0[r] == t1[r]);
                            assert(has_key(t0, k2));
                            assert(kv.contains(k2));
                            let q = choose|q: int| 0 <= q < kv.len() && kv[q] == k2;
                            if q < k {
                                assert(kv1[q] == k2);
                            } else {
                                assert(kv1[q + 1] == k2);
                            }
                        } else {
                            assert(kv1[k as int] == k2);
                        }
                    }
                }
                assert forall|g: int| 0 <= g < keys@.len() implies (#[trigger] lists@[g])@ == key_members(t1, keys@[g]@) by {
                    if g < k {
                        assert(lists@[g] == lb[g]);
                        assert(keys@[g] == kb[g]);
                        assert(kv[g] != key@) by {
                            lemma_lex_irrefl(key@);
                        }
                    } else if g > k {
                        assert(lists@[g] == lb[g - 1]);
                        assert(keys@[g] == kb[g - 1]);
                        assert(kv[g - 1] != key@) by {
                            lemma_lex_irrefl(key@);
                        }
                    } else {
                        assert(l@ =~= Seq::<u32>::empty().push(f.index));
                    }
                }
            }
        }
        j = j + 1;
    }
    proof {
        assert(fs.take(fs.len() as int) =~= fs);
    }
    let ghost kv = keys@.map_values(|v: Vec<char>| v@);
    let mut units: Vec<UniverseUnit> = Vec::new();
    let mut i: usize = 0;
    while i < keys.len()
        invariant
            i <= keys@.len(),
            keys@.len() == lists@.len(),
            kv == keys@.map_values(|v: Vec<char>| v@),
            keys@.len() <= fs.len(),
            loc_all(members@) <= u32::MAX,
            id_start + fs.len() <= u32::MAX,
            forall|g: int| i <= g < keys@.len() ==> (#[trigger] lists@[g])@ == key_members(fs, kv[g]),
            units@.len() == i,
            forall|g: int| 0 <= g < i ==> #[trigger] unit_view(units@[g]) == file_unit(fs, members@, kv[g], (id_start + g) as u32),
        decreases keys@.len() - i,
    {
        let mut l: Vec<u32> = Vec::new();
        let ghost lb = lists@;
        std::mem::swap(&mut l, &mut lists[i]);
        proof {
            assert(l@ == key_members(fs, kv[i as int]));
            assert forall|g: int| i < g < keys@.len() implies (#[trigger] lists@[g])@ == key_members(fs, kv[g]) by {
                assert(lists@[g] == lb[g]);
            }
        }
        let pc = &keys[i];
        let seg = last_segment_chars(pc);
        let label = from_chars(seg.as_slice());
        let loc = sum_loc(members, l.as_slice());
        let id: u32 = id_start + i as u32;
        units.push(UniverseUnit { id, label, kind: "file".to_owned(), member_indices: l, loc_estimate: loc });
        i = i + 1;
    }
    proof {
        let uv = units@.map_values(|u: UniverseUnit| unit_view(u));
        assert forall|g: int| 0 <= g < kv.len() implies #[trigger] uv[g] == file_unit(fs, members@, kv[g], (id_start + g) as u32) by {
            assert(uv[g] == unit_view(units@[g]));
        }
        assert(file_units_of(fs, members@, id_start, uv));
    }
    units
}

proof fn lemma_key_members_absent(fs: Seq<MemberNode>, k: Seq<char>)
    requires
        !has_key(fs, k),
    ensures
        key_members(fs, k) == Seq::<u32>::empty(),
    decreases fs.len(),
{
    if fs.len() > 0 {
        assert(!has_key(fs.drop_last(), k)) by {
            if has_key(fs.drop_last(), k) {
                let q = choose|q: int| 0 <= q < fs.drop_last().len() && file_key(fs.drop_last()[q]) == k;
                assert(fs[q] == fs.drop_last()[q]);
            }
        }
        lemma_key_members_absent(fs.drop_last(), k);
        assert(file_key(fs.last()) != k) by {
            if file_key(fs.last()) == k {
                assert(fs[fs.len() - 1] == fs.last());
            }
        }
    }
}

// ---------------------------------------------------------------------------
// Package units
// ---------------------------------------------------------------------------

/// The name a member is matched by: its qualified name, or else its name.
pub open spec fn qn_of(m: MemberNode) -> Seq<char> {
    match m.qualified_name {
        Some(q) => q@,
        None => m.name@,
    }
}

/// Class `c` claims function `f`: `f` is named inside `c` (`C.f`), is named
/// like `c`, or lives in `c`'s file.
pub open spec fn claims(c: MemberNode, f: MemberNode) -> bool {
    (qn_of(c) + "."@).is_prefix_of(qn_of(f)) || qn_of(f) == qn_of(c) || (c.file_path is Some && opt_view(f.file_path)
        == opt_view(c.file_path))
}

/// Functions that class `c` takes, in order, among those not yet assigned;
/// and the assigned indices afterwards.
pub open spec fn claim(fs: Seq<MemberNode>, assigned: Set<u32>, c: MemberNode) -> (Seq<u32>, Set<u32>)
    decreases fs.len(),
{
    if fs.len() == 0 {
        (Seq::empty(), assigned)
    } else {
        let f = fs[0];
        if !assigned.contains(f.index) && claims(c, f) {
            let r = claim(fs.drop_first(), assigned.insert(f.index), c);
            (seq![f.index] + r.0, r.1)
        } else {
            claim(fs.drop_first(), assigned, c)
        }
    }
}

/// One unit per class, in order, each with the functions it claims first;
/// and the assigned indices afterwards.
pub open spec fn class_units(cs: Seq<MemberNode>, fs: Seq<MemberNode>, assigned: Set<u32>, members: Seq<MemberNode>, uid: nat) -> (Seq<UnitView>, Set<u32>)
    decreases cs.len(),
{
    if cs.len() == 0 {
        (Seq::empty(), assigned)
    } else {
        let c = cs[0];
        let cl = claim(fs, assigned, c);
        let um = seq![c.index] + cl.0;
        let u = (uid as u32, unit_label_of(c.name@, opt_view(c.file_path)), "class"@, um, loc_estimate_of(members, um));
        let r = class_units(cs.drop_first(), fs, cl.1, members, uid + 1);
        (seq![u] + r.0, r.1)
    }
}

/// The members of a kind, in order.
pub open spec fn members_of_kind(ms: Seq<MemberNode>, kind: int) -> Seq<MemberNode>
    decreases ms.len(),
{
    if ms.len() == 0 {
        ms
    } else {
        let r = members_of_kind(ms.drop_last(), kind);
        let t = ms.last().node_type;
        let keep = if kind == 0 {
            type_unit(t)
        } else if kind == 1 {
            t == NodeType::Function
        } else {
            t == NodeType::Module
        };
        if keep {
            r.push(ms.last())
        } else {
            r
        }
    }
}

/// The functions not assigned to a class, in order.
pub open spec fn unassigned(fs: Seq<MemberNode>, assigned: Set<u32>) -> Seq<MemberNode>
    decreases fs.len(),
{
    if fs.len() == 0 {
        fs
    } else {
        let r = unassigned(fs.drop_last(), assigned);
        if assigned.contains(fs.last().index) {
            r
        } else {
            r.push(fs.last())
        }
    }
}

/// The unit of a module.
pub open spec fn module_unit(m: MemberNode, i: int) -> UnitView {
    (i as u32, m.name@, "module"@, seq![m.index], if m.loc > 0 { Some(m.loc) } else { None })
}

/// `units` group the members: with classes, a unit per class (taking the
/// functions it claims) followed by file units of the other functions;
/// otherwise with modules, a unit per module; otherwise file units of the
/// functions; otherwise none.
pub open spec fn package_units_of(members: Seq<MemberNode>, units: Seq<UnitView>) -> bool {
    let cs = members_of_kind(members, 0);
    let fs = members_of_kind(members, 1);
    let ms = members_of_kind(members, 2);
    if cs.len() > 0 {
        let cu = class_units(cs, fs, Set::empty(), members, 0);
        let rem = unassigned(fs, cu.1);
        if rem.len() > 0 {
            &&& units.len() >= cu.0.len()
            &&& units.take(cu.0.len() as int) == cu.0
            &&& file_units_of(rem, members, cu.0.len() as u32, units.skip(cu.0.len() as int))
        } else {
            units == cu.0
        }
    } else if ms.len() > 0 {
        units == Seq::new(ms.len(), |i: int| module_unit(ms[i], i))
    } else if fs.len() > 0 {
        file_units_of(fs, members, 0, units)
    } else {
        units.len() == 0
    }
}

fn qn_chars(m: &MemberNode) -> (r: Vec<char>)
    ensures
        r@ == qn_of(*m),
{
    match &m.qualified_name {
        Some(q) => to_chars(q.as_str()),
        None => to_chars(m.name.as_str()),
    }
}

fn opt_str_eq(a: &Option<String>, b: &Option<String>) -> (r: bool)
    ensures
        r == (opt_view(*a) == opt_view(*b)),
{
    match (a, b) {
        (Some(x), Some(y)) => str_eq(x.as_str(), y.as_str()),
        (None, None) => true,
        _ => false,
    }
}

fn claims_exec(c: &MemberNode, class_qn: &Vec<char>, f: &MemberNode) -> (r: bool)
    requires
        class_qn@ == qn_of(*c),
    ensures
        r == claims(*c, *f),
{
    let fq = qn_chars(f);
    let mut pat = class_qn.clone();
    proof {
        assert(pat@ =~= class_qn@);
    }
    pat.push('.');
    proof {
        assert(pat@ =~= qn_of(*c) + "."@) by {
            reveal_strlit(".");
        }
    }
    let prefix = crate::text::matches_at(fq.as_slice(), 0, pat.as_slice());
    proof {
        if prefix {
            assert(pat@ =~= fq@.subrange(0, pat@.len() as int));
        }
        if pat@.is_prefix_of(fq@) {
            assert(fq@.subrange(0, pat@.len() as int) =~= pat@);
        }
    }
    prefix || chars_eq(&fq, class_qn) || (c.file_path.is_some() && opt_str_eq(&f.file_path, &c.file_path))
}

fn contains_assigned(v: &Vec<u32>, x: u32) -> (b: bool)
    ensures
        b == v@.contains(x),
{
    contains_u32(v.as_slice(), x)
}

/// The set of values of a vector.
pub open spec fn set_of(v: Seq<u32>) -> Set<u32> {
    Set::new(|x: u32| v.contains(x))
}

/// Claim functions for class `c`, marking them assigned.
fn claim_exec(fs: &Vec<&MemberNode>, assigned: &mut Vec<u32>, c: &MemberNode) -> (taken: Vec<u32>)
    ensures
        ({
            let r = claim(fs@.map_values(|f: &MemberNode| *f), set_of(old(assigned)@), *c);
            &&& taken@ == r.0
            &&& set_of(final(assigned)@) == r.1
        }),
{
    let ghost fv = fs@.map_values(|f: &MemberNode| *f);
    let ghost target = claim(fv, set_of(assigned@), *c);
    let cq = qn_chars(c);
    let mut taken: Vec<u32> = Vec::new();
    let mut j: usize = 0;
    proof {
        assert(fv.skip(0) =~= fv);
    }
    while j < fs.len()
        invariant
            j <= fv.len(),
            fv == fs@.map_values(|f: &MemberNode| *f),
            cq@ == qn_of(*c),
            target == ({
                let r = claim(fv.skip(j as int), set_of(assigned@), *c);
                (taken@ + r.0, r.1)
            }),
        decreases fv.len() - j,
    {
        let f = fs[j];
        proof {
            assert(fv.skip(j as int)[0] == *f);
            assert(fv.skip(j as int).drop_first() =~= fv.skip(j + 1));
        }
        if !contains_assigned(assigned, f.index) && claims_exec(c, &cq, f) {
            let ghost ab = assigned@;
            let ghost tb = taken@;
            assigned.push(f.index);
            taken.push(f.index);
            proof {
                assert(set_of(assigned@) =~= set_of(ab).insert(f.index)) by {
                    assert forall|x: u32| set_of(assigned@).contains(x) <==> set_of(ab).insert(f.index).contains(x) by {
                        if assigned@.contains(x) {
                            let q = choose|q: int| 0 <= q < assigned@.len() && assigned@[q] == x;
                            if q < ab.len() {
                                assert(ab[q] == x);
                            }
                        }
                        if ab.contains(x) {
                            let q = choose|q: int| 0 <= q < ab.len() && ab[q] == x;
                            assert(assigned@[q] == x);
                        }
                        if x == f.index {
                            assert(assigned@[ab.len() as int] == x);
                        }
                    }
                }
                let r = claim(fv.skip(j + 1), set_of(assigned@), *c);
                assert(taken@ + r.0 =~= tb + (seq![f.index] + r.0));
            }
        }
        j = j + 1;
    }
    proof {
        assert(fv.skip(j as int) =~= Seq::<MemberNode>::empty());
        assert(taken@ + Seq::<u32>::empty() =~= taken@);
    }
    taken
}

fn members_of_kind_exec<'a>(members: &'a [MemberNode], kind: u8) -> (r: Vec<&'a MemberNode>)
    requires
        kind <= 2,
    ensures
        r@.map_values(|f: &MemberNode| *f) == members_of_kind(members@, kind as int),
{
    let mut r: Vec<&MemberNode> = Vec::new();
    let mut i: usize = 0;
    proof {
        assert(members@.take(0) =~= Seq::<MemberNode>::empty());
    }
    while i < members.len()
        invariant
            i <= members@.len(),
            kind <= 2,
            r@.map_values(|f: &MemberNode| *f) == members_of_kind(members@.take(i as int), kind as int),
        decreases members@.len() - i,
    {
        let m = &members[i];
        proof {
            assert(members@.take(i + 1).drop_last() =~= members@.take(i as int));
            assert(members@.take(i + 1).last() == *m);
        }
        let keep = if kind == 0 {
            is_type_unit(m.node_type)
        } else if kind == 1 {
            m.node_type == NodeType::Function
        } else {
            m.node_type == NodeType::Module
        };
        if keep {
            let ghost rb = r@;
            r.push(m);
            proof {
                assert(r@.map_values(|f: &MemberNode| *f) =~= rb.map_values(|f: &MemberNode| *f).push(*m));
            }
        }
        i = i + 1;
    }
    proof {
        assert(members@.take(members@.len() as int) =~= members@);
    }
    r
}

proof fn lemma_kind_len(ms: Seq<MemberNode>, kind: int)
    ensures
        members_of_kind(ms, kind).len() <= ms.len(),
    decreases ms.len(),
{
    if ms.len() > 0 {
        lemma_kind_len(ms.drop_last(), kind);
    }
}

proof fn lemma_kinds_len(ms: Seq<MemberNode>)
    ensures
        members_of_kind(ms, 0).len() + members_of_kind(ms, 1).len() <= ms.len(),
    decreases ms.len(),
{
    if ms.len() > 0 {
        lemma_kinds_len(ms.drop_last());
    }
}

proof fn lemma_unassigned_len(fs: Seq<MemberNode>, a: Set<u32>)
    ensures
        unassigned(fs, a).len() <= fs.len(),
    decreases fs.len(),
{
    if fs.len() > 0 {
        lemma_unassigned_len(fs.drop_last(), a);
    }
}

/// Group package members into units (see [`package_units_of`]).
pub fn package_units(members: &[MemberNode]) -> (units: Vec<UniverseUnit>)
    requires
        loc_all(members@) <= u32::MAX,
        members@.len() <= u32::MAX,
    ensures
        package_units_of(members@, units@.map_values(|u: UniverseUnit| unit_view(u))),
{
    let classes = members_of_kind_exec(members, 0);
    let functions = members_of_kind_exec(members, 1);
    let modules = members_of_kind_exec(members, 2);
    let ghost cs = members_of_kind(members@, 0);
    let ghost fs = members_of_kind(members@, 1);
    let ghost ms = members_of_kind(members@, 2);
    proof {
        lemma_kind_len(members@, 0);
        lemma_kind_len(members@, 1);
        lemma_kind_len(members@, 2);
    }
    if classes.len() > 0 {
        let ghost target = class_units(cs, fs, Set::empty(), members@, 0);
        let mut units: Vec<UniverseUnit> = Vec::new();
        let mut assigned: Vec<u32> = Vec::new();
        let mut uid: usize = 0;
        proof {
            assert(cs.skip(0) =~= cs);
            assert(set_of(assigned@) =~= Set::<u32>::empty());
            assert(units@.map_values(|u: UniverseUnit| unit_view(u)) =~= Seq::<UnitView>::empty());
        }
        while uid < classes.len()
            invariant
                uid <= cs.len(),
                cs == classes@.map_values(|f: &MemberNode| *f),
                fs == functions@.map_values(|f: &MemberNode| *f),
                cs.len() <= members@.len(),
                members@.len() <= u32::MAX,
                loc_all(members@) <= u32::MAX,
                units@.len() == uid,
                target == ({
                    let r = class_units(cs.skip(uid as int), fs, set_of(assigned@), members@, uid as nat);
                    (units@.map_values(|u: UniverseUnit| unit_view(u)) + r.0, r.1)
                }),
            decreases cs.len() - uid,
        {
            let c = classes[uid];
            proof {
                assert(cs.skip(uid as int)[0] == *c);
                assert(cs.skip(uid as int).drop_first() =~= cs.skip(uid + 1));
            }
            let taken = claim_exec(&functions, &mut assigned, c);
            let mut unit_members: Vec<u32> = Vec::new();
            unit_members.push(c.index);
            let mut q: usize = 0;
            while q < taken.len()
                invariant
                    q <= taken@.len(),
                    unit_members@ == seq![c.index] + taken@.take(q as int),
                decreases taken@.len() - q,
            {
                unit_members.push(taken[q]);
                proof {
                    assert(taken@.take(q + 1) =~= taken@.take(q as int).push(taken@[q as int]));
                }
                q = q + 1;
            }
            proof {
                assert(taken@.take(taken@.len() as int) =~= taken@);
            }
            let label = unit_label(c.name.as_str(), &c.file_path);
            let loc = sum_loc(members, unit_members.as_slice());
            let ghost ub = units@.map_values(|u: UniverseUnit| unit_view(u));
            let u = UniverseUnit {
                id: uid as u32,
                label,
                kind: "class".to_owned(),
                member_indices: unit_members,
                loc_estimate: loc,
            };
            units.push(u);
            proof {
                let uv = units@.map_values(|u: UniverseUnit| unit_view(u));
                assert(uv =~= ub.push(unit_view(u)));
                let r = class_units(cs.skip(uid + 1), fs, set_of(assigned@), members@, (uid + 1) as nat);
                assert(uv + r.0 =~= ub + (seq![unit_view(u)] + r.0));
            }
            uid = uid + 1;
        }
        proof {
            assert(cs.skip(uid as int) =~= Seq::<MemberNode>::empty());
            assert(units@.map_values(|u: UniverseUnit| unit_view(u)) + Seq::<UnitView>::empty() =~= units@.map_values(
                |u: UniverseUnit| unit_view(u),
            ));
        }
        let ghost cu = units@.map_values(|u: UniverseUnit| unit_view(u));
        let ghost aset = set_of(assigned@);
        let mut remaining: Vec<&MemberNode> = Vec::new();
        let mut k: usize = 0;
        proof {
            assert(fs.take(0) =~= Seq::<MemberNode>::empty());
        }
        while k < functions.len()
            invariant
                k <= fs.len(),
                fs == functions@.map_values(|f: &MemberNode| *f),
                aset == set_of(assigned@),
                remaining@.map_values(|f: &MemberNode| *f) == unassigned(fs.take(k as int), aset),
            decreases fs.len() - k,
        {
            let f = functions[k];
            proof {
                assert(fs.take(k + 1).drop_last() =~= fs.take(k as int));
                assert(fs.take(k + 1).last() == *f);
            }
            if !contains_assigned(&assigned, f.index) {
                let ghost rb = remaining@;
                remaining.push(f);
                proof {
                    assert(remaining@.map_values(|f: &MemberNode| *f) =~= rb.map_values(|f: &MemberNode| *f).push(*f));
                }
            }
            k = k + 1;
        }
        proof {
            assert(fs.take(fs.len() as int) =~= fs);
            lemma_unassigned_len(fs, aset);
        }
        if remaining.len() > 0 {
            let start: u32 = units.len() as u32;
            proof {
                lemma_kinds_len(members@);
                assert(remaining@.len() <= fs.len());
            }
            let mut extra = file_path_units(remaining.as_slice(), members, start);
            let ghost ev = extra@.map_values(|u: UniverseUnit| unit_view(u));
            let ghost ub = units@;
            units.append(&mut extra);
            proof {
                let uv = units@.map_values(|u: UniverseUnit| unit_view(u));
                assert(uv =~= cu + ev);
                assert(uv.take(cu.len() as int) =~= cu);
                assert(uv.skip(cu.len() as int) =~= ev);
            }
            units
        } else {
            units
        }
    } else if modules.len() > 0 {
        let mut units: Vec<UniverseUnit> = Vec::new();
        let mut i: usize = 0;
        while i < modules.len()
            invariant
                i <= ms.len(),
                ms == modules@.map_values(|f: &MemberNode| *f),
                ms.len() <= u32::MAX,
                units@.map_values(|u: UniverseUnit| unit_view(u)) == Seq::new(i as nat, |j: int| module_unit(ms[j], j)),
            decreases ms.len() - i,
        {
            let m = modules[i];
            let mut idx: Vec<u32> = Vec::new();
            idx.push(m.index);
            let loc = if m.loc > 0 {
                Some(m.loc)
            } else {
                None
            };
            let ghost ub = units@.map_values(|u: UniverseUnit| unit_view(u));
            let u = UniverseUnit { id: i as u32, label: m.name.as_str().to_owned(), kind: "module".to_owned(), member_indices: idx, loc_estimate: loc };
            units.push(u);
            proof {
                assert(idx@ =~= seq![m.index]);
                assert(ms[i as int] == *m);
                assert(unit_view(u) == module_unit(ms[i as int], i as int));
                assert(units@.map_values(|u: UniverseUnit| unit_view(u)) =~= ub.push(unit_view(u)));
                assert(units@.map_values(|u: UniverseUnit| unit_view(u)) =~= Seq::new((i + 1) as nat, |j: int| module_unit(ms[j], j)));
            }
            i = i + 1;
        }
        units
    } else if functions.len() > 0 {
        file_path_units(functions.as_slice(), members, 0)
    } else {
        Vec::new()
    }
}

/// The nodes of the members that resolve, with their indices, in order: an
/// index resolves when it maps to an id and a node has that id.
pub open spec fn resolved_members(nodes: Seq<Node>, ids: Map<u32, NodeId>, member_indices: Seq<u32>) -> Seq<(Node, u32)>
    decreases member_indices.len(),
{
    if member_indices.len() == 0 {
        Seq::empty()
    } else {
        let r = resolved_members(nodes, ids, member_indices.drop_last());
        let idx = member_indices.last();
        if ids.contains_key(idx) {
            match node_by_id(nodes, ids[idx]) {
                Some(n) => r.push((n, idx)),
                None => r,
            }
        } else {
            r
        }
    }
}

/// `m` is the member made from node `n` at index `idx`.
pub open spec fn member_from(m: MemberNode, n: Node, idx: u32) -> bool {
    &&& m.index == idx
    &&& m.name@ == n.name@
    &&& opt_view(m.qualified_name) == opt_view(n.qualified_name)
    &&& opt_view(m.file_path) == opt_view(n.file_path)
    &&& m.node_type == n.node_type
    &&& m.loc == loc_of(n)
}

/// `ms` are the members made from the resolved nodes, in order.
pub open spec fn members_from(ms: Seq<MemberNode>, resolved: Seq<(Node, u32)>) -> bool {
    &&& ms.len() == resolved.len()
    &&& forall|i: int| 0 <= i < ms.len() ==> member_from(#[trigger] ms[i], resolved[i].0, resolved[i].1)
}

fn opt_string(o: &Option<String>) -> (r: Option<String>)
    ensures
        opt_view(r) == opt_view(*o),
{
    match o {
        Some(s) => Some(s.as_str().to_owned()),
        None => None,
    }
}

fn find_node_by_id<'a>(nodes: &'a [Node], id: NodeId) -> (r: Option<&'a Node>)
    ensures
        match r {
            Some(n) => node_by_id(nodes@, id) == Some(*n),
            None => node_by_id(nodes@, id) is None,
        },
{
    let mut i: usize = 0;
    proof {
        assert(nodes@.skip(0) =~= nodes@);
    }
    while i < nodes.len()
        invariant
            i <= nodes@.len(),
            node_by_id(nodes@, id) == node_by_id(nodes@.skip(i as int), id),
        decreases nodes@.len() - i,
    {
        proof {
            assert(nodes@.skip(i as int).drop_first() =~= nodes@.skip(i + 1));
            assert(nodes@.skip(i as int)[0] == nodes@[i as int]);
        }
        if nodes[i].id == id {
            return Some(&nodes[i]);
        }
        i = i + 1;
    }
    proof {
        assert(nodes@.skip(i as int) =~= Seq::<Node>::empty());
    }
    None
}

/// The members of a package that resolve to nodes.
pub fn load_member_nodes(nodes: &[Node], index_to_id: &HashMap<u32, NodeId>, member_indices: &[u32]) -> (ms: Vec<MemberNode>)
    ensures
        members_from(ms@, resolved_members(nodes@, index_to_id@, member_indices@)),
{
    let mut ms: Vec<MemberNode> = Vec::new();
    let mut i: usize = 0;
    proof {
        assert(member_indices@.take(0) =~= Seq::<u32>::empty());
    }
    while i < member_indices.len()
        invariant
            i <= member_indices@.len(),
            members_from(ms@, resolved_members(nodes@, index_to_id@, member_indices@.take(i as int))),
        decreases member_indices@.len() - i,
    {
        let idx = member_indices[i];
        let ghost before = resolved_members(nodes@, index_to_id@, member_indices@.take(i as int));
        proof {
            assert(member_indices@.take(i + 1).drop_last() =~= member_indices@.take(i as int));
            assert(member_indices@.take(i + 1).last() == idx);
        }
        match index_to_id.get(&idx) {
            Some(id) => {
                match find_node_by_id(nodes, *id) {
                    Some(n) => {
                        let m = MemberNode {
                            index: idx,
                            name: n.name.as_str().to_owned(),
                            qualified_name: opt_string(&n.qualified_name),
                            file_path: opt_string(&n.file_path),
                            node_type: n.node_type,
                            loc: node_loc(n),
                        };
                        let ghost mb = ms@;
                        ms.push(m);
                        proof {
                            let after = resolved_members(nodes@, index_to_id@, member_indices@.take(i + 1));
                            assert(after == before.push((*n, idx)));
                            assert forall|j: int| 0 <= j < ms@.len() implies member_from(#[trigger] ms@[j], after[j].0, after[j].1) by {
                                if j < mb.len() {
                                    assert(ms@[j] == mb[j]);
                                }
                            }
                        }
                    },
                    None => {},
                }
            },
            None => {},
        }
        i = i + 1;
    }
    proof {
        assert(member_indices@.take(member_indices@.len() as int) =~= member_indices@);
    }
    ms
}

/// Group a package's members into units: the members that resolve to nodes,
/// grouped as [`package_units_of`] describes. Their line counts must add up
/// within 32 bits, as must their number.
pub fn compute_package_units(nodes: &[Node], index_to_id: &HashMap<u32, NodeId>, member_indices: &[u32]) -> (units: Vec<UniverseUnit>)
    requires
        resolved_members(nodes@, index_to_id@, member_indices@).len() <= u32::MAX,
        forall|ms: Seq<MemberNode>|
            #[trigger] members_from(ms, resolved_members(nodes@, index_to_id@, member_indices@)) ==> loc_all(ms)
                <= u32::MAX,
    ensures
        exists|ms: Seq<MemberNode>|
            members_from(ms, resolved_members(nodes@, index_to_id@, member_indices@)) && package_units_of(
                ms,
                units@.map_values(|u: UniverseUnit| unit_view(u)),
            ),
{
    let members = load_member_nodes(nodes, index_to_id, member_indices);
    proof {
        assert(members_from(members@, resolved_members(nodes@, index_to_id@, member_indices@)));
    }
    package_units(members.as_slice())
}

} // verus!
