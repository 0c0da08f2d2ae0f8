//! The export fingerprint: a BLAKE3 hash over the graph's size, the body
//! hashes of its functions, the analysis index and the semantic index file,
//! so that an unchanged repository can skip re-exporting its bundle.

use crate::graph::{Node, NodeType};
use crate::query::MemoryBackend;
use crate::source_catalog::{blake3_digest, blake3_hash, lower_hex, lower_hex_string};
use crate::text::{str_eq, to_chars};
use crate::universe_layout::{lemma_lex_irrefl, lemma_lex_total, lemma_lex_trans, lex_lt, lex_lt_exec};
use vstd::bytes::{spec_u64_to_le_bytes, u64_to_le_bytes};
use vstd::prelude::*;
use vstd::utf8::encode_utf8;

verus! {

broadcast use vstd::seq_lib::to_multiset_build, vstd::seq_lib::to_multiset_insert, vstd::seq_lib::to_multiset_contains;

/// One entry of the analysis index, as the fingerprint reads it.
#[derive(Clone, Debug)]
pub struct AnalysisIndexEntry {
    /// Index key.
    pub key: String,
    /// Body hash of the analysed function.
    pub code_hash: String,
    /// Number of flows found.
    pub flow_count: usize,
    /// Number of vulnerable flows found.
    pub vulnerable_count: usize,
}

/// The semantic index file, when there is one: its size and modification
/// time in seconds since the epoch, as far as the file system reported them.
#[derive(Clone, Copy, Debug)]
pub struct SemanticIndexFile {
    /// Size and (when known) modification time; `None` when the metadata
    /// could not be read.
    pub metadata: Option<(u64, Option<u64>)>,
}

/// A function's file, name and body hash.
pub type FunctionRef = (Seq<char>, Seq<char>, Seq<char>);

/// File, name and body hash of each function that has both a file and a
/// body hash, in graph order.
pub open spec fn function_refs(nodes: Seq<Node>) -> Seq<FunctionRef>
    decreases nodes.len(),
{
    if nodes.len() == 0 {
        Seq::empty()
    } else {
        let r = function_refs(nodes.drop_last());
        let n = nodes.last();
        match (n.node_type, n.file_path, n.code_hash) {
            (NodeType::Function, Some(p), Some(h)) => r.push((p@, n.name@, h@)),
            _ => r,
        }
    }
}

/// Order of function references: by file, then name, then hash.
pub open spec fn ref_lt(a: FunctionRef, b: FunctionRef) -> bool {
    lex_lt(a.0, b.0) || (a.0 == b.0 && (lex_lt(a.1, b.1) || (a.1 == b.1 && lex_lt(a.2, b.2))))
}

/// `rs` is in order.
pub open spec fn refs_sorted(rs: Seq<FunctionRef>) -> bool {
    forall|i: int, j: int| 0 <= i < j < rs.len() ==> !ref_lt(rs[j], rs[i])
}

/// The UTF-8 bytes of each reference's file, name and hash, in order.
pub open spec fn refs_bytes(rs: Seq<FunctionRef>) -> Seq<u8>
    decreases rs.len(),
{
    if rs.len() == 0 {
        Seq::empty()
    } else {
        refs_bytes(rs.drop_last()) + encode_utf8(rs.last().0) + encode_utf8(rs.last().1) + encode_utf8(rs.last().2)
    }
}

/// Analysis entries are in strictly increasing order of key.
pub open spec fn entries_sorted(es: Seq<AnalysisIndexEntry>) -> bool {
    forall|i: int, j: int| 0 <= i < j < es.len() ==> lex_lt(es[i].key@, es[j].key@)
}

/// No two analysis entries share a key.
pub open spec fn distinct_keys(es: Seq<AnalysisIndexEntry>) -> bool {
    forall|i: int, j: int| 0 <= i < j < es.len() ==> es[i].key@ != es[j].key@
}

/// The bytes of each analysis entry: key, body hash, and the two counts as
/// little-endian 64-bit numbers.
pub open spec fn entries_bytes(es: Seq<AnalysisIndexEntry>) -> Seq<u8>
    decreases es.len(),
{
    if es.len() == 0 {
        Seq::empty()
    } else {
        entries_bytes(es.drop_last()) + encode_utf8(es.last().key@) + encode_utf8(es.last().code_hash@)
            + spec_u64_to_le_bytes(es.last().flow_count as u64) + spec_u64_to_le_bytes(
            es.last().vulnerable_count as u64,
        )
    }
}

/// The bytes the semantic index file adds.
pub open spec fn semantic_bytes(s: Option<SemanticIndexFile>) -> Seq<u8> {
    match s {
        None => Seq::empty(),
        Some(f) => "semantic_index_v1"@.map_values(|c: char| c as u8) + match f.metadata {
            None => Seq::empty(),
            Some((len, modified)) => spec_u64_to_le_bytes(len) + match modified {
                Some(secs) => spec_u64_to_le_bytes(secs),
                None => Seq::empty(),
            },
        },
    }
}

/// Everything the fingerprint hashes, in order: node and edge counts, the
/// sorted function references, the analysis index (its size, then its
/// entries by key) when it was read, and the semantic index file.
pub open spec fn fingerprint_message(
    node_count: nat,
    edge_count: nat,
    refs: Seq<FunctionRef>,
    analysis: Option<Seq<AnalysisIndexEntry>>,
    semantic: Option<SemanticIndexFile>,
) -> Seq<u8> {
    spec_u64_to_le_bytes(node_count as u64) + spec_u64_to_le_bytes(edge_count as u64) + refs_bytes(refs)
        + match analysis {
        Some(es) => spec_u64_to_le_bytes(es.len() as u64) + entries_bytes(es),
        None => Seq::empty(),
    } + semantic_bytes(semantic)
}

proof fn lemma_ref_irrefl(a: FunctionRef)
    ensures
        !ref_lt(a, a),
{
    lemma_lex_irrefl(a.0);
    lemma_lex_irrefl(a.1);
    lemma_lex_irrefl(a.2);
}

proof fn lemma_ref_trans(a: FunctionRef, b: FunctionRef, c: FunctionRef)
    requires
        ref_lt(a, b),
        ref_lt(b, c),
    ensures
        ref_lt(a, c),
{
    if lex_lt(a.0, b.0) && lex_lt(b.0, c.0) {
        lemma_lex_trans(a.0, b.0, c.0);
    } else if a.0 == b.0 && b.0 == c.0 {
        if lex_lt(a.1, b.1) && lex_lt(b.1, c.1) {
            lemma_lex_trans(a.1, b.1, c.1);
        } else if a.1 == b.1 && b.1 == c.1 {
            lemma_lex_trans(a.2, b.2, c.2);
        }
    }
}

proof fn lemma_ref_total(a: FunctionRef, b: FunctionRef)
    requires
        a != b,
    ensures
        ref_lt(a, b) || ref_lt(b, a),
{
    if a.0 != b.0 {
        lemma_lex_total(a.0, b.0);
    } else if a.1 != b.1 {
        lemma_lex_total(a.1, b.1);
    } else {
        lemma_lex_total(a.2, b.2);
    }
}

/// The plain values of a reference.
pub open spec fn ref_view(r: (String, String, String)) -> FunctionRef {
    (r.0@, r.1@, r.2@)
}

/// The plain values of references.
pub open spec fn refs_view(rs: Seq<(String, String, String)>) -> Seq<FunctionRef> {
    rs.map_values(|r: (String, String, String)| ref_view(r))
}

fn ref_lt_exec(a: &(String, String, String), b: &(String, String, String)) -> (r: bool)
    ensures
        r == ref_lt(ref_view(*a), ref_view(*b)),
{
    let a0 = to_chars(a.0.as_str());
    let b0 = to_chars(b.0.as_str());
    if lex_lt_exec(&a0, &b0) {
        return true;
    }
    if !str_eq(a.0.as_str(), b.0.as_str()) {
        return false;
    }
    let a1 = to_chars(a.1.as_str());
    let b1 = to_chars(b.1.as_str());
    if lex_lt_exec(&a1, &b1) {
        return true;
    }
    if !str_eq(a.1.as_str(), b.1.as_str()) {
        return false;
    }
    let a2 = to_chars(a.2.as_str());
    let b2 = to_chars(b.2.as_str());
    lex_lt_exec(&a2, &b2)
}

fn copy_ref(r: &(String, String, String)) -> (c: (String, String, String))
    ensures
        c == *r,
{
    (r.0.clone(), r.1.clone(), r.2.clone())
}

/// The function references of the graph, in graph order.
fn collect_function_refs(nodes: &[Node]) -> (rs: Vec<(String, String, String)>)
    ensures
        refs_view(rs@) == function_refs(nodes@),
{
    let mut rs: Vec<(String, String, String)> = Vec::new();
    let mut i: usize = 0;
    proof {
        assert(nodes@.take(0) =~= Seq::<Node>::empty());
        assert(refs_view(rs@) =~= Seq::<FunctionRef>::empty());
    }
    while i < nodes.len()
        invariant
            i <= nodes@.len(),
            refs_view(rs@) == function_refs(nodes@.take(i as int)),
        decreases nodes@.len() - i,
    {
        proof {
            assert(nodes@.take(i + 1).drop_last() =~= nodes@.take(i as int));
            assert(nodes@.take(i + 1).last() == nodes@[i as int]);
        }
        let n = &nodes[i];
        let ghost before = rs@;
        if n.node_type == NodeType::Function {
            match (&n.file_path, &n.code_hash) {
                (Some(p), Some(h)) => {
                    rs.push((p.clone(), n.name.clone(), h.clone()));
                    proof {
                        assert(refs_view(rs@) =~= refs_view(before).push((p@, n.name@, h@)));
                    }
                },
                _ => {},
            }
        }
        i = i + 1;
    }
    proof {
        assert(nodes@.take(i as int) =~= nodes@);
    }
    rs
}

/// `rs` in order (a sorted rearrangement of it).
fn sort_refs(rs: &Vec<(String, String, String)>) -> (out: Vec<(String, String, String)>)
    ensures
        refs_sorted(refs_view(out@)),
        refs_view(out@).to_multiset() == refs_view(rs@).to_multiset(),
{
    let mut out: Vec<(String, String, String)> = Vec::new();
    let mut i: usize = 0;
    proof {
        assert(refs_view(rs@).take(0) =~= Seq::<FunctionRef>::empty());
        assert(refs_view(out@) =~= Seq::<FunctionRef>::empty());
    }
    while i < rs.len()
        invariant
            i <= rs@.len(),
            refs_sorted(refs_view(out@)),
            refs_view(out@).to_multiset() == refs_view(rs@).take(i as int).to_multiset(),
        decreases rs@.len() - i,
    {
        let x = copy_ref(&rs[i]);
        let ghost xv = ref_view(x);
        let mut k: usize = out.len();
        while k > 0 && ref_lt_exec(&x, &out[k - 1])
            invariant
                k <= out@.len(),
                xv == ref_view(x),
                forall|j: int| k <= j < out@.len() ==> ref_lt(xv, #[trigger] ref_view(out@[j])),
            decreases k,
        {
            k = k - 1;
        }
        let ghost ov = refs_view(out@);
        proof {
            assert forall|j: int| 0 <= j < k implies !ref_lt(xv, #[trigger] ov[j]) by {
                assert(ov[j] == ref_view(out@[j]));
                if j < k - 1 {
                    let b = ov[k - 1];
                    assert(!ref_lt(b, ov[j]));
                    assert(!ref_lt(xv, b));
                    if ref_lt(xv, ov[j]) {
                        if ov[j] != b {
                            lemma_ref_total(ov[j], b);
                            lemma_ref_trans(xv, ov[j], b);
                        }
                    }
                }
            }
        }
        out.insert(k, x);
        proof {
            let nv = refs_view(out@);
            assert(nv =~= ov.insert(k as int, xv));
            assert forall|a: int, b: int| 0 <= a < b < nv.len() implies !ref_lt(nv[b], nv[a]) by {
                if a < k && b < k {
                } else if a < k && b == k {
                } else if a < k && b > k {
                    assert(nv[b] == ov[b - 1]);
                } else if a == k {
                    assert(nv[b] == ov[b - 1]);
                    assert(ref_lt(xv, ref_view(out@[b])));
                    if ref_lt(ov[b - 1], xv) {
                        lemma_ref_trans(xv, ov[b - 1], xv);
                        lemma_ref_irrefl(xv);
                    }
                } else {
                    assert(nv[a] == ov[a - 1] && nv[b] == ov[b - 1]);
                }
            }
            assert(refs_view(rs@).take(i + 1) =~= refs_view(rs@).take(i as int).push(xv));
        }
        i = i + 1;
    }
    proof {
        assert(refs_view(rs@).take(i as int) =~= refs_view(rs@));
    }
    out
}

/// `es` in increasing order of key (a sorted rearrangement of it).
fn sort_entries(es: &[AnalysisIndexEntry]) -> (out: Vec<AnalysisIndexEntry>)
    requires
        distinct_keys(es@),
    ensures
        entries_sorted(out@),
        out@.to_multiset() == es@.to_multiset(),
{
    let mut out: Vec<AnalysisIndexEntry> = Vec::new();
    let mut i: usize = 0;
    proof {
        assert(es@.take(0) =~= Seq::<AnalysisIndexEntry>::empty());
    }
    while i < es.len()
        invariant
            i <= es@.len(),
            distinct_keys(es@),
            entries_sorted(out@),
            out@.to_multiset() == es@.take(i as int).to_multiset(),
        decreases es@.len() - i,
    {
        let x = AnalysisIndexEntry {
            key: es[i].key.clone(),
            code_hash: es[i].code_hash.clone(),
            flow_count: es[i].flow_count,
            vulnerable_count: es[i].vulnerable_count,
        };
        let xk = to_chars(x.key.as_str());
        let mut k: usize = out.len();
        while k > 0 && key_sorts_before(&xk, &out[k - 1])
            invariant
                k <= out@.len(),
                xk@ == x.key@,
                forall|j: int| k <= j < out@.len() ==> lex_lt(x.key@, #[trigger] out@[j].key@),
            decreases k,
        {
            k = k - 1;
        }
        let ghost ov = out@;
        proof {
            // `x`'s key is none of the keys taken so far.
            assert forall|j: int| 0 <= j < ov.len() implies (#[trigger] ov[j]).key@ != x.key@ by {
                assert(out@.contains(ov[j]));
                assert(out@.to_multiset().count(ov[j]) > 0);
                assert(es@.take(i as int).to_multiset().count(ov[j]) > 0);
                assert(es@.take(i as int).contains(ov[j]));
                let w = choose|w: int| 0 <= w < i && es@.take(i as int)[w] == ov[j];
                assert(es@[w] == ov[j]);
            }
            assert forall|j: int| 0 <= j < k implies lex_lt(#[trigger] ov[j].key@, x.key@) by {
                let b = ov[k - 1].key@;
                assert(!lex_lt(x.key@, b));
                if j < k - 1 {
                    assert(lex_lt(ov[j].key@, b));
                }
                if ov[j].key@ != x.key@ {
                    lemma_lex_total(ov[j].key@, x.key@);
                    if lex_lt(x.key@, ov[j].key@) {
                        if j < k - 1 {
                            lemma_lex_trans(x.key@, ov[j].key@, b);
                        }
                    }
                }
            }
        }
        let ghost xv = x;
        out.insert(k, x);
        proof {
            let nv = out@;
            assert(nv =~= ov.insert(k as int, xv));
            assert forall|a: int, b: int| 0 <= a < b < nv.len() implies lex_lt(nv[a].key@, nv[b].key@) by {
                if a < k && b < k {
                } else if a < k && b == k {
                } else if a < k && b > k {
                    assert(nv[b] == ov[b - 1]);
                    lemma_lex_trans(ov[a].key@, xv.key@, ov[b - 1].key@);
                } else if a == k {
                    assert(nv[b] == ov[b - 1]);
                } else {
                    assert(nv[a] == ov[a - 1] && nv[b] == ov[b - 1]);
                }
            }
            assert(xv == es@[i as int]);
            assert(es@.take(i + 1) =~= es@.take(i as int).push(es@[i as int]));
        }
        i = i + 1;
    }
    proof {
        assert(es@.take(i as int) =~= es@);
    }
    out
}

fn key_sorts_before(x: &Vec<char>, e: &AnalysisIndexEntry) -> (r: bool)
    ensures
        r == lex_lt(x@, e.key@),
{
    let ek = to_chars(e.key.as_str());
    lex_lt_exec(x, &ek)
}

fn append_bytes(v: &mut Vec<u8>, b: &[u8])
    ensures
        final(v)@ == old(v)@ + b@,
{
    let ghost v0 = v@;
    let mut i: usize = 0;
    while i < b.len()
        invariant
            i <= b@.len(),
            v@ == v0 + b@.take(i as int),
        decreases b@.len() - i,
    {
        v.push(b[i]);
        proof {
            assert(b@.take(i + 1) =~= b@.take(i as int).push(b@[i as int]));
            assert(v0 + b@.take(i + 1) =~= (v0 + b@.take(i as int)).push(b@[i as int]));
        }
        i = i + 1;
    }
    proof {
        assert(b@.take(i as int) =~= b@);
    }
}

fn append_u64(v: &mut Vec<u8>, n: u64)
    ensures
        final(v)@ == old(v)@ + spec_u64_to_le_bytes(n),
{
    let le = u64_to_le_bytes(n);
    append_bytes(v, le.as_slice());
}

/// Hash graph size, function body hashes, the analysis index and the
/// semantic index file, for skipping an unchanged export: the lower-case
/// hex of the BLAKE3 hash of `fingerprint_message`, with the function
/// references in order and the analysis entries in order of key.
pub fn compute_export_fingerprint(
    backend: &MemoryBackend,
    analysis: Option<&[AnalysisIndexEntry]>,
    semantic: Option<SemanticIndexFile>,
) -> (r: String)
    requires
        analysis matches Some(es) ==> distinct_keys(es@),
    ensures
        exists|refs: Seq<FunctionRef>, es: Option<Seq<AnalysisIndexEntry>>|
            {
                &&& refs_sorted(refs)
                &&& refs.to_multiset() == function_refs(backend.node_seq()).to_multiset()
                &&& match (analysis, es) {
                    (Some(a), Some(s)) => entries_sorted(s) && s.to_multiset() == a@.to_multiset(),
                    (None, None) => true,
                    _ => false,
                }
                &&& r@ == lower_hex(
                    blake3_digest(
                        #[trigger] fingerprint_message(
                            backend.node_seq().len(),
                            backend.edge_seq().len(),
                            refs,
                            es,
                            semantic,
                        ),
                    ),
                )
            },
{
    let mut msg: Vec<u8> = Vec::new();
    append_u64(&mut msg, backend.node_count() as u64);
    append_u64(&mut msg, backend.edge_count() as u64);
    let refs = sort_refs(&collect_function_refs(backend.nodes()));
    let ghost rv = refs_view(refs@);
    let ghost head = msg@;
    let mut i: usize = 0;
    proof {
        assert(rv.take(0) =~= Seq::<FunctionRef>::empty());
        assert(head + refs_bytes(rv.take(0)) =~= head);
    }
    while i < refs.len()
        invariant
            i <= refs@.len(),
            rv == refs_view(refs@),
            msg@ == head + refs_bytes(rv.take(i as int)),
        decreases refs@.len() - i,
    {
        proof {
            assert(rv.take(i + 1).drop_last() =~= rv.take(i as int));
            assert(rv.take(i + 1).last() == ref_view(refs@[i as int]));
        }
        append_bytes(&mut msg, refs[i].0.as_str().as_bytes());
        append_bytes(&mut msg, refs[i].1.as_str().as_bytes());
        append_bytes(&mut msg, refs[i].2.as_str().as_bytes());
        proof {
            let t = rv.take(i + 1).last();
            assert(msg@ =~= head + refs_bytes(rv.take(i as int)) + encode_utf8(t.0) + encode_utf8(t.1) + encode_utf8(t.2));
        }
        i = i + 1;
    }
    proof {
        assert(rv.take(i as int) =~= rv);
    }
    let ghost after_refs = msg@;
    let mut sorted_entries: Option<Vec<AnalysisIndexEntry>> = None;
    match analysis {
        Some(es) => {
            let sorted = sort_entries(es);
            append_u64(&mut msg, sorted.len() as u64);
            let ghost head2 = msg@;
            let mut j: usize = 0;
            proof {
                assert(sorted@.take(0) =~= Seq::<AnalysisIndexEntry>::empty());
                assert(head2 + entries_bytes(sorted@.take(0)) =~= head2);
            }
            while j < sorted.len()
                invariant
                    j <= sorted@.len(),
                    msg@ == head2 + entries_bytes(sorted@.take(j as int)),
                decreases sorted@.len() - j,
            {
                proof {
                    assert(sorted@.take(j + 1).drop_last() =~= sorted@.take(j as int));
                    assert(sorted@.take(j + 1).last() == sorted@[j as int]);
                }
                let e = &sorted[j];
                append_bytes(&mut msg, e.key.as_str().as_bytes());
                append_bytes(&mut msg, e.code_hash.as_str().as_bytes());
                append_u64(&mut msg, e.flow_count as u64);
                append_u64(&mut msg, e.vulnerable_count as u64);
                proof {
                    assert(msg@ =~= head2 + entries_bytes(sorted@.take(j as int)) + encode_utf8(e.key@) + encode_utf8(
                        e.code_hash@,
                    ) + spec_u64_to_le_bytes(e.flow_count as u64) + spec_u64_to_le_bytes(e.vulnerable_count as u64));
                }
                j = j + 1;
            }
            proof {
                assert(sorted@.take(j as int) =~= sorted@);
            }
            sorted_entries = Some(sorted);
        },
        None => {},
    }
    let ghost es_view: Option<Seq<AnalysisIndexEntry>> = match sorted_entries {
        Some(v) => Some(v@),
        None => None,
    };
    let ghost after_analysis = msg@;
    match semantic {
        Some(f) => {
            let tag: Vec<u8> = vec![115u8, 101, 109, 97, 110, 116, 105, 99, 95, 105, 110, 100, 101, 120, 95, 118, 49];
            proof {
                reveal_strlit("semantic_index_v1");
                assert(tag@ =~= "semantic_index_v1"@.map_values(|c: char| c as u8));
            }
            append_bytes(&mut msg, tag.as_slice());
            match f.metadata {
                Some((len, modified)) => {
                    append_u64(&mut msg, len);
                    match modified {
                        Some(secs) => append_u64(&mut msg, secs),
                        None => {},
                    }
                },
                None => {},
            }
        },
        None => {},
    }
    proof {
        let m = fingerprint_message(backend.node_seq().len(), backend.edge_seq().len(), rv, es_view, semantic);
        assert(msg@ =~= m);
    }
    let digest = blake3_hash(msg.as_slice());
    lower_hex_string(digest.as_slice())
}


/// Removing the same element from both sides keeps multisets equal.
proof fn lemma_multiset_cancel<A>(a: Seq<A>, b: Seq<A>)
    requires
        a.len() > 0,
        b.len() > 0,
        a.last() == b.last(),
        a.to_multiset() == b.to_multiset(),
    ensures
        a.drop_last().to_multiset() == b.drop_last().to_multiset(),
{
    broadcast use vstd::multiset::group_multiset_axioms;

    assert(a.drop_last().push(a.last()) =~= a);
    assert(b.drop_last().push(b.last()) =~= b);
    let ma = a.drop_last().to_multiset();
    let mb = b.drop_last().to_multiset();
    assert(ma.insert(a.last()) == mb.insert(a.last()));
    assert forall|x: A| ma.count(x) == mb.count(x) by {
        assert(ma.insert(a.last()).count(x) == mb.insert(a.last()).count(x));
    }
    assert(ma =~= mb);
}

/// Two sorted arrangements of the same function references are the same.
proof fn lemma_sorted_refs_unique(a: Seq<FunctionRef>, b: Seq<FunctionRef>)
    requires
        refs_sorted(a),
        refs_sorted(b),
        a.to_multiset() == b.to_multiset(),
    ensures
        a == b,
    decreases a.len(),
{
    broadcast use vstd::multiset::group_multiset_axioms;

    vstd::seq_lib::to_multiset_len(a);
    vstd::seq_lib::to_multiset_len(b);
    if a.len() == 0 {
        assert(a =~= b);
    } else {
        let x = a.last();
        let y = b.last();
        assert(b.to_multiset().count(y) > 0) by {
            assert(b.contains(y));
        }
        assert(a.contains(y));
        assert(a.to_multiset().count(x) > 0) by {
            assert(a.contains(x));
        }
        assert(b.contains(x));
        let i = choose|i: int| 0 <= i < a.len() && a[i] == y;
        let j = choose|j: int| 0 <= j < b.len() && b[j] == x;
        if i < a.len() - 1 {
            assert(!ref_lt(a[a.len() - 1], a[i]));
        } else {
            lemma_ref_irrefl(x);
        }
        if j < b.len() - 1 {
            assert(!ref_lt(b[b.len() - 1], b[j]));
        } else {
            lemma_ref_irrefl(y);
        }
        if x != y {
            lemma_ref_total(x, y);
        }
        lemma_multiset_cancel(a, b);
        lemma_sorted_refs_unique(a.drop_last(), b.drop_last());
        assert(a =~= a.drop_last().push(x));
        assert(b =~= b.drop_last().push(y));
    }
}

/// Two key-sorted arrangements of the same analysis entries are the same.
proof fn lemma_sorted_entries_unique(a: Seq<AnalysisIndexEntry>, b: Seq<AnalysisIndexEntry>)
    requires
        entries_sorted(a),
        entries_sorted(b),
        a.to_multiset() == b.to_multiset(),
    ensures
        a == b,
    decreases a.len(),
{
    broadcast use vstd::multiset::group_multiset_axioms;

    vstd::seq_lib::to_multiset_len(a);
    vstd::seq_lib::to_multiset_len(b);
    if a.len() == 0 {
        assert(a =~= b);
    } else {
        let x = a.last();
        let y = b.last();
        assert(b.to_multiset().count(y) > 0) by {
            assert(b.contains(y));
        }
        assert(a.contains(y));
        assert(a.to_multiset().count(x) > 0) by {
            assert(a.contains(x));
        }
        assert(b.contains(x));
        let i = choose|i: int| 0 <= i < a.len() && a[i] == y;
        let j = choose|j: int| 0 <= j < b.len() && b[j] == x;
        if x != y {
            // Both are largest by key, so their keys agree; then one side holds
            // two entries with one key, which strict order rules out.
            if i < a.len() - 1 {
                assert(lex_lt(a[i].key@, a[a.len() - 1].key@));
            }
            if j < b.len() - 1 {
                assert(lex_lt(b[j].key@, b[b.len() - 1].key@));
            }
            if i < a.len() - 1 && j < b.len() - 1 {
                lemma_lex_trans(y.key@, x.key@, y.key@);
                lemma_lex_irrefl(y.key@);
            }
        }
        lemma_multiset_cancel(a, b);
        lemma_sorted_entries_unique(a.drop_last(), b.drop_last());
        assert(a =~= a.drop_last().push(x));
        assert(b =~= b.drop_last().push(y));
    }
}

/// The fingerprint does not depend on the order in which the graph holds its
/// functions or the analysis index lists its entries: sorted arrangements of
/// the same references and entries give the same message, so an unchanged
/// repository keeps its fingerprint.
pub proof fn lemma_fingerprint_message_order_free(
    node_count: nat,
    edge_count: nat,
    refs1: Seq<FunctionRef>,
    refs2: Seq<FunctionRef>,
    analysis1: Option<Seq<AnalysisIndexEntry>>,
    analysis2: Option<Seq<AnalysisIndexEntry>>,
    semantic: Option<SemanticIndexFile>,
)
    requires
        refs_sorted(refs1),
        refs_sorted(refs2),
        refs1.to_multiset() == refs2.to_multiset(),
        match (analysis1, analysis2) {
            (Some(x), Some(y)) => entries_sorted(x) && entries_sorted(y) && x.to_multiset() == y.to_multiset(),
            (None, None) => true,
            _ => false,
        },
    ensures
        fingerprint_message(node_count, edge_count, refs1, analysis1, semantic) == fingerprint_message(
            node_count,
            edge_count,
            refs2,
            analysis2,
            semantic,
        ),
{
    lemma_sorted_refs_unique(refs1, refs2);
    match (analysis1, analysis2) {
        (Some(x), Some(y)) => {
            lemma_sorted_entries_unique(x, y);
        },
        _ => {},
    }
}

} // verus!
