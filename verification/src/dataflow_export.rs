//! Dataflow index for the dashboard: one entry per sliced function, with the
//! size of its program dependence graph, its data edges and its blocks.

use crate::graph_builder::lookup;
use crate::text::str_eq;
use vstd::prelude::*;

verus! {

/// Name of the dataflow index file in the bundle.
pub const DATAFLOW_INDEX_FILE: &'static str = "dataflow_index.json";

/// Schema version of the index.
pub const DATAFLOW_SCHEMA_VERSION: u32 = 1;

/// The dataflow index.
#[derive(Debug)]
pub struct DataflowIndexPayload {
    /// Schema version.
    pub schema_version: u32,
    /// Whether slices were exported at all.
    pub available: bool,
    /// Relative path prefix for per-function PDG bundles (shared with slice export).
    pub detail_dir: String,
    /// Number of entries.
    pub function_count: usize,
    /// One entry per sliced function, in slice-index order.
    pub functions: Vec<DataflowFunctionEntry>,
}

/// The dataflow figures of one function.
#[derive(Debug)]
pub struct DataflowFunctionEntry {
    /// Function id.
    pub function_id: String,
    /// Display name.
    pub name: String,
    /// Source file, when known.
    pub file_path: Option<String>,
    /// Nodes of its program dependence graph.
    pub pdg_nodes: usize,
    /// Edges of kind `data` in its PDG bundle.
    pub data_edges: usize,
    /// Basic blocks of its control-flow graph (0 when unknown).
    pub block_count: usize,
}

/// What the dataflow export reports.
#[derive(Debug, PartialEq, Eq, Structural)]
pub struct DataflowExportSummary {
    /// Whether slices were exported.
    pub available: bool,
    /// Number of functions in the index.
    pub function_count: usize,
}

impl Default for DataflowExportSummary {
    fn default() -> (s: Self)
        ensures
            s == (DataflowExportSummary { available: false, function_count: 0 }),
    {
        DataflowExportSummary { available: false, function_count: 0 }
    }
}

/// One function of the slice index, as the dataflow index reads it.
#[derive(Clone, Debug)]
pub struct SliceFunction {
    /// Function id.
    pub function_id: String,
    /// Display name.
    pub name: String,
    /// Source file, when known.
    pub file_path: Option<String>,
    /// Nodes of its program dependence graph.
    pub pdg_nodes: usize,
}

/// The `kind` of each edge under `pdg.edges` in a PDG bundle's JSON (empty
/// when there is no such array), or serde_json's error message.
pub uninterp spec fn pdg_edge_kinds(bundle: Seq<u8>) -> Result<Seq<Option<Seq<char>>>, Seq<char>>;

/// The texts of optional strings.
pub open spec fn option_texts(v: Seq<Option<String>>) -> Seq<Option<Seq<char>>> {
    v.map_values(|o: Option<String>| match o {
        Some(s) => Some(s@),
        None => None,
    })
}

/// Calls `serde_json::from_slice` on a PDG bundle and reads the `kind`
/// string of each element of `pdg.edges`. Claimed: the result is
/// `pdg_edge_kinds` of the bytes.
#[verifier::external_body]
fn parse_pdg_edge_kinds(bundle: &[u8]) -> (r: Result<Vec<Option<String>>, String>)
    ensures
        match r {
            Ok(k) => pdg_edge_kinds(bundle@) == Ok::<Seq<Option<Seq<char>>>, Seq<char>>(option_texts(k@)),
            Err(e) => pdg_edge_kinds(bundle@) == Err::<Seq<Option<Seq<char>>>, Seq<char>>(e@),
        },
{
    let v: serde_json::Value = match serde_json::from_slice(bundle) {
        Ok(v) => v,
        Err(e) => return Err(e.to_string()),
    };
    Ok(match v["pdg"]["edges"].as_array() {
        Some(a) => a.iter().map(|e| e["kind"].as_str().map(|s| s.to_string())).collect(),
        None => Vec::new(),
    })
}

/// Number of kinds that are `data`.
pub open spec fn count_data(kinds: Seq<Option<Seq<char>>>) -> nat
    decreases kinds.len(),
{
    if kinds.len() == 0 {
        0
    } else {
        count_data(kinds.drop_last()) + if kinds.last() == Some("data"@) {
            1nat
        } else {
            0nat
        }
    }
}

/// Data edges of a function whose PDG bundle is `bundle` (none without a bundle).
pub open spec fn bundle_data_edges(bundle: Option<Seq<u8>>) -> Result<nat, Seq<char>> {
    match bundle {
        None => Ok(0),
        Some(b) => match pdg_edge_kinds(b) {
            Ok(k) => Ok(count_data(k)),
            Err(e) => Err(e),
        },
    }
}

/// The bundles' bytes.
pub open spec fn bundle_bytes(bundles: Seq<Option<Vec<u8>>>) -> Seq<Option<Seq<u8>>> {
    bundles.map_values(|b: Option<Vec<u8>>| match b {
        Some(v) => Some(v@),
        None => None,
    })
}

/// The first bundle that does not parse, by its error message.
pub open spec fn first_bundle_error(bundles: Seq<Option<Seq<u8>>>) -> Option<Seq<char>>
    decreases bundles.len(),
{
    if bundles.len() == 0 {
        None
    } else {
        match bundle_data_edges(bundles[0]) {
            Err(e) => Some(e),
            Ok(_) => first_bundle_error(bundles.drop_first()),
        }
    }
}

/// Block count recorded for `id` (the last record for it), or 0.
pub open spec fn block_count_for(block_counts: Seq<(Seq<char>, usize)>, id: Seq<char>) -> usize {
    match lookup(block_counts, id) {
        Some(n) => n,
        None => 0,
    }
}

/// The block counts as plain values.
pub open spec fn block_entries(v: Seq<(String, usize)>) -> Seq<(Seq<char>, usize)> {
    v.map_values(|p: (String, usize)| (p.0@, p.1))
}

/// `e` is the dataflow entry of slice function `f`.
pub open spec fn is_dataflow_entry(
    e: DataflowFunctionEntry,
    f: SliceFunction,
    bundle: Option<Seq<u8>>,
    block_counts: Seq<(Seq<char>, usize)>,
) -> bool {
    &&& e.function_id@ == f.function_id@
    &&& e.name@ == f.name@
    &&& match (e.file_path, f.file_path) {
        (Some(a), Some(b)) => a@ == b@,
        (None, None) => true,
        _ => false,
    }
    &&& e.pdg_nodes == f.pdg_nodes
    &&& bundle_data_edges(bundle) == Ok::<nat, Seq<char>>(e.data_edges as nat)
    &&& e.block_count == block_count_for(block_counts, f.function_id@)
}

fn count_data_kinds(kinds: &Vec<Option<String>>) -> (n: usize)
    ensures
        n == count_data(option_texts(kinds@)),
{
    let ghost ks = option_texts(kinds@);
    let mut n: usize = 0;
    let mut i: usize = 0;
    proof {
        assert(ks.take(0) =~= Seq::<Option<Seq<char>>>::empty());
    }
    while i < kinds.len()
        invariant
            i <= kinds@.len(),
            ks == option_texts(kinds@),
            n == count_data(ks.take(i as int)),
            n <= i,
        decreases kinds@.len() - i,
    {
        proof {
            assert(ks.take(i + 1).drop_last() =~= ks.take(i as int));
            assert(ks.take(i + 1).last() == ks[i as int]);
        }
        let is_data = match &kinds[i] {
            Some(k) => str_eq(k.as_str(), "data"),
            None => false,
        };
        if is_data {
            n = n + 1;
        }
        i = i + 1;
    }
    proof {
        assert(ks.take(i as int) =~= ks);
    }
    n
}

fn block_count_of(block_counts: &[(String, usize)], id: &str) -> (n: usize)
    ensures
        n == block_count_for(block_entries(block_counts@), id@),
{
    let ghost bv = block_entries(block_counts@);
    let mut i: usize = block_counts.len();
    proof {
        assert(bv.take(i as int) =~= bv);
    }
    while i > 0
        invariant
            i <= block_counts@.len(),
            bv == block_entries(block_counts@),
            lookup(bv, id@) == lookup(bv.take(i as int), id@),
        decreases i,
    {
        proof {
            assert(bv.take(i as int).drop_last() =~= bv.take(i - 1));
            assert(bv.take(i as int).last() == bv[i - 1]);
        }
        if str_eq(block_counts[i - 1].0.as_str(), id) {
            return block_counts[i - 1].1;
        }
        i = i - 1;
    }
    0
}

fn copy_text(o: &Option<String>) -> (r: Option<String>)
    ensures
        match (r, *o) {
            (Some(a), Some(b)) => a@ == b@,
            (None, None) => true,
            _ => false,
        },
{
    match o {
        Some(s) => Some(s.clone()),
        None => None,
    }
}

/// The dataflow index: when slices were not exported, an empty index marked
/// unavailable; otherwise one entry per function of the slice index, with the
/// data edges counted in its PDG bundle (`bundles[i]`, when there is one) and
/// its block count from `block_counts`. The first bundle that does not parse
/// gives the error. `detail_dir` is the slice export's bundle directory.
pub fn export_dataflow_index(
    slice_available: bool,
    slice_functions: &[SliceFunction],
    bundles: &[Option<Vec<u8>>],
    block_counts: &[(String, usize)],
    detail_dir: &str,
) -> (r: Result<(DataflowIndexPayload, DataflowExportSummary), String>)
    requires
        bundles@.len() == slice_functions@.len(),
    ensures
        !slice_available ==> (r matches Ok((p, s)) && p.schema_version == DATAFLOW_SCHEMA_VERSION && !p.available
            && p.detail_dir@ == detail_dir@ && p.function_count == 0 && p.functions@.len() == 0
            && s == (DataflowExportSummary { available: false, function_count: 0 })),
        slice_available ==> match first_bundle_error(bundle_bytes(bundles@)) {
            Some(e) => r matches Err(m) && m@ == e,
            None => r matches Ok((p, s)) && {
                &&& p.schema_version == DATAFLOW_SCHEMA_VERSION
                &&& p.available
                &&& p.detail_dir@ == detail_dir@
                &&& p.function_count == slice_functions@.len()
                &&& p.functions@.len() == slice_functions@.len()
                &&& forall|i: int|
                    0 <= i < slice_functions@.len() ==> is_dataflow_entry(
                        #[trigger] p.functions@[i],
                        slice_functions@[i],
                        bundle_bytes(bundles@)[i],
                        block_entries(block_counts@),
                    )
                &&& s.available && s.function_count == slice_functions@.len()
            },
        },
{
    if !slice_available {
        let index = DataflowIndexPayload {
            schema_version: DATAFLOW_SCHEMA_VERSION,
            available: false,
            detail_dir: detail_dir.to_owned(),
            function_count: 0,
            functions: Vec::new(),
        };
        return Ok((index, DataflowExportSummary { available: false, function_count: 0 }));
    }
    let ghost bb = bundle_bytes(bundles@);
    proof {
        assert(bb.skip(0) =~= bb);
    }
    let mut functions: Vec<DataflowFunctionEntry> = Vec::new();
    let mut i: usize = 0;
    while i < slice_functions.len()
        invariant
            slice_available,
            i <= slice_functions@.len(),
            bundles@.len() == slice_functions@.len(),
            bb == bundle_bytes(bundles@),
            functions@.len() == i,
            first_bundle_error(bb) == first_bundle_error(bb.skip(i as int)),
            forall|j: int|
                0 <= j < i ==> is_dataflow_entry(
                    #[trigger] functions@[j],
                    slice_functions@[j],
                    bb[j],
                    block_entries(block_counts@),
                ),
        decreases slice_functions@.len() - i,
    {
        proof {
            assert(bb.skip(i as int)[0] == bb[i as int]);
            assert(bb.skip(i as int).drop_first() =~= bb.skip(i + 1));
        }
        let f = &slice_functions[i];
        let data_edges = match &bundles[i] {
            None => 0,
            Some(bytes) => match parse_pdg_edge_kinds(bytes.as_slice()) {
                Ok(kinds) => count_data_kinds(&kinds),
                Err(e) => {
                    return Err(e);
                },
            },
        };
        let entry = DataflowFunctionEntry {
            function_id: f.function_id.clone(),
            name: f.name.clone(),
            file_path: copy_text(&f.file_path),
            pdg_nodes: f.pdg_nodes,
            data_edges,
            block_count: block_count_of(block_counts, f.function_id.as_str()),
        };
        functions.push(entry);
        i = i + 1;
    }
    proof {
        assert(bb.skip(i as int) =~= Seq::<Option<Seq<u8>>>::empty());
    }
    let n = functions.len();
    let index = DataflowIndexPayload {
        schema_version: DATAFLOW_SCHEMA_VERSION,
        available: true,
        detail_dir: detail_dir.to_owned(),
        function_count: n,
        functions,
    };
    Ok((index, DataflowExportSummary { available: true, function_count: n }))
}

} // verus!
