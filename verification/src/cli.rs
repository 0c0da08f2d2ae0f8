//! Command-line and HTTP argument types, their defaults, and the semantic
//! index status report.

use crate::text::{concat_str, str_eq, to_chars};
use vstd::prelude::*;

verus! {

/// Output format of `export`.
#[derive(Clone, Copy, Debug, PartialEq, Eq, Structural)]
pub enum ExportFormat {
    Json,
    Graphml,
    Graphviz,
    Mermaid,
}

/// Arguments of `export`.
#[derive(Clone, Debug)]
pub struct ExportArgs {
    /// Output format.
    pub export_format: ExportFormat,
    /// Output file.
    pub export_output: String,
    /// Query selecting what to export.
    pub query: String,
}

/// Arguments of `serve`.
#[derive(Clone, Debug)]
pub struct HttpServeArgs {
    /// Host to bind.
    pub host: String,
    /// Port to bind.
    pub port: u16,
    /// Directory of the dashboard to serve, when not the default.
    pub dashboard_dir: Option<String>,
    /// Open a browser once serving.
    pub open: bool,
    /// Serve the query API only.
    pub query_only: bool,
    /// Serve the dashboard only.
    pub dashboard_only: bool,
}

/// Arguments of `metrics`.
#[derive(Clone, Debug)]
pub struct MetricsArgs {
    /// Compute PageRank.
    pub pagerank: bool,
    /// Compute betweenness centrality.
    pub betweenness: bool,
    /// Detect communities.
    pub communities: bool,
    /// PageRank iterations, when not the default.
    pub iterations: Option<usize>,
}

/// Which metrics a `metrics` run computes, and with how many iterations.
#[derive(Clone, Copy, Debug, PartialEq, Eq, Structural)]
pub struct MetricsPlan {
    /// Compute PageRank.
    pub pagerank: bool,
    /// Compute betweenness centrality.
    pub betweenness: bool,
    /// Detect communities.
    pub communities: bool,
    /// PageRank iterations.
    pub iterations: usize,
}

/// Iterations of PageRank when none are asked for.
pub const DEFAULT_PAGERANK_ITERATIONS: usize = 20;

impl MetricsArgs {
    /// What to compute: the selected metrics, or all of them when none is
    /// selected; 20 iterations unless others are asked for.
    pub fn plan(&self) -> (p: MetricsPlan)
        ensures
            ({
                let all = !self.pagerank && !self.betweenness && !self.communities;
                &&& p.pagerank == (self.pagerank || all)
                &&& p.betweenness == (self.betweenness || all)
                &&& p.communities == (self.communities || all)
                &&& p.iterations == match self.iterations {
                    Some(n) => n,
                    None => DEFAULT_PAGERANK_ITERATIONS,
                }
            }),
    {
        let run_all = !self.pagerank && !self.betweenness && !self.communities;
        MetricsPlan {
            pagerank: self.pagerank || run_all,
            betweenness: self.betweenness || run_all,
            communities: self.communities || run_all,
            iterations: match self.iterations {
                Some(n) => n,
                None => DEFAULT_PAGERANK_ITERATIONS,
            },
        }
    }
}

/// Default number of semantic hits.
pub fn default_semantic_limit() -> (n: usize)
    ensures
        n == 20,
{
    20
}

/// Default candidate pool for fused ranking.
pub fn default_candidate_pool() -> (n: usize)
    ensures
        n == 256,
{
    256
}

/// Default expansion depth.
pub fn default_expand_depth() -> (n: usize)
    ensures
        n == 1,
{
    1
}

/// Default for flags that are on unless turned off.
pub fn default_true() -> (b: bool)
    ensures
        b,
{
    true
}

/// How semantic hits are expanded.
#[derive(Clone, Copy, Debug, PartialEq, Eq, Structural)]
pub enum ExpandMode {
    Neighbors,
    Blast,
    Gql,
    All,
}

/// ASCII lower-case of one character.
pub open spec fn ascii_lower(c: char) -> char {
    if 'A' <= c && c <= 'Z' {
        ((c as u8) + 32) as char
    } else {
        c
    }
}

/// ASCII lower-case of a string.
pub open spec fn ascii_lowercase(s: Seq<char>) -> Seq<char> {
    s.map_values(|c: char| ascii_lower(c))
}

/// The ASCII lower-case form of `s`.
pub fn to_ascii_lowercase(s: &str) -> (r: Vec<char>)
    ensures
        r@ == ascii_lowercase(s@),
{
    let cs = to_chars(s);
    let mut r: Vec<char> = Vec::new();
    let mut i: usize = 0;
    while i < cs.len()
        invariant
            cs@ == s@,
            i <= cs@.len(),
            r@ == ascii_lowercase(cs@.take(i as int)),
        decreases cs@.len() - i,
    {
        let c = cs[i];
        let l = if c >= 'A' && c <= 'Z' {
            ((c as u8) + 32) as char
        } else {
            c
        };
        r.push(l);
        proof {
            assert(ascii_lowercase(cs@.take(i + 1)) =~= ascii_lowercase(cs@.take(i as int)).push(ascii_lower(c)));
        }
        i = i + 1;
    }
    proof {
        assert(cs@.take(cs@.len() as int) =~= cs@);
    }
    r
}

/// Characters equal to the string `b`.
pub fn chars_eq_str(a: &Vec<char>, b: &str) -> (r: bool)
    ensures
        r == (a@ == b@),
{
    let bc = to_chars(b);
    if a.len() != bc.len() {
        return false;
    }
    let mut i: usize = 0;
    while i < a.len()
        invariant
            bc@ == b@,
            a@.len() == bc@.len(),
            i <= a@.len(),
            forall|j: int| 0 <= j < i ==> a@[j] == bc@[j],
        decreases a@.len() - i,
    {
        if a[i] != bc[i] {
            return false;
        }
        i = i + 1;
    }
    proof {
        assert(a@ =~= bc@);
    }
    true
}

/// The expansion mode a request names (case-insensitive), if any.
pub open spec fn expand_mode_of(name: Seq<char>) -> Option<ExpandMode> {
    let l = ascii_lowercase(name);
    if l == "neighbors"@ {
        Some(ExpandMode::Neighbors)
    } else if l == "blast"@ {
        Some(ExpandMode::Blast)
    } else if l == "gql"@ {
        Some(ExpandMode::Gql)
    } else if l == "all"@ {
        Some(ExpandMode::All)
    } else {
        None
    }
}

/// The message for an unknown expansion mode.
pub open spec fn unknown_expand_message(lower: Seq<char>) -> Seq<char> {
    "unknown expand mode `"@ + lower + "` (use neighbors, blast, gql, or all)"@
}

/// Parse an optional expansion mode: none asked for gives `Ok(None)`, a known
/// mode (any case) gives it, anything else a 400 error naming it.
pub fn parse_expand_mode(raw: Option<&str>) -> (r: Result<Option<ExpandMode>, (u16, String)>)
    ensures
        match raw {
            None => r == Ok::<Option<ExpandMode>, (u16, String)>(None),
            Some(v) => if expand_mode_of(v@) is Some {
                r == Ok::<Option<ExpandMode>, (u16, String)>(expand_mode_of(v@))
            } else {
                r matches Err(e) && e.0 == 400 && e.1@ == unknown_expand_message(ascii_lowercase(v@))
            },
        },
{
    match raw {
        None => Ok(None),
        Some(value) => {
            let l = to_ascii_lowercase(value);
            if chars_eq_str(&l, "neighbors") {
                Ok(Some(ExpandMode::Neighbors))
            } else if chars_eq_str(&l, "blast") {
                Ok(Some(ExpandMode::Blast))
            } else if chars_eq_str(&l, "gql") {
                Ok(Some(ExpandMode::Gql))
            } else if chars_eq_str(&l, "all") {
                Ok(Some(ExpandMode::All))
            } else {
                let ls = crate::text::from_chars(l.as_slice());
                let head = concat_str("unknown expand mode `", ls.as_str());
                Err((400, concat_str(head.as_str(), "` (use neighbors, blast, gql, or all)")))
            }
        },
    }
}

/// Summary for the semantic status endpoint.
#[derive(Clone, Debug, PartialEq, Eq)]
pub struct SemanticStatusResponse {
    /// An index is loaded and usable.
    pub available: bool,
    /// Embedding model of the index.
    pub model_id: Option<String>,
    /// Embedding dimensions.
    pub dimensions: Option<usize>,
    /// Number of indexed functions.
    pub functions_indexed: Option<usize>,
    /// Digest of the graph the index was built from.
    pub graph_digest: Option<String>,
    /// Explanation when no index is available.
    pub message: Option<String>,
}

/// What was found when looking for the semantic index.
#[derive(Clone, Debug)]
pub enum SemanticIndexLookup {
    /// No index file.
    Missing,
    /// The index loaded.
    Loaded {
        /// Embedding model.
        model_id: String,
        /// Embedding dimensions.
        dimensions: usize,
        /// Number of indexed functions.
        functions_indexed: usize,
        /// Digest of the graph the index was built from.
        graph_digest: Option<String>,
    },
    /// The index file exists but did not load; the error text.
    Failed(String),
}

/// The message when no index exists.
pub open spec fn missing_index_message() -> Seq<char> {
    "Semantic index not found — run `rg-build semantic index` then refresh."@
}

/// The status report for what the index lookup found.
pub fn semantic_status(lookup: SemanticIndexLookup) -> (r: SemanticStatusResponse)
    ensures
        match lookup {
            SemanticIndexLookup::Missing => !r.available && r.model_id is None && r.dimensions is None
                && r.functions_indexed is None && r.graph_digest is None && (r.message matches Some(m)
                && m@ == missing_index_message()),
            SemanticIndexLookup::Loaded { model_id, dimensions, functions_indexed, graph_digest } => r.available
                && r.model_id == Some(model_id) && r.dimensions == Some(dimensions) && r.functions_indexed == Some(
                functions_indexed,
            ) && r.graph_digest == graph_digest && r.message is None,
            SemanticIndexLookup::Failed(err) => !r.available && r.model_id is None && r.dimensions is None
                && r.functions_indexed is None && r.graph_digest is None && (r.message matches Some(m) && m@
                == "Failed to load semantic index: "@ + err@),
        },
{
    match lookup {
        SemanticIndexLookup::Missing => SemanticStatusResponse {
            available: false,
            model_id: None,
            dimensions: None,
            functions_indexed: None,
            graph_digest: None,
            message: Some("Semantic index not found — run `rg-build semantic index` then refresh.".to_owned()),
        },
        SemanticIndexLookup::Loaded { model_id, dimensions, functions_indexed, graph_digest } => SemanticStatusResponse {
            available: true,
            model_id: Some(model_id),
            dimensions: Some(dimensions),
            functions_indexed: Some(functions_indexed),
            graph_digest,
            message: None,
        },
        SemanticIndexLookup::Failed(err) => SemanticStatusResponse {
            available: false,
            model_id: None,
            dimensions: None,
            functions_indexed: None,
            graph_digest: None,
            message: Some(concat_str("Failed to load semantic index: ", err.as_str())),
        },
    }
}

} // verus!
