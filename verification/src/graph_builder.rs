//! Turns extracted symbols, relations and configuration keys into graph
//! nodes and edges, and resolves the endpoints of relations by name.
//!
//! Lookup tables are association lists: a key may be recorded with several
//! ids, and a name resolves only when exactly one id stands for it.

use crate::error::Error;
use crate::graph::{fresh_node_id, Edge, EdgeType, Node, NodeId, NodeType};
use crate::symbols::{
    ComplexityMetrics, ConfigKey, Field, MetaValue, Relation, RelationType, Symbol, SymbolType,
};
use crate::text::{concat_str, decimal, decimal_chars, from_chars, matches_at, str_eq, string_of_range, to_chars};
use crate::universe_actions::{join_args, join_spaces};
use vstd::prelude::*;

verus! {

/// Kind of configuration reference detected in source code.
#[derive(Clone, Copy, Debug, PartialEq, Eq, Structural)]
pub enum ConfigUsageKind {
    /// Environment variable reference
    EnvVar,
    /// Configuration key reference
    ConfigKey,
}

// ---------------------------------------------------------------------------
// Association lists
// ---------------------------------------------------------------------------

/// The text of an optional string.
pub open spec fn text_of(o: Option<String>) -> Option<Seq<char>> {
    match o {
        Some(s) => Some(s@),
        None => None,
    }
}

/// The text of an optional string slice.
pub open spec fn str_text(o: Option<&str>) -> Option<Seq<char>> {
    match o {
        Some(s) => Some(s@),
        None => None,
    }
}

/// Entries keyed by text, as plain values.
pub open spec fn id_entries(v: Seq<(String, NodeId)>) -> Seq<(Seq<char>, NodeId)> {
    v.map_values(|p: (String, NodeId)| (p.0@, p.1))
}

/// Text pairs, as plain values.
pub open spec fn text_entries(v: Seq<(String, String)>) -> Seq<(Seq<char>, Seq<char>)> {
    v.map_values(|p: (String, String)| (p.0@, p.1@))
}

/// The value recorded for `key` (the last entry for it).
pub open spec fn lookup<V>(entries: Seq<(Seq<char>, V)>, key: Seq<char>) -> Option<V>
    decreases entries.len(),
{
    if entries.len() == 0 {
        None
    } else if entries.last().0 == key {
        Some(entries.last().1)
    } else {
        lookup(entries.drop_last(), key)
    }
}

/// The ids recorded for `key`, in order.
pub open spec fn ids_for(entries: Seq<(Seq<char>, NodeId)>, key: Seq<char>) -> Seq<NodeId>
    decreases entries.len(),
{
    if entries.len() == 0 {
        Seq::empty()
    } else {
        let r = ids_for(entries.drop_last(), key);
        if entries.last().0 == key {
            r.push(entries.last().1)
        } else {
            r
        }
    }
}

/// The one id among `ids`: there is at least one, and all are the same.
pub open spec fn sole_id(ids: Seq<NodeId>) -> Option<NodeId> {
    if ids.len() > 0 && (forall|i: int| 0 <= i < ids.len() ==> #[trigger] ids[i] == ids[0]) {
        Some(ids[0])
    } else {
        None
    }
}

/// `entries` with `(key, id)` recorded, unless it already is.
pub open spec fn add_entry(entries: Seq<(Seq<char>, NodeId)>, key: Seq<char>, id: NodeId) -> Seq<(Seq<char>, NodeId)> {
    if entries.contains((key, id)) {
        entries
    } else {
        entries.push((key, id))
    }
}

/// `entries` with each of `keys` recorded for `id`, in order.
pub open spec fn add_entries(entries: Seq<(Seq<char>, NodeId)>, keys: Seq<Seq<char>>, id: NodeId) -> Seq<(Seq<char>, NodeId)>
    decreases keys.len(),
{
    if keys.len() == 0 {
        entries
    } else {
        add_entries(add_entry(entries, keys[0], id), keys.drop_first(), id)
    }
}

/// The parts of `s` that follow each occurrence of `sep` at or after `k`,
/// occurrences taken left to right without overlap.
pub open spec fn sep_suffixes(s: Seq<char>, sep: Seq<char>, k: int) -> Seq<Seq<char>>
    decreases s.len() - k,
{
    if sep.len() == 0 || k < 0 || k + sep.len() > s.len() {
        Seq::empty()
    } else if s.subrange(k, k + sep.len()) == sep {
        seq![s.skip(k + sep.len())] + sep_suffixes(s, sep, k + sep.len())
    } else {
        sep_suffixes(s, sep, k + 1)
    }
}

/// Record `(key, id)` unless it already is.
fn add_entry_exec(entries: &mut Vec<(String, NodeId)>, key: &str, id: NodeId)
    ensures
        id_entries(final(entries)@) == add_entry(id_entries(old(entries)@), key@, id),
{
    let ghost ev = id_entries(entries@);
    let mut i: usize = 0;
    while i < entries.len()
        invariant
            i <= entries@.len(),
            ev == id_entries(entries@),
            ev.len() == entries@.len(),
            forall|j: int| 0 <= j < i ==> ev[j] != (key@, id),
        decreases entries@.len() - i,
    {
        if entries[i].1 == id && str_eq(entries[i].0.as_str(), key) {
            proof {
                assert(ev[i as int] == (key@, id));
            }
            return;
        }
        i = i + 1;
    }
    proof {
        assert(!ev.contains((key@, id)));
    }
    entries.push((key.to_owned(), id));
    proof {
        assert(id_entries(entries@) =~= ev.push((key@, id)));
    }
}

/// The id recorded for `key` (the last entry for it).
fn lookup_id(entries: &Vec<(String, NodeId)>, key: &str) -> (r: Option<NodeId>)
    ensures
        r == lookup(id_entries(entries@), key@),
{
    let ghost ev = id_entries(entries@);
    let mut i: usize = entries.len();
    proof {
        assert(ev.take(i as int) =~= ev);
    }
    while i > 0
        invariant
            i <= entries@.len(),
            ev == id_entries(entries@),
            lookup(ev, key@) == lookup(ev.take(i as int), key@),
        decreases i,
    {
        proof {
            assert(ev.take(i as int).drop_last() =~= ev.take(i - 1));
            assert(ev.take(i as int).last() == ev[i - 1]);
        }
        if str_eq(entries[i - 1].0.as_str(), key) {
            return Some(entries[i - 1].1);
        }
        i = i - 1;
    }
    None
}

/// The text recorded for `key` (the last entry for it).
fn lookup_text(entries: &Vec<(String, String)>, key: &str) -> (r: Option<String>)
    ensures
        text_of(r) == lookup(text_entries(entries@), key@),
{
    let ghost ev = text_entries(entries@);
    let mut i: usize = entries.len();
    proof {
        assert(ev.take(i as int) =~= ev);
    }
    while i > 0
        invariant
            i <= entries@.len(),
            ev == text_entries(entries@),
            lookup(ev, key@) == lookup(ev.take(i as int), key@),
        decreases i,
    {
        proof {
            assert(ev.take(i as int).drop_last() =~= ev.take(i - 1));
            assert(ev.take(i as int).last() == ev[i - 1]);
        }
        if str_eq(entries[i - 1].0.as_str(), key) {
            return Some(entries[i - 1].1.clone());
        }
        i = i - 1;
    }
    None
}

/// The one id recorded for `key`, when exactly one distinct id is.
fn sole_candidate(entries: &Vec<(String, NodeId)>, key: &str) -> (r: Option<NodeId>)
    ensures
        r == sole_id(ids_for(id_entries(entries@), key@)),
{
    let ghost ev = id_entries(entries@);
    let mut first: Option<NodeId> = None;
    let mut same = true;
    let mut i: usize = 0;
    proof {
        assert(ev.take(0) =~= Seq::<(Seq<char>, NodeId)>::empty());
    }
    while i < entries.len()
        invariant
            i <= entries@.len(),
            ev == id_entries(entries@),
            ({
                let ids = ids_for(ev.take(i as int), key@);
                &&& first == (if ids.len() > 0 { Some(ids[0]) } else { None })
                &&& same == (forall|j: int| 0 <= j < ids.len() ==> #[trigger] ids[j] == ids[0])
            }),
        decreases entries@.len() - i,
    {
        let ghost before = ids_for(ev.take(i as int), key@);
        proof {
            assert(ev.take(i + 1).drop_last() =~= ev.take(i as int));
            assert(ev.take(i + 1).last() == ev[i as int]);
        }
        if str_eq(entries[i].0.as_str(), key) {
            let id = entries[i].1;
            let ghost after = before.push(id);
            assert(ids_for(ev.take(i + 1), key@) == after);
            match first {
                None => {
                    first = Some(id);
                    proof {
                        assert forall|j: int| 0 <= j < after.len() implies #[trigger] after[j] == after[0] by {}
                    }
                },
                Some(f) => {
                    if id != f {
                        same = false;
                    }
                    proof {
                        if same {
                            assert forall|j: int| 0 <= j < after.len() implies #[trigger] after[j] == after[0] by {
                                if j < before.len() {
                                    assert(after[j] == before[j]);
                                }
                            }
                        } else {
                            if id != f {
                                assert(after[after.len() - 1] != after[0]);
                            } else {
                                let w = choose|j: int| 0 <= j < before.len() && #[trigger] before[j] != before[0];
                                assert(after[w] != after[0]);
                            }
                        }
                    }
                },
            }
        } else {
            proof {
                assert(ids_for(ev.take(i + 1), key@) == before);
            }
        }
        i = i + 1;
    }
    proof {
        assert(ev.take(i as int) =~= ev);
    }
    if same {
        first
    } else {
        None
    }
}

/// Record, for `id`, the part of `cs` after each occurrence of `sep`.
fn add_sep_suffixes(entries: &mut Vec<(String, NodeId)>, cs: &[char], sep: &[char], id: NodeId)
    requires
        sep@.len() > 0,
    ensures
        id_entries(final(entries)@) == add_entries(id_entries(old(entries)@), sep_suffixes(cs@, sep@, 0), id),
{
    let ghost target = add_entries(id_entries(entries@), sep_suffixes(cs@, sep@, 0), id);
    let mut i: usize = 0;
    while i < cs.len() && sep.len() <= cs.len() - i
        invariant
            i <= cs@.len(),
            sep@.len() > 0,
            add_entries(id_entries(entries@), sep_suffixes(cs@, sep@, i as int), id) == target,
        decreases cs@.len() - i,
    {
        let ghost rest = sep_suffixes(cs@, sep@, i as int);
        if matches_at(cs, i, sep) {
            let end = i + sep.len();
            let suffix = string_of_range(cs, end, cs.len());
            let ghost tail = sep_suffixes(cs@, sep@, end as int);
            proof {
                assert(cs@.skip(end as int) =~= cs@.subrange(end as int, cs@.len() as int));
                assert(rest == seq![suffix@] + tail);
                assert((seq![suffix@] + tail)[0] == suffix@);
                assert((seq![suffix@] + tail).drop_first() =~= tail);
            }
            add_entry_exec(entries, suffix.as_str(), id);
            i = end;
        } else {
            proof {
                assert(rest == sep_suffixes(cs@, sep@, i + 1));
            }
            i = i + 1;
        }
    }
    proof {
        assert(sep_suffixes(cs@, sep@, i as int) =~= Seq::<Seq<char>>::empty());
    }
}


// ---------------------------------------------------------------------------
// Kinds
// ---------------------------------------------------------------------------

/// The node kind for a symbol kind.
pub open spec fn node_type_for(t: SymbolType) -> NodeType {
    match t {
        SymbolType::Function => NodeType::Function,
        SymbolType::Class => NodeType::Class,
        SymbolType::Struct => NodeType::Struct,
        SymbolType::Enum => NodeType::Enum,
        SymbolType::Interface => NodeType::Interface,
        SymbolType::Annotation => NodeType::Annotation,
        SymbolType::Module => NodeType::Module,
        SymbolType::Variable => NodeType::Variable,
        SymbolType::TypeAlias => NodeType::TypeAlias,
        SymbolType::Macro => NodeType::Macro,
        SymbolType::Import => NodeType::Import,
        SymbolType::Table => NodeType::Table,
        SymbolType::Dependency => NodeType::Dependency,
        SymbolType::Job => NodeType::Job,
        SymbolType::BuildStep => NodeType::BuildStep,
        SymbolType::AnsiblePlaybook => NodeType::AnsiblePlaybook,
        SymbolType::AnsiblePlay => NodeType::AnsiblePlay,
        SymbolType::AnsibleTask => NodeType::AnsibleTask,
        SymbolType::AnsibleRole => NodeType::AnsibleRole,
        SymbolType::AnsibleHandler => NodeType::AnsibleHandler,
        SymbolType::AnsibleVariable => NodeType::AnsibleVariable,
        SymbolType::AnsibleTemplate => NodeType::AnsibleTemplate,
        SymbolType::ChefCookbook => NodeType::ChefCookbook,
        SymbolType::ChefRecipe => NodeType::ChefRecipe,
        SymbolType::ChefResource => NodeType::ChefResource,
        SymbolType::ChefAttribute => NodeType::ChefAttribute,
        SymbolType::ChefTemplate => NodeType::ChefTemplate,
        SymbolType::ChefCustomResource => NodeType::ChefCustomResource,
        SymbolType::PuppetModule => NodeType::PuppetModule,
        SymbolType::PuppetClass => NodeType::PuppetClass,
        SymbolType::PuppetDefinedType => NodeType::PuppetDefinedType,
        SymbolType::PuppetResource => NodeType::PuppetResource,
        SymbolType::PuppetVariable => NodeType::PuppetVariable,
        SymbolType::PuppetFact => NodeType::PuppetFact,
    }
}

/// The node kind for a symbol kind.
fn symbol_type_to_node_type(t: SymbolType) -> (r: NodeType)
    ensures
        r == node_type_for(t),
{
    match t {
        SymbolType::Function => NodeType::Function,
        SymbolType::Class => NodeType::Class,
        SymbolType::Struct => NodeType::Struct,
        SymbolType::Enum => NodeType::Enum,
        SymbolType::Interface => NodeType::Interface,
        SymbolType::Annotation => NodeType::Annotation,
        SymbolType::Module => NodeType::Module,
        SymbolType::Variable => NodeType::Variable,
        SymbolType::TypeAlias => NodeType::TypeAlias,
        SymbolType::Macro => NodeType::Macro,
        SymbolType::Import => NodeType::Import,
        SymbolType::Table => NodeType::Table,
        SymbolType::Dependency => NodeType::Dependency,
        SymbolType::Job => NodeType::Job,
        SymbolType::BuildStep => NodeType::BuildStep,
        SymbolType::AnsiblePlaybook => NodeType::AnsiblePlaybook,
        SymbolType::AnsiblePlay => NodeType::AnsiblePlay,
        SymbolType::AnsibleTask => NodeType::AnsibleTask,
        SymbolType::AnsibleRole => NodeType::AnsibleRole,
        SymbolType::AnsibleHandler => NodeType::AnsibleHandler,
        SymbolType::AnsibleVariable => NodeType::AnsibleVariable,
        SymbolType::AnsibleTemplate => NodeType::AnsibleTemplate,
        SymbolType::ChefCookbook => NodeType::ChefCookbook,
        SymbolType::ChefRecipe => NodeType::ChefRecipe,
        SymbolType::ChefResource => NodeType::ChefResource,
        SymbolType::ChefAttribute => NodeType::ChefAttribute,
        SymbolType::ChefTemplate => NodeType::ChefTemplate,
        SymbolType::ChefCustomResource => NodeType::ChefCustomResource,
        SymbolType::PuppetModule => NodeType::PuppetModule,
        SymbolType::PuppetClass => NodeType::PuppetClass,
        SymbolType::PuppetDefinedType => NodeType::PuppetDefinedType,
        SymbolType::PuppetResource => NodeType::PuppetResource,
        SymbolType::PuppetVariable => NodeType::PuppetVariable,
        SymbolType::PuppetFact => NodeType::PuppetFact,
    }
}

/// The edge kind for a relation kind.
pub open spec fn edge_type_for(t: RelationType) -> EdgeType {
    match t {
        RelationType::Calls => EdgeType::Calls,
        RelationType::Uses => EdgeType::Uses,
        RelationType::Implements => EdgeType::Implements,
        RelationType::Extends => EdgeType::Extends,
        RelationType::AnnotatedWith => EdgeType::AnnotatedWith,
        RelationType::Permits => EdgeType::Permits,
        RelationType::Defines => EdgeType::Contains,
        RelationType::References => EdgeType::References,
        RelationType::Instantiates => EdgeType::Instantiates,
        RelationType::Modifies => EdgeType::Modifies,
        RelationType::DependsOn => EdgeType::DependsOn,
        RelationType::IncludesRole => EdgeType::IncludesRole,
        RelationType::DependsOnRole => EdgeType::DependsOnRole,
        RelationType::ExecutesTask => EdgeType::ExecutesTask,
        RelationType::NotifiesHandler => EdgeType::NotifiesHandler,
        RelationType::IncludesPlaybook => EdgeType::IncludesPlaybook,
        RelationType::UsesVariable => EdgeType::Uses,
        RelationType::RendersTemplate => EdgeType::RendersTemplate,
        RelationType::DependsOnCookbook => EdgeType::DependsOnCookbook,
        RelationType::IncludesRecipe => EdgeType::IncludesRecipe,
        RelationType::DeclaresResource => EdgeType::DeclaresResource,
        RelationType::UsesTemplate => EdgeType::UsesTemplate,
        RelationType::DefinesAttribute => EdgeType::DefinesAttribute,
        RelationType::NotifiesResource => EdgeType::NotifiesResource,
        RelationType::DependsOnModule => EdgeType::DependsOnModule,
        RelationType::IncludesClass => EdgeType::IncludesClass,
        RelationType::InheritsClass => EdgeType::InheritsClass,
        RelationType::RequiresResource => EdgeType::RequiresResource,
        RelationType::UsesFact => EdgeType::UsesFact,
    }
}

/// The edge kind for a relation kind.
fn relation_type_to_edge_type(t: RelationType) -> (r: EdgeType)
    ensures
        r == edge_type_for(t),
{
    match t {
        RelationType::Calls => EdgeType::Calls,
        RelationType::Uses => EdgeType::Uses,
        RelationType::Implements => EdgeType::Implements,
        RelationType::Extends => EdgeType::Extends,
        RelationType::AnnotatedWith => EdgeType::AnnotatedWith,
        RelationType::Permits => EdgeType::Permits,
        RelationType::Defines => EdgeType::Contains,
        RelationType::References => EdgeType::References,
        RelationType::Instantiates => EdgeType::Instantiates,
        RelationType::Modifies => EdgeType::Modifies,
        RelationType::DependsOn => EdgeType::DependsOn,
        RelationType::IncludesRole => EdgeType::IncludesRole,
        RelationType::DependsOnRole => EdgeType::DependsOnRole,
        RelationType::ExecutesTask => EdgeType::ExecutesTask,
        RelationType::NotifiesHandler => EdgeType::NotifiesHandler,
        RelationType::IncludesPlaybook => EdgeType::IncludesPlaybook,
        RelationType::UsesVariable => EdgeType::Uses,
        RelationType::RendersTemplate => EdgeType::RendersTemplate,
        RelationType::DependsOnCookbook => EdgeType::DependsOnCookbook,
        RelationType::IncludesRecipe => EdgeType::IncludesRecipe,
        RelationType::DeclaresResource => EdgeType::DeclaresResource,
        RelationType::UsesTemplate => EdgeType::UsesTemplate,
        RelationType::DefinesAttribute => EdgeType::DefinesAttribute,
        RelationType::NotifiesResource => EdgeType::NotifiesResource,
        RelationType::DependsOnModule => EdgeType::DependsOnModule,
        RelationType::IncludesClass => EdgeType::IncludesClass,
        RelationType::InheritsClass => EdgeType::InheritsClass,
        RelationType::RequiresResource => EdgeType::RequiresResource,
        RelationType::UsesFact => EdgeType::UsesFact,
    }
}

// ---------------------------------------------------------------------------
// Names
// ---------------------------------------------------------------------------

/// `c` separates the parts of a dotted name (or, with `slash`, of a path).
pub open spec fn is_name_sep(c: char, slash: bool) -> bool {
    c == '.' || (slash && c == '/')
}

/// The part of `s` after its last separator (all of `s` when it has none).
pub open spec fn after_last_sep(s: Seq<char>, slash: bool) -> Seq<char>
    decreases s.len(),
{
    if s.len() == 0 {
        s
    } else if is_name_sep(s.last(), slash) {
        Seq::empty()
    } else {
        after_last_sep(s.drop_last(), slash).push(s.last())
    }
}

/// `s` without its leading `*` characters.
pub open spec fn without_stars(s: Seq<char>) -> Seq<char>
    decreases s.len(),
{
    if s.len() > 0 && s[0] == '*' {
        without_stars(s.drop_first())
    } else {
        s
    }
}

/// The simple name of a Go type: no pointer stars, no package or path.
pub open spec fn go_simple_type(t: Seq<char>) -> Seq<char> {
    after_last_sep(without_stars(t), true)
}

/// When the separators of `s` all stand before position `i`, and one stands
/// just before it, the part after the last separator starts at `i`.
proof fn lemma_after_last_sep(s: Seq<char>, slash: bool, i: int)
    requires
        0 <= i <= s.len(),
        i == 0 || is_name_sep(s[i - 1], slash),
        forall|k: int| i <= k < s.len() ==> !is_name_sep(#[trigger] s[k], slash),
    ensures
        after_last_sep(s, slash) == s.skip(i),
    decreases s.len(),
{
    if s.len() == i {
        assert(s.skip(i) =~= Seq::<char>::empty());
    } else {
        assert(!is_name_sep(s[s.len() - 1], slash));
        lemma_after_last_sep(s.drop_last(), slash, i);
        assert(s.drop_last().skip(i).push(s.last()) =~= s.skip(i));
    }
}

/// The characters of `cs[lo..]` after their last separator, as a string.
fn text_after_last_sep(cs: &[char], lo: usize, slash: bool) -> (r: String)
    requires
        lo <= cs@.len(),
    ensures
        r@ == after_last_sep(cs@.skip(lo as int), slash),
{
    let mut j: usize = cs.len();
    while j > lo && !(cs[j - 1] == '.' || (slash && cs[j - 1] == '/'))
        invariant
            lo <= j <= cs@.len(),
            forall|k: int| j <= k < cs@.len() ==> !is_name_sep(#[trigger] cs@[k], slash),
        decreases j,
    {
        j = j - 1;
    }
    let ghost t = cs@.skip(lo as int);
    proof {
        assert forall|k: int| j - lo <= k < t.len() implies !is_name_sep(#[trigger] t[k], slash) by {
            assert(t[k] == cs@[k + lo]);
        }
        if j > lo {
            assert(t[j - lo - 1] == cs@[j - 1]);
        }
        lemma_after_last_sep(t, slash, j - lo);
        assert(t.skip(j - lo) =~= cs@.subrange(j as int, cs@.len() as int));
    }
    string_of_range(cs, j, cs.len())
}

/// The simple name of a Go type (`*pkg.Name` gives `Name`).
fn go_simple_type_from_str(ty: &str) -> (r: String)
    ensures
        r@ == go_simple_type(ty@),
{
    let cs = to_chars(ty);
    let mut lo: usize = 0;
    proof {
        assert(cs@.skip(0) =~= cs@);
    }
    while lo < cs.len() && cs[lo] == '*'
        invariant
            lo <= cs@.len(),
            without_stars(cs@) == without_stars(cs@.skip(lo as int)),
        decreases cs@.len() - lo,
    {
        proof {
            assert(cs@.skip(lo as int).drop_first() =~= cs@.skip(lo + 1));
        }
        lo = lo + 1;
    }
    text_after_last_sep(cs.as_slice(), lo, true)
}

/// The text of an optional string, copied.
fn clone_text(o: &Option<String>) -> (r: Option<String>)
    ensures
        text_of(r) == text_of(*o),
{
    match o {
        Some(s) => Some(s.clone()),
        None => None,
    }
}

/// The decimal rendering of `n`.
fn decimal_text(n: u32) -> (s: String)
    ensures
        s@ == decimal(n as nat),
{
    let cs = decimal_chars(n as u64);
    from_chars(cs.as_slice())
}

// ---------------------------------------------------------------------------
// The builder's state
// ---------------------------------------------------------------------------

/// The builder's state as plain values.
pub struct BuilderModel {
    /// Nodes made so far, in order.
    pub nodes: Seq<Node>,
    /// Edges made so far, in order.
    pub edges: Seq<Edge>,
    /// Symbol keys (`file::qualified-or-plain name`) and their nodes.
    pub symbols: Seq<(Seq<char>, NodeId)>,
    /// Qualified names and the nodes that carry them.
    pub qualified: Seq<(Seq<char>, NodeId)>,
    /// Name suffixes and the nodes they may stand for.
    pub suffixes: Seq<(Seq<char>, NodeId)>,
    /// `Owner.field` and the field's simple type name.
    pub field_types: Seq<(Seq<char>, Seq<char>)>,
    /// File paths and their nodes.
    pub files: Seq<(Seq<char>, NodeId)>,
    /// `file::key` and the configuration-key nodes.
    pub config_keys: Seq<(Seq<char>, NodeId)>,
    /// Environment variable names and their nodes.
    pub envs: Seq<(Seq<char>, NodeId)>,
}

/// Every symbol key recorded in `m0` finds the same node in `m1`.
pub open spec fn keeps_recorded_keys(m0: BuilderModel, m1: BuilderModel) -> bool {
    forall|k: Seq<char>| lookup(m0.symbols, k) is Some ==> #[trigger] lookup(m1.symbols, k) == lookup(m0.symbols, k)
}

/// A state with nothing in it.
pub open spec fn empty_model() -> BuilderModel {
    BuilderModel {
        nodes: Seq::empty(),
        edges: Seq::empty(),
        symbols: Seq::empty(),
        qualified: Seq::empty(),
        suffixes: Seq::empty(),
        field_types: Seq::empty(),
        files: Seq::empty(),
        config_keys: Seq::empty(),
        envs: Seq::empty(),
    }
}

/// An edge without a call-site line.
pub open spec fn plain_edge(from: NodeId, to: NodeId, t: EdgeType) -> Edge {
    Edge { from, to, edge_type: t, call_site_line: None }
}

/// `after` is `before` with one more node at the end.
pub open spec fn appended(before: Seq<Node>, after: Seq<Node>) -> bool {
    after.len() == before.len() + 1 && after.drop_last() == before
}

/// The labels of `n`, as plain values.
pub open spec fn label_texts(n: Node) -> Seq<Seq<char>> {
    n.labels@.map_values(|l: String| l@)
}

/// The name that keys a symbol: its qualified name, else its short name.
pub open spec fn owner_name(s: Symbol) -> Seq<char> {
    match s.qualified_name {
        Some(q) => q@,
        None => s.name@,
    }
}

/// The key of a symbol: `file::name`, with its qualified name when it has one.
pub open spec fn symbol_key(s: Symbol) -> Seq<char> {
    s.location.file@ + "::"@ + owner_name(s)
}

/// `q` with the qualified name `qn` recorded for `id`, when there is one.
pub open spec fn qualified_entries(q: Seq<(Seq<char>, NodeId)>, qn: Option<Seq<char>>, id: NodeId) -> Seq<(Seq<char>, NodeId)> {
    match qn {
        Some(x) => add_entry(q, x, id),
        None => q,
    }
}

/// `sfx` with the suffixes of a node recorded for `id`: with a qualified name,
/// the name and the part after each dot; else the short name; then the part
/// of the key after each `::`.
pub open spec fn suffix_entries(
    sfx: Seq<(Seq<char>, NodeId)>,
    key: Seq<char>,
    qn: Option<Seq<char>>,
    name: Seq<char>,
    id: NodeId,
) -> Seq<(Seq<char>, NodeId)> {
    let first = match qn {
        Some(x) => add_entries(add_entry(sfx, x, id), sep_suffixes(x, seq!['.'], 0), id),
        None => add_entry(sfx, name, id),
    };
    add_entries(first, sep_suffixes(key, seq![':', ':'], 0), id)
}

/// The text a metadata value is stored as, when it is stored.
pub open spec fn meta_text(v: MetaValue) -> Option<Seq<char>> {
    match v {
        MetaValue::Text(t) => Some(t@),
        MetaValue::Flag(b) => Some(if b { "true"@ } else { "false"@ }),
        MetaValue::Number(n) => Some(n@),
        MetaValue::Other => None,
    }
}

/// The properties that metadata entries give, in order.
pub open spec fn meta_properties(meta: Seq<(String, MetaValue)>) -> Seq<(Seq<char>, Seq<char>)>
    decreases meta.len(),
{
    if meta.len() == 0 {
        Seq::empty()
    } else {
        let r = meta_properties(meta.drop_last());
        match meta_text(meta.last().1) {
            Some(t) => r.push((meta.last().0@, t)),
            None => r,
        }
    }
}

/// The properties of a symbol's node: its modifiers joined with spaces, its
/// documentation, then its scalar metadata.
pub open spec fn symbol_properties(s: Symbol) -> Seq<(Seq<char>, Seq<char>)> {
    let m = if s.modifiers@.len() > 0 {
        seq![("modifiers"@, join_spaces(s.modifiers@.map_values(|x: String| x@)))]
    } else {
        Seq::empty()
    };
    let d = match s.documentation {
        Some(doc) => seq![("documentation"@, doc@)],
        None => Seq::empty(),
    };
    m + d + meta_properties(s.metadata@)
}

/// `n` is the node of symbol `s`.
pub open spec fn is_symbol_node(n: Node, s: Symbol, code_hash: Option<Seq<char>>) -> bool {
    &&& n.node_type == node_type_for(s.symbol_type)
    &&& n.name@ == s.name@
    &&& text_of(n.file_path) == Some(s.location.file@)
    &&& n.start_line == Some(s.location.start_line)
    &&& n.end_line == Some(s.location.end_line)
    &&& text_of(n.qualified_name) == text_of(s.qualified_name)
    &&& text_of(n.signature) == text_of(s.signature)
    &&& text_of(n.return_type) == text_of(s.return_type)
    &&& text_of(n.code_hash) == code_hash
    &&& n.labels@.len() == 0
    &&& text_entries(n.properties@) == symbol_properties(s)
}

/// The qualified name of field `f` of `s`: `Owner.field`.
pub open spec fn member_name(s: Symbol, f: Field) -> Seq<char> {
    owner_name(s) + "."@ + f.name@
}

/// The key of field `f` of `s`.
pub open spec fn field_key(s: Symbol, f: Field) -> Seq<char> {
    s.location.file@ + "::"@ + member_name(s, f)
}

/// The properties of a field's node.
pub open spec fn field_properties(s: Symbol, f: Field) -> Seq<(Seq<char>, Seq<char>)> {
    seq![("member_of"@, s.name@), ("owner_qualified_name"@, owner_name(s))] + match f.field_type {
        Some(t) => seq![("field_type"@, t@)],
        None => Seq::empty(),
    } + match f.visibility {
        Some(v) => seq![("visibility"@, v@)],
        None => Seq::empty(),
    }
}

/// `n` is the node of field `f` of `s`: a variable labelled `field`.
pub open spec fn is_field_node(n: Node, s: Symbol, f: Field) -> bool {
    &&& n.node_type == NodeType::Variable
    &&& n.name@ == f.name@
    &&& text_of(n.file_path) == Some(s.location.file@)
    &&& n.start_line == Some(s.location.start_line)
    &&& n.end_line == Some(s.location.end_line)
    &&& text_of(n.qualified_name) == Some(member_name(s, f))
    &&& n.signature is None
    &&& n.return_type is None
    &&& n.code_hash is None
    &&& label_texts(n) == seq!["field"@]
    &&& text_entries(n.properties@) == field_properties(s, f)
}

/// `m1` is `m0` after the node of symbol `s` (with id `id`) is made and
/// recorded: defined in, and contained by, file `file_id`.
pub open spec fn symbol_inserted(
    m0: BuilderModel,
    m1: BuilderModel,
    s: Symbol,
    file_id: NodeId,
    code_hash: Option<Seq<char>>,
    id: NodeId,
) -> bool {
    let key = symbol_key(s);
    &&& appended(m0.nodes, m1.nodes)
    &&& m1.nodes.last().id == id
    &&& is_symbol_node(m1.nodes.last(), s, code_hash)
    &&& m1.edges == m0.edges + seq![
        plain_edge(id, file_id, EdgeType::DefinedIn),
        plain_edge(file_id, id, EdgeType::Contains),
    ]
    &&& m1.symbols == m0.symbols.push((key, id))
    &&& m1.qualified == qualified_entries(m0.qualified, text_of(s.qualified_name), id)
    &&& m1.suffixes == suffix_entries(m0.suffixes, key, text_of(s.qualified_name), s.name@, id)
    &&& m1.field_types == m0.field_types
    &&& m1.files == m0.files
    &&& m1.config_keys == m0.config_keys
    &&& m1.envs == m0.envs
}

/// `m1` is `m0` after field `f` of `s` (whose node is `owner`) is handled: a
/// field already recorded under its key is skipped; otherwise a variable node
/// is made, defined in and contained by the file and contained by the owner,
/// and a declared type is recorded under `Owner.field` and `Name.field`.
pub open spec fn field_added(
    m0: BuilderModel,
    m1: BuilderModel,
    owner: NodeId,
    s: Symbol,
    file_id: NodeId,
    f: Field,
) -> bool {
    let key = field_key(s, f);
    if lookup(m0.symbols, key) is Some {
        m1 == m0
    } else {
        let id = m1.nodes.last().id;
        let fqn = member_name(s, f);
        &&& appended(m0.nodes, m1.nodes)
        &&& is_field_node(m1.nodes.last(), s, f)
        &&& m1.edges == m0.edges + seq![
            plain_edge(id, file_id, EdgeType::DefinedIn),
            plain_edge(file_id, id, EdgeType::Contains),
            plain_edge(owner, id, EdgeType::Contains),
        ]
        &&& m1.symbols == m0.symbols.push((key, id))
        &&& m1.qualified == add_entry(m0.qualified, fqn, id)
        &&& m1.suffixes == suffix_entries(m0.suffixes, key, Some(fqn), f.name@, id)
        &&& m1.field_types == match f.field_type {
            Some(t) => m0.field_types.push((fqn, go_simple_type(t@))).push(
                (s.name@ + "."@ + f.name@, go_simple_type(t@)),
            ),
            None => m0.field_types,
        }
        &&& m1.files == m0.files
        &&& m1.config_keys == m0.config_keys
        &&& m1.envs == m0.envs
    }
}

/// `states` walks through the fields of `s` one by one.
pub open spec fn fields_chain(states: Seq<BuilderModel>, owner: NodeId, s: Symbol, file_id: NodeId) -> bool {
    &&& states.len() == s.fields@.len() + 1
    &&& forall|i: int|
        #![trigger s.fields@[i]]
        0 <= i < s.fields@.len() ==> field_added(states[i], states[i + 1], owner, s, file_id, s.fields@[i])
}

/// `m2` is `m0` after symbol `s` is added with id `id`, its fields included.
pub open spec fn symbol_added(
    m0: BuilderModel,
    m2: BuilderModel,
    s: Symbol,
    file_id: NodeId,
    code_hash: Option<Seq<char>>,
    id: NodeId,
) -> bool {
    exists|states: Seq<BuilderModel>|
        #[trigger] fields_chain(states, id, s, file_id) && symbol_inserted(m0, states[0], s, file_id, code_hash, id)
            && states.last() == m2
}


// ---------------------------------------------------------------------------
// The builder
// ---------------------------------------------------------------------------

/// Builds graph nodes and edges from extracted data.
pub struct GraphBuilder {
    symbol_index: Vec<(String, NodeId)>,
    file_nodes: Vec<(String, NodeId)>,
    config_key_nodes: Vec<(String, NodeId)>,
    env_nodes: Vec<(String, NodeId)>,
    nodes: Vec<Node>,
    edges: Vec<Edge>,
    symbols_by_qualified: Vec<(String, NodeId)>,
    symbols_by_suffix: Vec<(String, NodeId)>,
    indexes_built: bool,
    field_type_index: Vec<(String, String)>,
}

impl View for GraphBuilder {
    type V = BuilderModel;

    closed spec fn view(&self) -> BuilderModel {
        BuilderModel {
            nodes: self.nodes@,
            edges: self.edges@,
            symbols: id_entries(self.symbol_index@),
            qualified: id_entries(self.symbols_by_qualified@),
            suffixes: id_entries(self.symbols_by_suffix@),
            field_types: text_entries(self.field_type_index@),
            files: id_entries(self.file_nodes@),
            config_keys: id_entries(self.config_key_nodes@),
            envs: id_entries(self.env_nodes@),
        }
    }
}

/// The key of a symbol, as a string.
fn symbol_key_of(symbol: &Symbol) -> (k: String)
    ensures
        k@ == symbol_key(*symbol),
{
    let name: &str = match &symbol.qualified_name {
        Some(q) => q.as_str(),
        None => symbol.name.as_str(),
    };
    let head = concat_str(symbol.location.file.as_str(), "::");
    concat_str(head.as_str(), name)
}

/// The properties of a symbol's node.
fn symbol_properties_of(symbol: &Symbol) -> (props: Vec<(String, String)>)
    ensures
        text_entries(props@) == symbol_properties(*symbol),
{
    let mut props: Vec<(String, String)> = Vec::new();
    if symbol.modifiers.len() > 0 {
        props.push(("modifiers".to_owned(), join_args(&symbol.modifiers)));
    }
    match &symbol.documentation {
        Some(doc) => props.push(("documentation".to_owned(), doc.clone())),
        None => {},
    }
    let ghost head = text_entries(props@);
    let mut i: usize = 0;
    proof {
        assert(symbol.metadata@.take(0) =~= Seq::<(String, MetaValue)>::empty());
        assert(head + meta_properties(symbol.metadata@.take(0)) =~= head);
    }
    while i < symbol.metadata.len()
        invariant
            i <= symbol.metadata@.len(),
            text_entries(props@) == head + meta_properties(symbol.metadata@.take(i as int)),
        decreases symbol.metadata@.len() - i,
    {
        let ghost before = text_entries(props@);
        proof {
            assert(symbol.metadata@.take(i + 1).drop_last() =~= symbol.metadata@.take(i as int));
            assert(symbol.metadata@.take(i + 1).last() == symbol.metadata@[i as int]);
        }
        let key = &symbol.metadata[i].0;
        match &symbol.metadata[i].1 {
            MetaValue::Text(t) => props.push((key.clone(), t.clone())),
            MetaValue::Flag(b) => {
                if *b {
                    props.push((key.clone(), "true".to_owned()));
                } else {
                    props.push((key.clone(), "false".to_owned()));
                }
            },
            MetaValue::Number(n) => props.push((key.clone(), n.clone())),
            MetaValue::Other => {},
        }
        proof {
            match meta_text(symbol.metadata@[i as int].1) {
                Some(t) => {
                    assert(text_entries(props@) =~= before.push((symbol.metadata@[i as int].0@, t)));
                },
                None => {},
            }
        }
        i = i + 1;
    }
    proof {
        assert(symbol.metadata@.take(i as int) =~= symbol.metadata@);
    }
    props
}

impl GraphBuilder {
    /// Create an empty graph builder.
    pub fn new() -> (b: Self)
        ensures
            b@ == empty_model(),
            !b.indexes_ready(),
    {
        let b = GraphBuilder {
            symbol_index: Vec::new(),
            file_nodes: Vec::new(),
            config_key_nodes: Vec::new(),
            env_nodes: Vec::new(),
            nodes: Vec::new(),
            edges: Vec::new(),
            symbols_by_qualified: Vec::new(),
            symbols_by_suffix: Vec::new(),
            indexes_built: false,
            field_type_index: Vec::new(),
        };
        proof {
            assert(b@ =~= empty_model()) by {
                assert(id_entries(b.symbol_index@) =~= Seq::<(Seq<char>, NodeId)>::empty());
                assert(id_entries(b.file_nodes@) =~= Seq::<(Seq<char>, NodeId)>::empty());
                assert(id_entries(b.config_key_nodes@) =~= Seq::<(Seq<char>, NodeId)>::empty());
                assert(id_entries(b.env_nodes@) =~= Seq::<(Seq<char>, NodeId)>::empty());
                assert(id_entries(b.symbols_by_qualified@) =~= Seq::<(Seq<char>, NodeId)>::empty());
                assert(id_entries(b.symbols_by_suffix@) =~= Seq::<(Seq<char>, NodeId)>::empty());
                assert(text_entries(b.field_type_index@) =~= Seq::<(Seq<char>, Seq<char>)>::empty());
            }
        }
        b
    }

    /// Whether `build_resolution_indexes` has been called.
    pub closed spec fn indexes_ready(&self) -> bool {
        self.indexes_built
    }

    /// Number of nodes built so far.
    pub fn node_count(&self) -> (n: usize)
        ensures
            n == self@.nodes.len(),
    {
        self.nodes.len()
    }

    /// Number of edges built so far.
    pub fn edge_count(&self) -> (n: usize)
        ensures
            n == self@.edges.len(),
    {
        self.edges.len()
    }

    /// The nodes built so far.
    pub fn nodes(&self) -> (r: &[Node])
        ensures
            r@ == self@.nodes,
    {
        self.nodes.as_slice()
    }

    /// The edges built so far.
    pub fn edges(&self) -> (r: &[Edge])
        ensures
            r@ == self@.edges,
    {
        self.edges.as_slice()
    }

    /// The ids recorded under name suffix `key`, in order.
    pub fn suffix_candidates(&self, key: &str) -> (r: Vec<NodeId>)
        ensures
            r@ == ids_for(self@.suffixes, key@),
    {
        candidates_of(&self.symbols_by_suffix, key)
    }

    /// The ids recorded under qualified name `key`, in order.
    pub fn qualified_candidates(&self, key: &str) -> (r: Vec<NodeId>)
        ensures
            r@ == ids_for(self@.qualified, key@),
    {
        candidates_of(&self.symbols_by_qualified, key)
    }

    /// Consume the builder and return all nodes and edges.
    pub fn into_graph(self) -> (r: (Vec<Node>, Vec<Edge>))
        ensures
            r.0@ == self@.nodes,
            r.1@ == self@.edges,
    {
        (self.nodes, self.edges)
    }

    /// Record the resolution keys of node `id`: its qualified name, and under
    /// suffixes the name and its dotted tails (or the short name), then the
    /// tails of its key after each `::`.
    fn index_symbol_resolution(&mut self, key: &str, qualified: &Option<String>, name: &str, id: NodeId)
        ensures
            final(self)@ == (BuilderModel {
                qualified: qualified_entries(old(self)@.qualified, text_of(*qualified), id),
                suffixes: suffix_entries(old(self)@.suffixes, key@, text_of(*qualified), name@, id),
                ..old(self)@
            }),
            final(self).indexes_ready() == old(self).indexes_ready(),
    {
        match qualified {
            Some(q) => {
                add_entry_exec(&mut self.symbols_by_qualified, q.as_str(), id);
                add_entry_exec(&mut self.symbols_by_suffix, q.as_str(), id);
                let qc = to_chars(q.as_str());
                let dot = vec!['.'];
                proof {
                    assert(dot@ =~= seq!['.']);
                }
                add_sep_suffixes(&mut self.symbols_by_suffix, qc.as_slice(), dot.as_slice(), id);
            },
            None => {
                add_entry_exec(&mut self.symbols_by_suffix, name, id);
            },
        }
        let kc = to_chars(key);
        let colons = vec![':', ':'];
        proof {
            assert(colons@ =~= seq![':', ':']);
        }
        add_sep_suffixes(&mut self.symbols_by_suffix, kc.as_slice(), colons.as_slice(), id);
    }

    /// Add a symbol node linked to its file.
    pub fn add_symbol(&mut self, symbol: &Symbol, file_id: NodeId) -> (id: NodeId)
        ensures
            match lookup(old(self)@.symbols, symbol_key(*symbol)) {
                Some(existing) => id == existing && final(self)@ == old(self)@,
                None => symbol_added(old(self)@, final(self)@, *symbol, file_id, None, id),
            },
            final(self).indexes_ready() == old(self).indexes_ready(),
            keeps_recorded_keys(old(self)@, final(self)@),
    {
        self.add_symbol_with_body(symbol, file_id, None)
    }

    /// Add a symbol node, with the hash of its body when it is known. A
    /// symbol already recorded under its key is not added again: its id is
    /// returned and nothing changes.
    pub fn add_symbol_with_body(&mut self, symbol: &Symbol, file_id: NodeId, code_hash: Option<String>) -> (id: NodeId)
        ensures
            match lookup(old(self)@.symbols, symbol_key(*symbol)) {
                Some(existing) => id == existing && final(self)@ == old(self)@,
                None => symbol_added(old(self)@, final(self)@, *symbol, file_id, text_of(code_hash), id),
            },
            final(self).indexes_ready() == old(self).indexes_ready(),
            keeps_recorded_keys(old(self)@, final(self)@),
    {
        let key = symbol_key_of(symbol);
        match lookup_id(&self.symbol_index, key.as_str()) {
            Some(existing) => {
                return existing;
            },
            None => {},
        }
        let ghost hash = text_of(code_hash);
        let ghost m0 = self@;
        let properties = symbol_properties_of(symbol);
        let id = fresh_node_id();
        let node = Node {
            id,
            node_type: symbol_type_to_node_type(symbol.symbol_type),
            name: symbol.name.clone(),
            qualified_name: clone_text(&symbol.qualified_name),
            file_path: Some(symbol.location.file.clone()),
            start_line: Some(symbol.location.start_line),
            end_line: Some(symbol.location.end_line),
            properties,
            labels: Vec::new(),
            signature: clone_text(&symbol.signature),
            return_type: clone_text(&symbol.return_type),
            code_hash,
        };
        self.nodes.push(node);
        self.edges.push(Edge::new(id, file_id, EdgeType::DefinedIn));
        self.edges.push(Edge::new(file_id, id, EdgeType::Contains));
        self.index_symbol_resolution(key.as_str(), &symbol.qualified_name, symbol.name.as_str(), id);
        let ghost ks = key@;
        self.symbol_index.push((key, id));
        proof {
            assert(id_entries(self.symbol_index@) =~= m0.symbols.push((ks, id)));
            assert(self@.nodes.drop_last() =~= m0.nodes);
            assert(self@.edges =~= m0.edges + seq![
                plain_edge(id, file_id, EdgeType::DefinedIn),
                plain_edge(file_id, id, EdgeType::Contains),
            ]);
            assert(symbol_inserted(m0, self@, *symbol, file_id, hash, id));
        }
        let ghost mid = self@;
        self.add_field_members(id, symbol, file_id);
        proof {
            let states = choose|states: Seq<BuilderModel>|
                #[trigger] fields_chain(states, id, *symbol, file_id) && states[0] == mid && states.last() == self@;
            assert(fields_chain(states, id, *symbol, file_id) && symbol_inserted(m0, states[0], *symbol, file_id, hash, id)
                && states.last() == self@);
            assert(symbol_added(m0, self@, *symbol, file_id, hash, id));
            assert forall|k: Seq<char>| lookup(m0.symbols, k) is Some implies #[trigger] lookup(self@.symbols, k) == lookup(
                m0.symbols,
                k,
            ) by {
                lemma_recorded_key_stays(m0, self@, *symbol, file_id, hash, id, k);
            }
        }
        id
    }

    /// Make nodes for the fields of `symbol`, each contained by the owner.
    fn add_field_members(&mut self, owner_id: NodeId, symbol: &Symbol, file_id: NodeId)
        ensures
            exists|states: Seq<BuilderModel>|
                #[trigger] fields_chain(states, owner_id, *symbol, file_id) && states[0] == old(self)@
                    && states.last() == final(self)@,
            final(self).indexes_ready() == old(self).indexes_ready(),
    {
        let ghost start = self@;
        let ghost mut states: Seq<BuilderModel> = seq![self@];
        let mut i: usize = 0;
        while i < symbol.fields.len()
            invariant
                i <= symbol.fields@.len(),
                states.len() == i + 1,
                states[0] == start,
                states.last() == self@,
                self.indexes_built == old(self).indexes_built,
                forall|j: int|
                    #![trigger symbol.fields@[j]]
                    0 <= j < i ==> field_added(states[j], states[j + 1], owner_id, *symbol, file_id, symbol.fields@[j]),
            decreases symbol.fields@.len() - i,
        {
            self.add_field_member(owner_id, symbol, file_id, &symbol.fields[i]);
            proof {
                states = states.push(self@);
            }
            i = i + 1;
        }
        proof {
            assert(fields_chain(states, owner_id, *symbol, file_id));
        }
    }

    /// Handle one field of `symbol` (see `field_added`).
    fn add_field_member(&mut self, owner_id: NodeId, symbol: &Symbol, file_id: NodeId, field: &Field)
        ensures
            field_added(old(self)@, final(self)@, owner_id, *symbol, file_id, *field),
            final(self).indexes_ready() == old(self).indexes_ready(),
    {
        let owner_qn: &str = match &symbol.qualified_name {
            Some(q) => q.as_str(),
            None => symbol.name.as_str(),
        };
        let fqn_head = concat_str(owner_qn, ".");
        let fqn = concat_str(fqn_head.as_str(), field.name.as_str());
        let key_head = concat_str(symbol.location.file.as_str(), "::");
        let key = concat_str(key_head.as_str(), fqn.as_str());
        proof {
            assert(key@ =~= field_key(*symbol, *field));
            assert(fqn@ =~= member_name(*symbol, *field));
        }
        if lookup_id(&self.symbol_index, key.as_str()).is_some() {
            return;
        }
        let ghost m0 = self@;
        let mut props: Vec<(String, String)> = Vec::new();
        props.push(("member_of".to_owned(), symbol.name.clone()));
        props.push(("owner_qualified_name".to_owned(), owner_qn.to_owned()));
        match &field.field_type {
            Some(ty) => {
                props.push(("field_type".to_owned(), ty.clone()));
                let simple = go_simple_type_from_str(ty.as_str());
                self.field_type_index.push((fqn.clone(), simple.clone()));
                let name_head = concat_str(symbol.name.as_str(), ".");
                let by_name = concat_str(name_head.as_str(), field.name.as_str());
                proof {
                    assert(by_name@ =~= symbol.name@ + "."@ + field.name@);
                }
                self.field_type_index.push((by_name, simple));
            },
            None => {},
        }
        match &field.visibility {
            Some(v) => props.push(("visibility".to_owned(), v.clone())),
            None => {},
        }
        let ghost pv = text_entries(props@);
        proof {
            assert(pv =~= field_properties(*symbol, *field));
        }
        let mut labels: Vec<String> = Vec::new();
        labels.push("field".to_owned());
        let id = fresh_node_id();
        let node = Node {
            id,
            node_type: NodeType::Variable,
            name: field.name.clone(),
            qualified_name: Some(fqn.clone()),
            file_path: Some(symbol.location.file.clone()),
            start_line: Some(symbol.location.start_line),
            end_line: Some(symbol.location.end_line),
            properties: props,
            labels,
            signature: None,
            return_type: None,
            code_hash: None,
        };
        proof {
            assert(label_texts(node) =~= seq!["field"@]);
        }
        self.nodes.push(node);
        let qualified = Some(fqn);
        self.index_symbol_resolution(key.as_str(), &qualified, field.name.as_str(), id);
        let ghost ks = key@;
        self.symbol_index.push((key, id));
        self.edges.push(Edge::new(id, file_id, EdgeType::DefinedIn));
        self.edges.push(Edge::new(file_id, id, EdgeType::Contains));
        self.edges.push(Edge::new(owner_id, id, EdgeType::Contains));
        proof {
            assert(id_entries(self.symbol_index@) =~= m0.symbols.push((ks, id)));
            assert(self@.nodes.drop_last() =~= m0.nodes);
            assert(self@.edges =~= m0.edges + seq![
                plain_edge(id, file_id, EdgeType::DefinedIn),
                plain_edge(file_id, id, EdgeType::Contains),
                plain_edge(owner_id, id, EdgeType::Contains),
            ]);
            match &field.field_type {
                Some(t) => {
                    assert(self@.field_types =~= m0.field_types.push((member_name(*symbol, *field), go_simple_type(t@))).push(
                        (symbol.name@ + "."@ + field.name@, go_simple_type(t@)),
                    ));
                },
                None => {
                    assert(self@.field_types =~= m0.field_types);
                },
            }
        }
    }
}

/// The ids recorded under `key`, in order.
fn candidates_of(entries: &Vec<(String, NodeId)>, key: &str) -> (r: Vec<NodeId>)
    ensures
        r@ == ids_for(id_entries(entries@), key@),
{
    let ghost ev = id_entries(entries@);
    let mut r: Vec<NodeId> = Vec::new();
    let mut i: usize = 0;
    proof {
        assert(ev.take(0) =~= Seq::<(Seq<char>, NodeId)>::empty());
    }
    while i < entries.len()
        invariant
            i <= entries@.len(),
            ev == id_entries(entries@),
            r@ == ids_for(ev.take(i as int), key@),
        decreases entries@.len() - i,
    {
        proof {
            assert(ev.take(i + 1).drop_last() =~= ev.take(i as int));
            assert(ev.take(i + 1).last() == ev[i as int]);
        }
        if str_eq(entries[i].0.as_str(), key) {
            r.push(entries[i].1);
        }
        i = i + 1;
    }
    proof {
        assert(ev.take(i as int) =~= ev);
    }
    r
}


// ---------------------------------------------------------------------------
// Resolution
// ---------------------------------------------------------------------------

/// What a relation endpoint named `name`, seen in `file`, resolves to:
/// the symbol `file::name`; else the one node recorded under the qualified
/// hint (as a qualified name, then as a suffix); else the one node recorded
/// under `Type.simple-name` for the type hint; else the one node recorded
/// under `name` as a suffix. Where several nodes share a key, it does not
/// resolve.
pub open spec fn resolution(
    m: BuilderModel,
    name: Seq<char>,
    file: Seq<char>,
    qualified_hint: Option<Seq<char>>,
    type_hint: Option<Seq<char>>,
) -> Option<NodeId> {
    match lookup(m.symbols, file + "::"@ + name) {
        Some(id) => Some(id),
        None => {
            let by_hint = match qualified_hint {
                Some(h) => match sole_id(ids_for(m.qualified, h)) {
                    Some(id) => Some(id),
                    None => sole_id(ids_for(m.suffixes, h)),
                },
                None => None,
            };
            if by_hint is Some {
                by_hint
            } else {
                let by_type = match type_hint {
                    Some(t) => sole_id(ids_for(m.suffixes, t + "."@ + after_last_sep(name, false))),
                    None => None,
                };
                if by_type is Some {
                    by_type
                } else {
                    sole_id(ids_for(m.suffixes, name))
                }
            }
        }
    }
}

/// The metadata value recorded under `key` (the last entry for it).
pub open spec fn meta_lookup(meta: Seq<(String, MetaValue)>, key: Seq<char>) -> Option<MetaValue>
    decreases meta.len(),
{
    if meta.len() == 0 {
        None
    } else if meta.last().0@ == key {
        Some(meta.last().1)
    } else {
        meta_lookup(meta.drop_last(), key)
    }
}

/// The string recorded under `key`, when the value there is a string.
pub open spec fn meta_str(meta: Seq<(String, MetaValue)>, key: Seq<char>) -> Option<Seq<char>> {
    match meta_lookup(meta, key) {
        Some(MetaValue::Text(t)) => Some(t@),
        _ => None,
    }
}

/// `a`, or else `b`.
pub open spec fn or_else(a: Option<Seq<char>>, b: Option<Seq<char>>) -> Option<Seq<char>> {
    if a is Some {
        a
    } else {
        b
    }
}

/// Type and qualified hints for a Go call `recv.field.Method` whose extractor
/// gave no type hint: the field's recorded type, and `Type.Method`.
pub open spec fn go_hints(m: BuilderModel, r: Relation) -> (Option<Seq<char>>, Option<Seq<char>>) {
    let md = r.metadata@;
    if r.to_type_hint is Some || meta_str(md, "language"@) != Some("go"@) {
        (None, None)
    } else {
        match (meta_str(md, "go_recv_type"@), meta_str(md, "go_field"@)) {
            (Some(recv), Some(field)) => {
                let callee = match meta_str(md, "go_callee"@) {
                    Some(c) => c,
                    None => after_last_sep(r.to@, false),
                };
                match lookup(m.field_types, recv + "."@ + field) {
                    Some(ty) => (Some(ty), Some(ty + "."@ + callee)),
                    None => (None, None),
                }
            },
            _ => (None, None),
        }
    }
}

/// The edge a relation gives, when both of its endpoints resolve.
pub open spec fn relation_edge(m: BuilderModel, r: Relation) -> Option<Edge> {
    let file = r.location.file@;
    let hints = go_hints(m, r);
    let from = resolution(m, r.from@, file, None, None);
    let to = resolution(
        m,
        r.to@,
        file,
        or_else(hints.1, text_of(r.to_qualified_hint)),
        or_else(hints.0, text_of(r.to_type_hint)),
    );
    match (from, to) {
        (Some(a), Some(b)) => Some(
            Edge {
                from: a,
                to: b,
                edge_type: edge_type_for(r.relation_type),
                call_site_line: if r.relation_type == RelationType::Calls {
                    Some(r.location.start_line)
                } else {
                    None
                },
            },
        ),
        _ => None,
    }
}

/// The string recorded under `key` in `meta`, when the value there is one.
fn meta_string(meta: &Vec<(String, MetaValue)>, key: &str) -> (r: Option<String>)
    ensures
        text_of(r) == meta_str(meta@, key@),
{
    let mut i: usize = meta.len();
    proof {
        assert(meta@.take(i as int) =~= meta@);
    }
    while i > 0
        invariant
            i <= meta@.len(),
            meta_lookup(meta@, key@) == meta_lookup(meta@.take(i as int), key@),
        decreases i,
    {
        proof {
            assert(meta@.take(i as int).drop_last() =~= meta@.take(i - 1));
            assert(meta@.take(i as int).last() == meta@[i - 1]);
        }
        if str_eq(meta[i - 1].0.as_str(), key) {
            return match &meta[i - 1].1 {
                MetaValue::Text(t) => Some(t.clone()),
                _ => None,
            };
        }
        i = i - 1;
    }
    None
}

// ---------------------------------------------------------------------------
// Lines, configuration and environment
// ---------------------------------------------------------------------------

/// First line of `n` (0 when unknown).
pub open spec fn start_of(n: Node) -> usize {
    match n.start_line {
        Some(s) => s,
        None => 0,
    }
}

/// Node `n` of `file` spans `line` (a missing last line counts as the first).
pub open spec fn covers_line(n: Node, file: Seq<char>, line: int) -> bool {
    &&& text_of(n.file_path) == Some(file)
    &&& n.start_line is Some
    &&& start_of(n) <= line
    &&& line <= match n.end_line {
        Some(e) => e as int,
        None => start_of(n) as int,
    }
}

/// The node of `file` that spans `line` and starts last (the later one among
/// equals), with its first line.
pub open spec fn line_match(nodes: Seq<Node>, file: Seq<char>, line: int) -> Option<(NodeId, usize)>
    decreases nodes.len(),
{
    if nodes.len() == 0 {
        None
    } else {
        let best = line_match(nodes.drop_last(), file, line);
        let n = nodes.last();
        if covers_line(n, file, line) && (match best {
            Some(p) => start_of(n) >= p.1,
            None => true,
        }) {
            Some((n.id, start_of(n)))
        } else {
            best
        }
    }
}

/// The node a configuration use at `line` of `file` comes from: the innermost
/// symbol there, else the file.
pub open spec fn code_node_at(m: BuilderModel, file: Seq<char>, line: int) -> Option<NodeId> {
    match line_match(m.nodes, file, line) {
        Some(p) => Some(p.0),
        None => lookup(m.files, file),
    }
}

/// The innermost match: a node of `file` spanning `line` that no other such
/// node starts after.
proof fn lemma_line_match_innermost(nodes: Seq<Node>, file: Seq<char>, line: int)
    ensures
        (exists|k: int| 0 <= k < nodes.len() && #[trigger] covers_line(nodes[k], file, line)) <==> line_match(
            nodes,
            file,
            line,
        ) is Some,
        line_match(nodes, file, line) matches Some(p) ==> exists|k: int|
            0 <= k < nodes.len() && #[trigger] covers_line(nodes[k], file, line) && nodes[k].id == p.0 && start_of(
                nodes[k],
            ) == p.1,
        line_match(nodes, file, line) matches Some(p) ==> forall|j: int|
            0 <= j < nodes.len() && #[trigger] covers_line(nodes[j], file, line) ==> start_of(nodes[j]) <= p.1,
    decreases nodes.len(),
{
    if nodes.len() > 0 {
        let pre = nodes.drop_last();
        let last = nodes.len() - 1;
        lemma_line_match_innermost(pre, file, line);
        assert(nodes[last] == nodes.last());
        assert forall|j: int| 0 <= j < pre.len() implies nodes[j] == #[trigger] pre[j] by {}
        if exists|k: int| 0 <= k < nodes.len() && #[trigger] covers_line(nodes[k], file, line) {
            let k = choose|k: int| 0 <= k < nodes.len() && #[trigger] covers_line(nodes[k], file, line);
            if k < last {
                assert(covers_line(pre[k], file, line));
            }
        }
        if line_match(pre, file, line) is Some {
            let p = line_match(pre, file, line)->0;
            let k = choose|k: int|
                0 <= k < pre.len() && #[trigger] covers_line(pre[k], file, line) && pre[k].id == p.0 && start_of(pre[k])
                    == p.1;
            assert(covers_line(nodes[k], file, line));
        }
        if line_match(nodes, file, line) is Some {
            let p = line_match(nodes, file, line)->0;
            assert forall|j: int| 0 <= j < nodes.len() && #[trigger] covers_line(nodes[j], file, line) implies start_of(
                nodes[j],
            ) <= p.1 by {
                if j < last {
                    assert(covers_line(pre[j], file, line));
                }
            }
        }
    }
}

/// Law: a configuration use at `line` of `file` is linked from the innermost
/// code node there: one of the file's nodes that spans the line, such that
/// no other node of the file spanning the line starts after it. When no node
/// spans the line, it is linked from the file's node. A node spans the line
/// when it lies in the file and its first line is at most the line and its
/// last line (its first line when it has no last) at least the line.
pub proof fn lemma_usage_source_is_innermost(m: BuilderModel, file: Seq<char>, line: int)
    ensures
        forall|n: Node| #[trigger] covers_line(n, file, line) <==> {
            &&& n.file_path is Some && n.file_path->0@ == file
            &&& n.start_line is Some && n.start_line->0 <= line
            &&& line <= if n.end_line is Some { n.end_line->0 as int } else { n.start_line->0 as int }
        },
        (exists|k: int| 0 <= k < m.nodes.len() && #[trigger] covers_line(m.nodes[k], file, line)) ==> (code_node_at(
            m,
            file,
            line,
        ) matches Some(id) && exists|k: int|
            0 <= k < m.nodes.len() && #[trigger] covers_line(m.nodes[k], file, line) && m.nodes[k].id == id && forall|j: int|
                0 <= j < m.nodes.len() && covers_line(m.nodes[j], file, line) ==> start_of(m.nodes[j]) <= start_of(m.nodes[k])),
        !(exists|k: int| 0 <= k < m.nodes.len() && #[trigger] covers_line(m.nodes[k], file, line)) ==> code_node_at(
            m,
            file,
            line,
        ) == lookup(m.files, file),
{
    lemma_line_match_innermost(m.nodes, file, line);
}

/// `n` is the node of environment variable `key`.
pub open spec fn is_env_node(n: Node, key: Seq<char>) -> bool {
    &&& n.node_type == NodeType::Variable
    &&& n.name@ == key
    &&& label_texts(n) == seq!["env"@]
    &&& text_entries(n.properties@) == seq![("env_var"@, key)]
    &&& n.file_path is None
    &&& n.qualified_name is None
    &&& n.start_line is None
    &&& n.end_line is None
    &&& n.signature is None
    &&& n.return_type is None
    &&& n.code_hash is None
}

/// `n` is the node of configuration key `key` used in `file`.
pub open spec fn is_config_ref_node(n: Node, key: Seq<char>, file: Seq<char>) -> bool {
    &&& n.node_type == NodeType::ConfigKey
    &&& n.name@ == key
    &&& text_of(n.file_path) == Some(file)
    &&& n.labels@.len() == 0
    &&& n.properties@.len() == 0
    &&& n.qualified_name is None
    &&& n.start_line is None
    &&& n.end_line is None
    &&& n.signature is None
    &&& n.return_type is None
    &&& n.code_hash is None
}

/// `m1` is `m0` with only its nodes and one other table changed.
pub open spec fn same_but_nodes(m0: BuilderModel, m1: BuilderModel) -> bool {
    &&& m1.edges == m0.edges
    &&& m1.symbols == m0.symbols
    &&& m1.qualified == m0.qualified
    &&& m1.suffixes == m0.suffixes
    &&& m1.field_types == m0.field_types
}

/// `m1` is `m0` with a node for environment variable `key`, made unless there is one.
pub open spec fn env_ensured(m0: BuilderModel, m1: BuilderModel, key: Seq<char>) -> bool {
    match lookup(m0.envs, key) {
        Some(_) => m1 == m0,
        None => {
            &&& appended(m0.nodes, m1.nodes)
            &&& is_env_node(m1.nodes.last(), key)
            &&& m1.envs == m0.envs.push((key, m1.nodes.last().id))
            &&& same_but_nodes(m0, m1)
            &&& m1.files == m0.files
            &&& m1.config_keys == m0.config_keys
        },
    }
}

/// The node of environment variable `key` in `m1`.
pub open spec fn env_target(m0: BuilderModel, m1: BuilderModel, key: Seq<char>) -> NodeId {
    match lookup(m0.envs, key) {
        Some(id) => id,
        None => m1.nodes.last().id,
    }
}

/// `m1` is `m0` with a node for configuration key `key` of `file`, made
/// unless there is one under `file::key`.
pub open spec fn config_ref_ensured(m0: BuilderModel, m1: BuilderModel, key: Seq<char>, file: Seq<char>) -> bool {
    match lookup(m0.config_keys, file + "::"@ + key) {
        Some(_) => m1 == m0,
        None => {
            &&& appended(m0.nodes, m1.nodes)
            &&& is_config_ref_node(m1.nodes.last(), key, file)
            &&& m1.config_keys == m0.config_keys.push((file + "::"@ + key, m1.nodes.last().id))
            &&& same_but_nodes(m0, m1)
            &&& m1.files == m0.files
            &&& m1.envs == m0.envs
        },
    }
}

/// The node of configuration key `key` of `file` in `m1`.
pub open spec fn config_ref_target(m0: BuilderModel, m1: BuilderModel, key: Seq<char>, file: Seq<char>) -> NodeId {
    match lookup(m0.config_keys, file + "::"@ + key) {
        Some(id) => id,
        None => m1.nodes.last().id,
    }
}

/// `m2` is `m0` after a use of `key` at `line` of `file` is linked: when a
/// code node is found there, the target node is made if needed and a
/// `UsesConfig` edge goes from the code node to it; otherwise nothing changes.
pub open spec fn usage_linked(
    m0: BuilderModel,
    m2: BuilderModel,
    file: Seq<char>,
    line: int,
    key: Seq<char>,
    kind: ConfigUsageKind,
) -> bool {
    match code_node_at(m0, file, line) {
        None => m2 == m0,
        Some(from) => {
            let m1 = BuilderModel { edges: m2.edges.drop_last(), ..m2 };
            &&& m2.edges.len() == m0.edges.len() + 1
            &&& match kind {
                ConfigUsageKind::EnvVar => env_ensured(m0, m1, key) && m2.edges.last() == plain_edge(
                    from,
                    env_target(m0, m1, key),
                    EdgeType::UsesConfig,
                ),
                ConfigUsageKind::ConfigKey => config_ref_ensured(m0, m1, key, file) && m2.edges.last()
                    == plain_edge(from, config_ref_target(m0, m1, key, file), EdgeType::UsesConfig),
            }
        },
    }
}

/// `n` is the node of file `path`.
pub open spec fn is_file_node(n: Node, path: Seq<char>) -> bool {
    &&& n.node_type == NodeType::File
    &&& n.name@ == path
    &&& text_of(n.file_path) == Some(path)
    &&& n.labels@.len() == 0
    &&& n.properties@.len() == 0
    &&& n.qualified_name is None
    &&& n.start_line is None
    &&& n.end_line is None
    &&& n.signature is None
    &&& n.return_type is None
    &&& n.code_hash is None
}

/// `m1` is `m0` with a node for file `path`, made unless there is one; `id` is its id.
pub open spec fn file_ensured(m0: BuilderModel, m1: BuilderModel, path: Seq<char>, id: NodeId) -> bool {
    match lookup(m0.files, path) {
        Some(existing) => id == existing && m1 == m0,
        None => {
            &&& appended(m0.nodes, m1.nodes)
            &&& m1.nodes.last().id == id
            &&& is_file_node(m1.nodes.last(), path)
            &&& m1.files == m0.files.push((path, id))
            &&& same_but_nodes(m0, m1)
            &&& m1.config_keys == m0.config_keys
            &&& m1.envs == m0.envs
        },
    }
}

/// `n` is the node of configuration key `k`.
pub open spec fn is_config_key_node(n: Node, k: ConfigKey) -> bool {
    &&& n.node_type == NodeType::ConfigKey
    &&& n.name@ == k.key_path@
    &&& text_of(n.file_path) == Some(k.location.file@)
    &&& n.labels@.len() == 0
    &&& text_entries(n.properties@) == seq![("value"@, k.value@), ("value_type"@, k.value_type@)]
    &&& n.qualified_name is None
    &&& n.start_line is None
    &&& n.end_line is None
    &&& n.signature is None
    &&& n.return_type is None
    &&& n.code_hash is None
}

/// `m1` is `m0` after configuration key `k` is added (unless one is recorded
/// under `file::key-path`), defined in and contained by `file_id`.
pub open spec fn config_key_added(m0: BuilderModel, m1: BuilderModel, k: ConfigKey, file_id: NodeId, id: NodeId) -> bool {
    let lk = k.location.file@ + "::"@ + k.key_path@;
    match lookup(m0.config_keys, lk) {
        Some(existing) => id == existing && m1 == m0,
        None => {
            &&& appended(m0.nodes, m1.nodes)
            &&& m1.nodes.last().id == id
            &&& is_config_key_node(m1.nodes.last(), k)
            &&& m1.edges == m0.edges + seq![
                plain_edge(id, file_id, EdgeType::DefinedIn),
                plain_edge(file_id, id, EdgeType::Contains),
            ]
            &&& m1.config_keys == m0.config_keys.push((lk, id))
            &&& m1.symbols == m0.symbols
            &&& m1.qualified == m0.qualified
            &&& m1.suffixes == m0.suffixes
            &&& m1.field_types == m0.field_types
            &&& m1.files == m0.files
            &&& m1.envs == m0.envs
        },
    }
}

/// Position of the first node with id `id`, from position `k` on.
pub open spec fn first_with_id(nodes: Seq<Node>, id: NodeId, k: int) -> Option<int>
    decreases nodes.len() - k,
{
    if k < 0 || k >= nodes.len() {
        None
    } else if nodes[k].id == id {
        Some(k)
    } else {
        first_with_id(nodes, id, k + 1)
    }
}

/// The properties that complexity figures add, in order.
pub open spec fn complexity_properties(c: ComplexityMetrics) -> Seq<(Seq<char>, Seq<char>)> {
    seq![
        ("cyclomatic"@, decimal(c.cyclomatic as nat)),
        ("cognitive"@, decimal(c.cognitive as nat)),
        ("loc"@, decimal(c.loc as nat)),
        ("nesting_depth"@, decimal(c.nesting_depth as nat)),
    ]
}

/// `m1` is `m0` after complexity figures `c` are attached to symbol `s`: the
/// first node with the symbol's id gets the four properties; without such a
/// symbol or node nothing changes.
pub open spec fn complexity_added(m0: BuilderModel, m1: BuilderModel, s: Symbol, c: ComplexityMetrics) -> bool {
    match lookup(m0.symbols, symbol_key(s)) {
        None => m1 == m0,
        Some(id) => match first_with_id(m0.nodes, id, 0) {
            None => m1 == m0,
            Some(i) => {
                &&& m1 == (BuilderModel { nodes: m1.nodes, ..m0 })
                &&& m1.nodes.len() == m0.nodes.len()
                &&& forall|j: int| 0 <= j < m0.nodes.len() && j != i ==> m1.nodes[j] == m0.nodes[j]
                &&& m1.nodes[i] == (Node { properties: m1.nodes[i].properties, ..m0.nodes[i] })
                &&& text_entries(m1.nodes[i].properties@) == text_entries(m0.nodes[i].properties@)
                    + complexity_properties(c)
            },
        },
    }
}

impl GraphBuilder {
    /// Resolve a symbol name to its id (see `resolution`); ambiguous matches
    /// give `None`.
    pub fn resolve_symbol(&self, name: &str, file: &str, qualified_hint: Option<&str>, type_hint: Option<&str>) -> (r: Option<NodeId>)
        ensures
            r == resolution(self@, name@, file@, str_text(qualified_hint), str_text(type_hint)),
    {
        let head = concat_str(file, "::");
        let key = concat_str(head.as_str(), name);
        match lookup_id(&self.symbol_index, key.as_str()) {
            Some(id) => {
                return Some(id);
            },
            None => {},
        }
        match qualified_hint {
            Some(h) => {
                match sole_candidate(&self.symbols_by_qualified, h) {
                    Some(id) => {
                        return Some(id);
                    },
                    None => {},
                }
                match sole_candidate(&self.symbols_by_suffix, h) {
                    Some(id) => {
                        return Some(id);
                    },
                    None => {},
                }
            },
            None => {},
        }
        match type_hint {
            Some(t) => {
                let nc = to_chars(name);
                let simple = text_after_last_sep(nc.as_slice(), 0, false);
                proof {
                    assert(nc@.skip(0) =~= nc@);
                }
                let type_head = concat_str(t, ".");
                let typed = concat_str(type_head.as_str(), simple.as_str());
                match sole_candidate(&self.symbols_by_suffix, typed.as_str()) {
                    Some(id) => {
                        return Some(id);
                    },
                    None => {},
                }
            },
            None => {},
        }
        sole_candidate(&self.symbols_by_suffix, name)
    }

    /// Late-bind Go `recv.field.Method` through the recorded field types.
    fn enrich_go_type_hints(&self, relation: &Relation) -> (r: (Option<String>, Option<String>))
        ensures
            (text_of(r.0), text_of(r.1)) == go_hints(self@, *relation),
    {
        if relation.to_type_hint.is_some() {
            return (None, None);
        }
        let lang = meta_string(&relation.metadata, "language");
        let is_go = match &lang {
            Some(l) => str_eq(l.as_str(), "go"),
            None => false,
        };
        if !is_go {
            return (None, None);
        }
        let recv = match meta_string(&relation.metadata, "go_recv_type") {
            Some(v) => v,
            None => {
                return (None, None);
            },
        };
        let field = match meta_string(&relation.metadata, "go_field") {
            Some(v) => v,
            None => {
                return (None, None);
            },
        };
        let callee = match meta_string(&relation.metadata, "go_callee") {
            Some(c) => c,
            None => {
                let tc = to_chars(relation.to.as_str());
                proof {
                    assert(tc@.skip(0) =~= tc@);
                }
                text_after_last_sep(tc.as_slice(), 0, false)
            },
        };
        let recv_head = concat_str(recv.as_str(), ".");
        let owner_field = concat_str(recv_head.as_str(), field.as_str());
        match lookup_text(&self.field_type_index, owner_field.as_str()) {
            Some(ty) => {
                let ty_head = concat_str(ty.as_str(), ".");
                let qualified = concat_str(ty_head.as_str(), callee.as_str());
                (Some(ty), Some(qualified))
            },
            None => (None, None),
        }
    }

    /// Add the edge of a relation when both of its endpoints resolve; a
    /// call edge records the line of its call site.
    pub fn add_relation(&mut self, relation: &Relation) -> (r: Result<(), Error>)
        ensures
            r is Ok,
            final(self)@ == match relation_edge(old(self)@, *relation) {
                Some(e) => BuilderModel { edges: old(self)@.edges.push(e), ..old(self)@ },
                None => old(self)@,
            },
            final(self).indexes_ready() == old(self).indexes_ready(),
            final(self)@.symbols == old(self)@.symbols,
    {
        let file = relation.location.file.as_str();
        let from_id = self.resolve_symbol(relation.from.as_str(), file, None, None);
        let (type_hint, qualified_hint) = self.enrich_go_type_hints(relation);
        let qh: Option<&str> = match &qualified_hint {
            Some(h) => Some(h.as_str()),
            None => match &relation.to_qualified_hint {
                Some(h) => Some(h.as_str()),
                None => None,
            },
        };
        let th: Option<&str> = match &type_hint {
            Some(h) => Some(h.as_str()),
            None => match &relation.to_type_hint {
                Some(h) => Some(h.as_str()),
                None => None,
            },
        };
        let to_id = self.resolve_symbol(relation.to.as_str(), file, qh, th);
        match (from_id, to_id) {
            (Some(a), Some(b)) => {
                let mut e = Edge::new(a, b, relation_type_to_edge_type(relation.relation_type));
                if relation.relation_type == RelationType::Calls {
                    e = e.with_call_site_line(relation.location.start_line);
                }
                self.edges.push(e);
            },
            _ => {},
        }
        Ok(())
    }

    /// The node of `file_path` that spans `line` and starts last.
    fn find_symbol_at_line(&self, file_path: &str, line: usize) -> (r: Option<NodeId>)
        ensures
            r == match line_match(self@.nodes, file_path@, line as int) {
                Some(p) => Some(p.0),
                None => None::<NodeId>,
            },
    {
        let mut best: Option<(NodeId, usize)> = None;
        let mut i: usize = 0;
        proof {
            assert(self.nodes@.take(0) =~= Seq::<Node>::empty());
        }
        while i < self.nodes.len()
            invariant
                i <= self.nodes@.len(),
                best == line_match(self.nodes@.take(i as int), file_path@, line as int),
            decreases self.nodes@.len() - i,
        {
            proof {
                assert(self.nodes@.take(i + 1).drop_last() =~= self.nodes@.take(i as int));
                assert(self.nodes@.take(i + 1).last() == self.nodes@[i as int]);
            }
            let n = &self.nodes[i];
            let in_file = match &n.file_path {
                Some(f) => str_eq(f.as_str(), file_path),
                None => false,
            };
            if in_file {
                match n.start_line {
                    Some(st) => {
                        let end = match n.end_line {
                            Some(e) => e,
                            None => st,
                        };
                        if st <= line && line <= end {
                            let better = match best {
                                Some(p) => st >= p.1,
                                None => true,
                            };
                            if better {
                                best = Some((n.id, st));
                            }
                        }
                    },
                    None => {},
                }
            }
            i = i + 1;
        }
        proof {
            assert(self.nodes@.take(i as int) =~= self.nodes@);
        }
        match best {
            Some(p) => Some(p.0),
            None => None,
        }
    }

    /// The node of environment variable `key`, made unless there is one.
    fn ensure_env_node(&mut self, key: &str) -> (id: NodeId)
        ensures
            env_ensured(old(self)@, final(self)@, key@),
            id == env_target(old(self)@, final(self)@, key@),
            final(self).indexes_built == old(self).indexes_built,
    {
        match lookup_id(&self.env_nodes, key) {
            Some(id) => {
                return id;
            },
            None => {},
        }
        let ghost m0 = self@;
        let mut labels: Vec<String> = Vec::new();
        labels.push("env".to_owned());
        let mut props: Vec<(String, String)> = Vec::new();
        props.push(("env_var".to_owned(), key.to_owned()));
        let id = fresh_node_id();
        let node = Node {
            id,
            node_type: NodeType::Variable,
            name: key.to_owned(),
            qualified_name: None,
            file_path: None,
            start_line: None,
            end_line: None,
            properties: props,
            labels,
            signature: None,
            return_type: None,
            code_hash: None,
        };
        proof {
            assert(label_texts(node) =~= seq!["env"@]);
            assert(text_entries(node.properties@) =~= seq![("env_var"@, key@)]);
        }
        self.nodes.push(node);
        self.env_nodes.push((key.to_owned(), id));
        proof {
            assert(self@.nodes.drop_last() =~= m0.nodes);
            assert(self@.envs =~= m0.envs.push((key@, id)));
        }
        id
    }

    /// The node of configuration key `key` of `file_path`, made unless there is one.
    fn ensure_config_key_node(&mut self, key: &str, file_path: &str) -> (id: NodeId)
        ensures
            config_ref_ensured(old(self)@, final(self)@, key@, file_path@),
            id == config_ref_target(old(self)@, final(self)@, key@, file_path@),
            final(self).indexes_built == old(self).indexes_built,
    {
        let head = concat_str(file_path, "::");
        let lookup_key = concat_str(head.as_str(), key);
        match lookup_id(&self.config_key_nodes, lookup_key.as_str()) {
            Some(id) => {
                return id;
            },
            None => {},
        }
        let ghost m0 = self@;
        let ghost lk = lookup_key@;
        let id = fresh_node_id();
        let node = Node {
            id,
            node_type: NodeType::ConfigKey,
            name: key.to_owned(),
            qualified_name: None,
            file_path: Some(file_path.to_owned()),
            start_line: None,
            end_line: None,
            properties: Vec::new(),
            labels: Vec::new(),
            signature: None,
            return_type: None,
            code_hash: None,
        };
        self.nodes.push(node);
        self.config_key_nodes.push((lookup_key, id));
        proof {
            assert(self@.nodes.drop_last() =~= m0.nodes);
            assert(self@.config_keys =~= m0.config_keys.push((lk, id)));
        }
        id
    }

    /// Link code at `line` of `file_path` to the configuration key or
    /// environment variable `key` it uses (see `usage_linked`).
    pub fn link_config_usage(&mut self, file_path: &str, line: usize, key: &str, usage_type: ConfigUsageKind)
        ensures
            usage_linked(old(self)@, final(self)@, file_path@, line as int, key@, usage_type),
            final(self).indexes_ready() == old(self).indexes_ready(),
            final(self)@.symbols == old(self)@.symbols,
    {
        let file_id = lookup_id(&self.file_nodes, file_path);
        let code_node = match self.find_symbol_at_line(file_path, line) {
            Some(id) => Some(id),
            None => file_id,
        };
        let from_id = match code_node {
            Some(id) => id,
            None => {
                return;
            },
        };
        let target_id = match usage_type {
            ConfigUsageKind::EnvVar => self.ensure_env_node(key),
            ConfigUsageKind::ConfigKey => self.ensure_config_key_node(key, file_path),
        };
        let ghost m1 = self@;
        self.edges.push(Edge::new(from_id, target_id, EdgeType::UsesConfig));
        proof {
            assert(self@.edges.drop_last() =~= m1.edges);
            assert(m1 == (BuilderModel { edges: self@.edges.drop_last(), ..self@ }));
        }
    }

    /// The node of file `path`, made unless there is one.
    pub fn ensure_file_node(&mut self, path: &str) -> (id: NodeId)
        ensures
            file_ensured(old(self)@, final(self)@, path@, id),
            final(self).indexes_ready() == old(self).indexes_ready(),
            final(self)@.symbols == old(self)@.symbols,
    {
        match lookup_id(&self.file_nodes, path) {
            Some(id) => {
                return id;
            },
            None => {},
        }
        let ghost m0 = self@;
        let id = fresh_node_id();
        let node = Node {
            id,
            node_type: NodeType::File,
            name: path.to_owned(),
            qualified_name: None,
            file_path: Some(path.to_owned()),
            start_line: None,
            end_line: None,
            properties: Vec::new(),
            labels: Vec::new(),
            signature: None,
            return_type: None,
            code_hash: None,
        };
        self.nodes.push(node);
        self.file_nodes.push((path.to_owned(), id));
        proof {
            assert(self@.nodes.drop_last() =~= m0.nodes);
            assert(self@.files =~= m0.files.push((path@, id)));
        }
        id
    }

    /// Add a configuration key node linked to its file.
    pub fn add_config_key(&mut self, key: &ConfigKey, file_id: NodeId) -> (id: NodeId)
        ensures
            config_key_added(old(self)@, final(self)@, *key, file_id, id),
            final(self).indexes_ready() == old(self).indexes_ready(),
            final(self)@.symbols == old(self)@.symbols,
    {
        let head = concat_str(key.location.file.as_str(), "::");
        let lookup_key = concat_str(head.as_str(), key.key_path.as_str());
        match lookup_id(&self.config_key_nodes, lookup_key.as_str()) {
            Some(id) => {
                return id;
            },
            None => {},
        }
        let ghost m0 = self@;
        let ghost lk = lookup_key@;
        let mut props: Vec<(String, String)> = Vec::new();
        props.push(("value".to_owned(), key.value.clone()));
        props.push(("value_type".to_owned(), key.value_type.clone()));
        proof {
            assert(text_entries(props@) =~= seq![("value"@, key.value@), ("value_type"@, key.value_type@)]);
        }
        let id = fresh_node_id();
        let node = Node {
            id,
            node_type: NodeType::ConfigKey,
            name: key.key_path.clone(),
            qualified_name: None,
            file_path: Some(key.location.file.clone()),
            start_line: None,
            end_line: None,
            properties: props,
            labels: Vec::new(),
            signature: None,
            return_type: None,
            code_hash: None,
        };
        self.nodes.push(node);
        self.config_key_nodes.push((lookup_key, id));
        self.edges.push(Edge::new(id, file_id, EdgeType::DefinedIn));
        self.edges.push(Edge::new(file_id, id, EdgeType::Contains));
        proof {
            assert(self@.nodes.drop_last() =~= m0.nodes);
            assert(self@.config_keys =~= m0.config_keys.push((lk, id)));
            assert(self@.edges =~= m0.edges + seq![
                plain_edge(id, file_id, EdgeType::DefinedIn),
                plain_edge(file_id, id, EdgeType::Contains),
            ]);
        }
        id
    }

    /// Attach complexity figures to the node of an existing symbol.
    pub fn add_complexity(&mut self, symbol: &Symbol, metrics: &ComplexityMetrics)
        ensures
            complexity_added(old(self)@, final(self)@, *symbol, *metrics),
            final(self).indexes_ready() == old(self).indexes_ready(),
            final(self)@.symbols == old(self)@.symbols,
    {
        let key = symbol_key_of(symbol);
        let id = match lookup_id(&self.symbol_index, key.as_str()) {
            Some(id) => id,
            None => {
                return;
            },
        };
        let ghost m0 = self@;
        let mut i: usize = 0;
        while i < self.nodes.len() && self.nodes[i].id != id
            invariant
                i <= self.nodes@.len(),
                self@ == m0,
                first_with_id(m0.nodes, id, 0) == first_with_id(m0.nodes, id, i as int),
            decreases self.nodes@.len() - i,
        {
            i = i + 1;
        }
        if i == self.nodes.len() {
            return;
        }
        let mut node = Node::new(NodeType::File, "");
        std::mem::swap(&mut node, &mut self.nodes[i]);
        let ghost before = node;
        let ghost pv = text_entries(node.properties@);
        node.properties.push(("cyclomatic".to_owned(), decimal_text(metrics.cyclomatic)));
        node.properties.push(("cognitive".to_owned(), decimal_text(metrics.cognitive)));
        node.properties.push(("loc".to_owned(), decimal_text(metrics.loc)));
        node.properties.push(("nesting_depth".to_owned(), decimal_text(metrics.nesting_depth)));
        proof {
            assert(text_entries(node.properties@) =~= pv + complexity_properties(*metrics));
            assert(node == (Node { properties: node.properties, ..before }));
        }
        self.nodes.set(i, node);
        proof {
            assert(self@ =~= (BuilderModel { nodes: self@.nodes, ..m0 }));
        }
    }

    /// Mark the resolution indexes ready. They are kept up to date as each
    /// symbol is added, so nothing else changes.
    pub fn build_resolution_indexes(&mut self)
        ensures
            final(self)@ == old(self)@,
            final(self).indexes_ready(),
    {
        self.indexes_built = true;
    }
}


// ---------------------------------------------------------------------------
// Laws
// ---------------------------------------------------------------------------

/// A later entry under another key leaves a lookup unchanged.
proof fn lemma_lookup_push_other<V>(entries: Seq<(Seq<char>, V)>, k: Seq<char>, v: V, key: Seq<char>)
    requires
        k != key,
    ensures
        lookup(entries.push((k, v)), key) == lookup(entries, key),
{
    assert(entries.push((k, v)).drop_last() =~= entries);
}

/// Handling the fields of a symbol never changes what its own key finds.
proof fn lemma_fields_keep_symbol(states: Seq<BuilderModel>, owner: NodeId, s: Symbol, file_id: NodeId, j: int)
    requires
        fields_chain(states, owner, s, file_id),
        0 <= j < states.len(),
    ensures
        lookup(states[j].symbols, symbol_key(s)) == lookup(states[0].symbols, symbol_key(s)),
    decreases j,
{
    if j > 0 {
        lemma_fields_keep_symbol(states, owner, s, file_id, j - 1);
        let f = s.fields@[j - 1];
        assert(field_added(states[j - 1], states[j], owner, s, file_id, f));
        if lookup(states[j - 1].symbols, field_key(s, f)) is None {
            reveal_strlit(".");
            assert(field_key(s, f).len() > symbol_key(s).len());
            lemma_lookup_push_other(states[j - 1].symbols, field_key(s, f), states[j].nodes.last().id, symbol_key(s));
        }
    }
}

/// Once a symbol is added, its key finds it: adding the same symbol again
/// returns the same id and changes nothing.
pub proof fn lemma_added_symbol_is_found(
    m0: BuilderModel,
    m2: BuilderModel,
    s: Symbol,
    file_id: NodeId,
    code_hash: Option<Seq<char>>,
    id: NodeId,
)
    requires
        symbol_added(m0, m2, s, file_id, code_hash, id),
    ensures
        lookup(m2.symbols, symbol_key(s)) == Some(id),
{
    let states = choose|states: Seq<BuilderModel>|
        #[trigger] fields_chain(states, id, s, file_id) && symbol_inserted(m0, states[0], s, file_id, code_hash, id)
            && states.last() == m2;
    assert(states[0].symbols.drop_last() =~= m0.symbols);
    lemma_fields_keep_symbol(states, id, s, file_id, states.len() - 1);
}

/// Handling the fields of a symbol keeps what every key recorded before finds.
proof fn lemma_fields_keep_recorded(
    states: Seq<BuilderModel>,
    owner: NodeId,
    s: Symbol,
    file_id: NodeId,
    j: int,
    k: Seq<char>,
)
    requires
        fields_chain(states, owner, s, file_id),
        0 <= j < states.len(),
        lookup(states[0].symbols, k) is Some,
    ensures
        lookup(states[j].symbols, k) == lookup(states[0].symbols, k),
    decreases j,
{
    if j > 0 {
        lemma_fields_keep_recorded(states, owner, s, file_id, j - 1, k);
        let f = s.fields@[j - 1];
        assert(field_added(states[j - 1], states[j], owner, s, file_id, f));
        if lookup(states[j - 1].symbols, field_key(s, f)) is None {
            lemma_lookup_push_other(states[j - 1].symbols, field_key(s, f), states[j].nodes.last().id, k);
        }
    }
}

/// Law: a recorded symbol key keeps its node when a symbol is added. Adding
/// a symbol whose key is recorded returns the recorded node and changes
/// nothing; adding any symbol leaves what every recorded key finds as it was.
pub proof fn lemma_recorded_key_stays(
    m0: BuilderModel,
    m1: BuilderModel,
    s: Symbol,
    file_id: NodeId,
    code_hash: Option<Seq<char>>,
    id: NodeId,
    k: Seq<char>,
)
    requires
        match lookup(m0.symbols, symbol_key(s)) {
            Some(existing) => id == existing && m1 == m0,
            None => symbol_added(m0, m1, s, file_id, code_hash, id),
        },
        lookup(m0.symbols, k) is Some,
    ensures
        lookup(m1.symbols, k) == lookup(m0.symbols, k),
        symbol_key(s) == k ==> id == lookup(m0.symbols, k)->0 && m1 == m0,
{
    if lookup(m0.symbols, symbol_key(s)) is None {
        let states = choose|states: Seq<BuilderModel>|
            #[trigger] fields_chain(states, id, s, file_id) && symbol_inserted(m0, states[0], s, file_id, code_hash, id)
                && states.last() == m1;
        lemma_lookup_push_other(m0.symbols, symbol_key(s), id, k);
        lemma_fields_keep_recorded(states, id, s, file_id, states.len() - 1, k);
    }
}

/// Law: keeping the recorded symbol keys composes over steps. Every builder
/// operation keeps them by its contract (adding a symbol keeps every
/// recorded key, the other operations leave the symbol table as it is), so
/// over any run of operations a recorded key still finds its node, and
/// adding its symbol again returns that node and changes nothing.
pub proof fn lemma_recorded_keys_survive(m0: BuilderModel, m1: BuilderModel, m2: BuilderModel)
    requires
        keeps_recorded_keys(m0, m1),
        keeps_recorded_keys(m1, m2),
    ensures
        keeps_recorded_keys(m0, m2),
{
    assert forall|k: Seq<char>| lookup(m0.symbols, k) is Some implies #[trigger] lookup(m2.symbols, k) == lookup(m0.symbols, k) by {
        assert(lookup(m1.symbols, k) == lookup(m0.symbols, k));
    }
}

/// A name recorded as a suffix of two different nodes does not resolve by
/// itself: without a symbol of that name in the file and without hints, the
/// result is `None`.
pub proof fn lemma_ambiguous_name_unresolved(m: BuilderModel, name: Seq<char>, file: Seq<char>, i: int, j: int)
    requires
        0 <= i < ids_for(m.suffixes, name).len(),
        0 <= j < ids_for(m.suffixes, name).len(),
        ids_for(m.suffixes, name)[i] != ids_for(m.suffixes, name)[j],
        lookup(m.symbols, file + "::"@ + name) is None,
    ensures
        resolution(m, name, file, None, None) is None,
{
    let ids = ids_for(m.suffixes, name);
    if ids[i] == ids[0] {
        assert(ids[j] != ids[0]);
    }
}

/// A qualified hint shared by two different nodes, as a qualified name and
/// as a suffix, does not pick one of them.
pub proof fn lemma_ambiguous_hint_falls_through(
    m: BuilderModel,
    name: Seq<char>,
    file: Seq<char>,
    hint: Seq<char>,
    type_hint: Option<Seq<char>>,
)
    requires
        lookup(m.symbols, file + "::"@ + name) is None,
        sole_id(ids_for(m.qualified, hint)) is None,
        sole_id(ids_for(m.suffixes, hint)) is None,
    ensures
        resolution(m, name, file, Some(hint), type_hint) == resolution(m, name, file, None, type_hint),
{
}

/// Once a file node is made, its path finds it again.
pub proof fn lemma_file_node_is_found(m0: BuilderModel, m1: BuilderModel, path: Seq<char>, id: NodeId)
    requires
        file_ensured(m0, m1, path, id),
    ensures
        lookup(m1.files, path) == Some(id),
{
    if lookup(m0.files, path) is None {
        assert(m1.files.drop_last() =~= m0.files);
    }
}

} // verus!
