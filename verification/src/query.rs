//! A small query language over an in-memory graph store: `type:`, `name:`,
//! `label:`, `repo:`, `name_suffix:`, `signature:` (with `*` wildcards),
//! `return_type:`, `module:`, `resource:`, shortcut words such as
//! `functions`, free text, `all`, and `|`-separated conjunctions evaluated
//! from the most selective clause on.

use crate::cli::{ascii_lower, ascii_lowercase, chars_eq_str, to_ascii_lowercase};
use crate::error::Error;
use crate::graph::{Edge, Node, NodeType};
use crate::obsidian::nonempty_pieces;
use crate::text::{
    concat_str, ends_with_chars, find_chars_from, find_from, from_chars, has_prefix, lemma_split_on_append,
    lemma_split_on_sep_append, lemma_trim_again, lemma_trim_end_before, lemma_trim_end_shape, lemma_trim_start_after,
    lemma_trim_start_shape, lemma_trimmed_shape, all_whitespace, split_chars, split_on, to_chars, trim_chars, trim_end_ws,
    trim_start_ws, trimmed, unicode_whitespace,
};
use vstd::prelude::*;

verus! {

/// The node type a lower-case type name denotes.
pub open spec fn node_type_named(l: Seq<char>) -> Option<NodeType> {
    if l == "function"@ {
        Some(NodeType::Function)
    } else if l == "class"@ {
        Some(NodeType::Class)
    } else if l == "struct"@ {
        Some(NodeType::Struct)
    } else if l == "enum"@ {
        Some(NodeType::Enum)
    } else if l == "interface"@ {
        Some(NodeType::Interface)
    } else if l == "annotation"@ {
        Some(NodeType::Annotation)
    } else if l == "module"@ {
        Some(NodeType::Module)
    } else if l == "variable"@ {
        Some(NodeType::Variable)
    } else if l == "file"@ {
        Some(NodeType::File)
    } else if l == "configkey"@ {
        Some(NodeType::ConfigKey)
    } else if l == "config"@ {
        Some(NodeType::ConfigKey)
    } else if l == "typealias"@ {
        Some(NodeType::TypeAlias)
    } else if l == "macro"@ {
        Some(NodeType::Macro)
    } else if l == "import"@ {
        Some(NodeType::Import)
    } else if l == "table"@ {
        Some(NodeType::Table)
    } else if l == "dependency"@ {
        Some(NodeType::Dependency)
    } else if l == "job"@ {
        Some(NodeType::Job)
    } else if l == "buildstep"@ {
        Some(NodeType::BuildStep)
    } else if l == "ansibleplaybook"@ {
        Some(NodeType::AnsiblePlaybook)
    } else if l == "playbook"@ {
        Some(NodeType::AnsiblePlaybook)
    } else if l == "ansibleplay"@ {
        Some(NodeType::AnsiblePlay)
    } else if l == "ansibletask"@ {
        Some(NodeType::AnsibleTask)
    } else if l == "task"@ {
        Some(NodeType::AnsibleTask)
    } else if l == "ansiblerole"@ {
        Some(NodeType::AnsibleRole)
    } else if l == "role"@ {
        Some(NodeType::AnsibleRole)
    } else if l == "ansiblehandler"@ {
        Some(NodeType::AnsibleHandler)
    } else if l == "handler"@ {
        Some(NodeType::AnsibleHandler)
    } else if l == "ansiblevariable"@ {
        Some(NodeType::AnsibleVariable)
    } else if l == "ansibletemplate"@ {
        Some(NodeType::AnsibleTemplate)
    } else if l == "chefcookbook"@ {
        Some(NodeType::ChefCookbook)
    } else if l == "cookbook"@ {
        Some(NodeType::ChefCookbook)
    } else if l == "chefrecipe"@ {
        Some(NodeType::ChefRecipe)
    } else if l == "recipe"@ {
        Some(NodeType::ChefRecipe)
    } else if l == "chefresource"@ {
        Some(NodeType::ChefResource)
    } else if l == "resource"@ {
        Some(NodeType::ChefResource)
    } else if l == "chefattribute"@ {
        Some(NodeType::ChefAttribute)
    } else if l == "cheftemplate"@ {
        Some(NodeType::ChefTemplate)
    } else if l == "chefcustomresource"@ {
        Some(NodeType::ChefCustomResource)
    } else if l == "puppetmodule"@ {
        Some(NodeType::PuppetModule)
    } else if l == "puppetmodules"@ {
        Some(NodeType::PuppetModule)
    } else if l == "puppetclass"@ {
        Some(NodeType::PuppetClass)
    } else if l == "puppetclasses"@ {
        Some(NodeType::PuppetClass)
    } else if l == "puppetdefinedtype"@ {
        Some(NodeType::PuppetDefinedType)
    } else if l == "puppetresource"@ {
        Some(NodeType::PuppetResource)
    } else if l == "puppetvariable"@ {
        Some(NodeType::PuppetVariable)
    } else if l == "puppetfact"@ {
        Some(NodeType::PuppetFact)
    } else {
        None
    }
}

/// The node type a lower-case shortcut word selects.
pub open spec fn shortcut_type(l: Seq<char>) -> Option<NodeType> {
    if l == "functions"@ {
        Some(NodeType::Function)
    } else if l == "function"@ {
        Some(NodeType::Function)
    } else if l == "classes"@ {
        Some(NodeType::Class)
    } else if l == "class"@ {
        Some(NodeType::Class)
    } else if l == "structs"@ {
        Some(NodeType::Struct)
    } else if l == "struct"@ {
        Some(NodeType::Struct)
    } else if l == "files"@ {
        Some(NodeType::File)
    } else if l == "file"@ {
        Some(NodeType::File)
    } else if l == "config"@ {
        Some(NodeType::ConfigKey)
    } else if l == "configkeys"@ {
        Some(NodeType::ConfigKey)
    } else if l == "playbooks"@ {
        Some(NodeType::AnsiblePlaybook)
    } else if l == "ansibleplaybooks"@ {
        Some(NodeType::AnsiblePlaybook)
    } else if l == "ansibleroles"@ {
        Some(NodeType::AnsibleRole)
    } else if l == "roles"@ {
        Some(NodeType::AnsibleRole)
    } else if l == "cookbooks"@ {
        Some(NodeType::ChefCookbook)
    } else if l == "chefcookbooks"@ {
        Some(NodeType::ChefCookbook)
    } else if l == "chefrecipes"@ {
        Some(NodeType::ChefRecipe)
    } else if l == "recipes"@ {
        Some(NodeType::ChefRecipe)
    } else if l == "puppetmodules"@ {
        Some(NodeType::PuppetModule)
    } else if l == "modules"@ {
        Some(NodeType::PuppetModule)
    } else if l == "puppetclasses"@ {
        Some(NodeType::PuppetClass)
    } else {
        None
    }
}

fn node_type_named_exec(l: &Vec<char>) -> (r: Option<NodeType>)
    ensures
        r == node_type_named(l@),
{
    if chars_eq_str(l, "function") {
        Some(NodeType::Function)
    } else if chars_eq_str(l, "class") {
        Some(NodeType::Class)
    } else if chars_eq_str(l, "struct") {
        Some(NodeType::Struct)
    } else if chars_eq_str(l, "enum") {
        Some(NodeType::Enum)
    } else if chars_eq_str(l, "interface") {
        Some(NodeType::Interface)
    } else if chars_eq_str(l, "annotation") {
        Some(NodeType::Annotation)
    } else if chars_eq_str(l, "module") {
        Some(NodeType::Module)
    } else if chars_eq_str(l, "variable") {
        Some(NodeType::Variable)
    } else if chars_eq_str(l, "file") {
        Some(NodeType::File)
    } else if chars_eq_str(l, "configkey") {
        Some(NodeType::ConfigKey)
    } else if chars_eq_str(l, "config") {
        Some(NodeType::ConfigKey)
    } else if chars_eq_str(l, "typealias") {
        Some(NodeType::TypeAlias)
    } else if chars_eq_str(l, "macro") {
        Some(NodeType::Macro)
    } else if chars_eq_str(l, "import") {
        Some(NodeType::Import)
    } else if chars_eq_str(l, "table") {
        Some(NodeType::Table)
    } else if chars_eq_str(l, "dependency") {
        Some(NodeType::Dependency)
    } else if chars_eq_str(l, "job") {
        Some(NodeType::Job)
    } else if chars_eq_str(l, "buildstep") {
        Some(NodeType::BuildStep)
    } else if chars_eq_str(l, "ansibleplaybook") {
        Some(NodeType::AnsiblePlaybook)
    } else if chars_eq_str(l, "playbook") {
        Some(NodeType::AnsiblePlaybook)
    } else if chars_eq_str(l, "ansibleplay") {
        Some(NodeType::AnsiblePlay)
    } else if chars_eq_str(l, "ansibletask") {
        Some(NodeType::AnsibleTask)
    } else if chars_eq_str(l, "task") {
        Some(NodeType::AnsibleTask)
    } else if chars_eq_str(l, "ansiblerole") {
        Some(NodeType::AnsibleRole)
    } else if chars_eq_str(l, "role") {
        Some(NodeType::AnsibleRole)
    } else if chars_eq_str(l, "ansiblehandler") {
        Some(NodeType::AnsibleHandler)
    } else if chars_eq_str(l, "handler") {
        Some(NodeType::AnsibleHandler)
    } else if chars_eq_str(l, "ansiblevariable") {
        Some(NodeType::AnsibleVariable)
    } else if chars_eq_str(l, "ansibletemplate") {
        Some(NodeType::AnsibleTemplate)
    } else if chars_eq_str(l, "chefcookbook") {
        Some(NodeType::ChefCookbook)
    } else if chars_eq_str(l, "cookbook") {
        Some(NodeType::ChefCookbook)
    } else if chars_eq_str(l, "chefrecipe") {
        Some(NodeType::ChefRecipe)
    } else if chars_eq_str(l, "recipe") {
        Some(NodeType::ChefRecipe)
    } else if chars_eq_str(l, "chefresource") {
        Some(NodeType::ChefResource)
    } else if chars_eq_str(l, "resource") {
        Some(NodeType::ChefResource)
    } else if chars_eq_str(l, "chefattribute") {
        Some(NodeType::ChefAttribute)
    } else if chars_eq_str(l, "cheftemplate") {
        Some(NodeType::ChefTemplate)
    } else if chars_eq_str(l, "chefcustomresource") {
        Some(NodeType::ChefCustomResource)
    } else if chars_eq_str(l, "puppetmodule") {
        Some(NodeType::PuppetModule)
    } else if chars_eq_str(l, "puppetmodules") {
        Some(NodeType::PuppetModule)
    } else if chars_eq_str(l, "puppetclass") {
        Some(NodeType::PuppetClass)
    } else if chars_eq_str(l, "puppetclasses") {
        Some(NodeType::PuppetClass)
    } else if chars_eq_str(l, "puppetdefinedtype") {
        Some(NodeType::PuppetDefinedType)
    } else if chars_eq_str(l, "puppetresource") {
        Some(NodeType::PuppetResource)
    } else if chars_eq_str(l, "puppetvariable") {
        Some(NodeType::PuppetVariable)
    } else if chars_eq_str(l, "puppetfact") {
        Some(NodeType::PuppetFact)
    } else {
        None
    }
}

fn shortcut_type_exec(l: &Vec<char>) -> (r: Option<NodeType>)
    ensures
        r == shortcut_type(l@),
{
    if chars_eq_str(l, "functions") {
        Some(NodeType::Function)
    } else if chars_eq_str(l, "function") {
        Some(NodeType::Function)
    } else if chars_eq_str(l, "classes") {
        Some(NodeType::Class)
    } else if chars_eq_str(l, "class") {
        Some(NodeType::Class)
    } else if chars_eq_str(l, "structs") {
        Some(NodeType::Struct)
    } else if chars_eq_str(l, "struct") {
        Some(NodeType::Struct)
    } else if chars_eq_str(l, "files") {
        Some(NodeType::File)
    } else if chars_eq_str(l, "file") {
        Some(NodeType::File)
    } else if chars_eq_str(l, "config") {
        Some(NodeType::ConfigKey)
    } else if chars_eq_str(l, "configkeys") {
        Some(NodeType::ConfigKey)
    } else if chars_eq_str(l, "playbooks") {
        Some(NodeType::AnsiblePlaybook)
    } else if chars_eq_str(l, "ansibleplaybooks") {
        Some(NodeType::AnsiblePlaybook)
    } else if chars_eq_str(l, "ansibleroles") {
        Some(NodeType::AnsibleRole)
    } else if chars_eq_str(l, "roles") {
        Some(NodeType::AnsibleRole)
    } else if chars_eq_str(l, "cookbooks") {
        Some(NodeType::ChefCookbook)
    } else if chars_eq_str(l, "chefcookbooks") {
        Some(NodeType::ChefCookbook)
    } else if chars_eq_str(l, "chefrecipes") {
        Some(NodeType::ChefRecipe)
    } else if chars_eq_str(l, "recipes") {
        Some(NodeType::ChefRecipe)
    } else if chars_eq_str(l, "puppetmodules") {
        Some(NodeType::PuppetModule)
    } else if chars_eq_str(l, "modules") {
        Some(NodeType::PuppetModule)
    } else if chars_eq_str(l, "puppetclasses") {
        Some(NodeType::PuppetClass)
    } else {
        None
    }
}

/// Parse a node type name (any case).
pub fn parse_node_type(value: &str) -> (r: Result<NodeType, Error>)
    ensures
        match node_type_named(ascii_lowercase(value@)) {
            Some(t) => r == Ok::<NodeType, Error>(t),
            None => r matches Err(Error::InvalidQuery(m)) && m@ == unknown_type_message(ascii_lowercase(value@)),
        },
{
    let l = to_ascii_lowercase(value);
    match node_type_named_exec(&l) {
        Some(t) => Ok(t),
        None => {
            let ls = from_chars(l.as_slice());
            Err(Error::InvalidQuery(concat_str("Unknown node type: ", ls.as_str())))
        },
    }
}

/// The message for an unknown node type.
pub open spec fn unknown_type_message(lower: Seq<char>) -> Seq<char> {
    "Unknown node type: "@ + lower
}

/// How selective a clause usually is: lower ranks are evaluated first.
pub open spec fn rank_of(p: Seq<char>) -> nat {
    if "name:"@.is_prefix_of(p) {
        0
    } else if "signature:"@.is_prefix_of(p) {
        1
    } else if "module:"@.is_prefix_of(p) || "resource:"@.is_prefix_of(p) {
        2
    } else if "return_type:"@.is_prefix_of(p) {
        3
    } else if "repo:"@.is_prefix_of(p) {
        4
    } else if "type:"@.is_prefix_of(p) {
        5
    } else if "label:"@.is_prefix_of(p) {
        6
    } else if "name_suffix:"@.is_prefix_of(p) {
        7
    } else {
        8
    }
}

fn rank_chars(p: &Vec<char>) -> (r: usize)
    ensures
        r == rank_of(p@),
{
    if has_prefix(p.as_slice(), "name:") {
        0
    } else if has_prefix(p.as_slice(), "signature:") {
        1
    } else if has_prefix(p.as_slice(), "module:") || has_prefix(p.as_slice(), "resource:") {
        2
    } else if has_prefix(p.as_slice(), "return_type:") {
        3
    } else if has_prefix(p.as_slice(), "repo:") {
        4
    } else if has_prefix(p.as_slice(), "type:") {
        5
    } else if has_prefix(p.as_slice(), "label:") {
        6
    } else if has_prefix(p.as_slice(), "name_suffix:") {
        7
    } else {
        8
    }
}

/// Selectivity rank of a clause of a conjunction (see [`rank_of`]).
pub fn selectivity_rank(part: &str) -> (r: usize)
    ensures
        r == rank_of(part@),
{
    let cs = to_chars(part);
    rank_chars(&cs)
}

/// `pattern` with `*` wildcards matches `text`: without `*` it must occur
/// in `text`; otherwise the first piece must start it, the last end the rest
/// of it, and the pieces between must occur in order.
pub open spec fn wildcard_match(pattern: Seq<char>, text: Seq<char>) -> bool {
    let parts = split_on(pattern, '*');
    if parts.len() == 1 {
        find_from(text, parts[0], 0) is Some
    } else {
        wild_from(parts, text, 0, 0)
    }
}

/// Matching pieces `i..` of a wildcard pattern against `text` from `start` on.
pub open spec fn wild_from(parts: Seq<Seq<char>>, text: Seq<char>, i: int, start: int) -> bool
    decreases parts.len() - i,
{
    if i < 0 || i >= parts.len() {
        true
    } else {
        let part = parts[i];
        if part.len() == 0 {
            wild_from(parts, text, i + 1, start)
        } else if i == 0 {
            if part.is_prefix_of(text) {
                wild_from(parts, text, 1, part.len() as int)
            } else {
                false
            }
        } else if i == parts.len() - 1 {
            part.is_suffix_of(text.skip(start))
        } else {
            match find_from(text.skip(start), part, 0) {
                Some(pos) => wild_from(parts, text, i + 1, start + pos + part.len()),
                None => false,
            }
        }
    }
}

/// Whether a signature matches a pattern with `*` wildcards (see [`wildcard_match`]).
pub fn signature_wildcard_match(pattern: &str, text: &str) -> (b: bool)
    ensures
        b == wildcard_match(pattern@, text@),
{
    let pc = to_chars(pattern);
    let tc = to_chars(text);
    let parts = split_chars(pc.as_slice(), '*');
    let ghost ps = parts@.map_values(|v: Vec<char>| v@);
    proof {
        crate::text::lemma_split_on_nonempty(pc@, '*');
    }
    if parts.len() == 1 {
        proof {
            assert(ps[0] == parts@[0]@);
        }
        return find_chars_from(tc.as_slice(), parts[0].as_slice(), 0).is_some();
    }
    let mut start: usize = 0;
    let mut i: usize = 0;
    while i < parts.len()
        invariant
            ps == parts@.map_values(|v: Vec<char>| v@),
            ps == split_on(pattern@, '*'),
            tc@ == text@,
            ps.len() > 1,
            i <= ps.len(),
            start <= tc@.len(),
            wild_from(ps, text@, 0, 0) == wild_from(ps, text@, i as int, start as int),
        decreases ps.len() - i,
    {
        let part = &parts[i];
        proof {
            assert(ps[i as int] == part@);
        }
        if part.len() == 0 {
            i = i + 1;
        } else if i == 0 {
            if !has_prefix_chars(tc.as_slice(), part.as_slice()) {
                return false;
            }
            start = part.len();
            i = i + 1;
        } else if i == parts.len() - 1 {
            let rest = tail_from(&tc, start);
            let r = ends_with_chars(rest.as_slice(), part.as_slice());
            return r;
        } else {
            let rest = tail_from(&tc, start);
            match find_chars_from(rest.as_slice(), part.as_slice(), 0) {
                Some(pos) => {
                    proof {
                        crate::text::lemma_find_from_occurs(rest@, part@, 0);
                        assert(tc@.len() == tc.len());
                    }
                    start = start + pos + part.len();
                    i = i + 1;
                },
                None => {
                    return false;
                },
            }
        }
    }
    true
}

/// `pat` begins `cs`.
fn has_prefix_chars(cs: &[char], pat: &[char]) -> (b: bool)
    ensures
        b == pat@.is_prefix_of(cs@),
{
    let r = crate::text::matches_at(cs, 0, pat);
    proof {
        if r {
            assert(pat@ =~= cs@.subrange(0, pat@.len() as int));
        }
        if pat@.is_prefix_of(cs@) {
            assert(cs@.subrange(0, pat@.len() as int) =~= pat@);
        }
    }
    r
}

/// The characters of `cs` from `start` on.
fn tail_from(cs: &Vec<char>, start: usize) -> (r: Vec<char>)
    requires
        start <= cs@.len(),
    ensures
        r@ == cs@.skip(start as int),
{
    let mut r: Vec<char> = Vec::new();
    let mut k: usize = start;
    while k < cs.len()
        invariant
            start <= k <= cs@.len(),
            r@ == cs@.subrange(start as int, k as int),
        decreases cs@.len() - k,
    {
        r.push(cs[k]);
        proof {
            assert(cs@.subrange(start as int, k + 1) =~= cs@.subrange(start as int, k as int).push(cs@[k as int]));
        }
        k = k + 1;
    }
    proof {
        assert(r@ =~= cs@.skip(start as int));
    }
    r
}

/// A parsed clause, as plain values.
pub enum ClauseView {
    All,
    Property(Seq<char>, Seq<char>),
    PropertyNoCase(Seq<char>, Seq<char>),
    Type(NodeType),
    Name(Seq<char>),
    Label(Seq<char>),
    NameSuffix(Seq<char>),
    Signature(Seq<char>),
    ReturnType(Seq<char>),
    Text(Seq<char>),
}

/// One clause of a query.
#[derive(Clone, Debug)]
pub enum Clause {
    /// Every node.
    All,
    /// Property `key` equals the value.
    Property(String, String),
    /// Property `key` equals the value, ignoring ASCII case.
    PropertyNoCase(String, String),
    /// Nodes of a type.
    Type(NodeType),
    /// Nodes with exactly this name.
    Name(String),
    /// Nodes with this label.
    Label(String),
    /// Nodes whose name ends with this suffix.
    NameSuffix(String),
    /// Nodes whose signature matches this wildcard pattern.
    Signature(String),
    /// Nodes whose return type starts with this prefix.
    ReturnType(String),
    /// Nodes whose name contains this text.
    Text(String),
}

/// The plain values of a clause.
pub open spec fn clause_view(c: Clause) -> ClauseView {
    match c {
        Clause::All => ClauseView::All,
        Clause::Property(k, v) => ClauseView::Property(k@, v@),
        Clause::PropertyNoCase(k, v) => ClauseView::PropertyNoCase(k@, v@),
        Clause::Type(t) => ClauseView::Type(t),
        Clause::Name(s) => ClauseView::Name(s@),
        Clause::Label(s) => ClauseView::Label(s@),
        Clause::NameSuffix(s) => ClauseView::NameSuffix(s@),
        Clause::Signature(s) => ClauseView::Signature(s@),
        Clause::ReturnType(s) => ClauseView::ReturnType(s@),
        Clause::Text(s) => ClauseView::Text(s@),
    }
}

/// The clause a query part denotes, or the error message for it. Within a
/// conjunction, `module:` and `resource:` compare exactly; alone, ignoring case.
pub open spec fn parse_clause_spec(part: Seq<char>, compound: bool) -> Result<ClauseView, Seq<char>> {
    let t = trimmed(part);
    let l = ascii_lowercase(t);
    if t.len() == 0 || l == "all"@ {
        Ok(ClauseView::All)
    } else if "repo:"@.is_prefix_of(t) {
        Ok(ClauseView::Property("repo"@, t.skip(5)))
    } else if "type:"@.is_prefix_of(t) {
        match node_type_named(ascii_lowercase(t.skip(5))) {
            Some(nt) => Ok(ClauseView::Type(nt)),
            None => Err(unknown_type_message(ascii_lowercase(t.skip(5)))),
        }
    } else if "name:"@.is_prefix_of(t) {
        Ok(ClauseView::Name(t.skip(5)))
    } else if "label:"@.is_prefix_of(t) {
        Ok(ClauseView::Label(t.skip(6)))
    } else if "name_suffix:"@.is_prefix_of(t) {
        Ok(ClauseView::NameSuffix(t.skip(12)))
    } else if "signature:"@.is_prefix_of(t) {
        Ok(ClauseView::Signature(t.skip(10)))
    } else if "return_type:"@.is_prefix_of(t) {
        Ok(ClauseView::ReturnType(t.skip(12)))
    } else if "module:"@.is_prefix_of(t) {
        if compound {
            Ok(ClauseView::Property("module"@, t.skip(7)))
        } else {
            Ok(ClauseView::PropertyNoCase("module"@, t.skip(7)))
        }
    } else if "resource:"@.is_prefix_of(t) {
        if compound {
            Ok(ClauseView::Property("resource_type"@, t.skip(9)))
        } else {
            Ok(ClauseView::PropertyNoCase("resource_type"@, t.skip(9)))
        }
    } else {
        match shortcut_type(l) {
            Some(nt) => Ok(ClauseView::Type(nt)),
            None => Ok(ClauseView::Text(t)),
        }
    }
}

fn rest_string(t: &Vec<char>, n: usize) -> (s: String)
    requires
        n <= t@.len(),
    ensures
        s@ == t@.skip(n as int),
{
    let r = crate::text::string_of_range(t.as_slice(), n, t.len());
    proof {
        assert(t@.subrange(n as int, t@.len() as int) =~= t@.skip(n as int));
    }
    r
}

/// Parse one query part (see [`parse_clause_spec`]).
pub fn parse_clause(part: &str, compound: bool) -> (r: Result<Clause, Error>)
    ensures
        match parse_clause_spec(part@, compound) {
            Ok(cv) => r matches Ok(c) && clause_view(c) == cv,
            Err(m) => r matches Err(Error::InvalidQuery(e)) && e@ == m,
        },
{
    let pc = to_chars(part);
    let t = trim_chars(pc.as_slice());
    let ts = from_chars(t.as_slice());
    let l = to_ascii_lowercase(ts.as_str());
    proof {
        reveal_strlit("repo:");
        reveal_strlit("type:");
        reveal_strlit("name:");
        reveal_strlit("label:");
        reveal_strlit("name_suffix:");
        reveal_strlit("signature:");
        reveal_strlit("return_type:");
        reveal_strlit("module:");
        reveal_strlit("resource:");
    }
    if t.len() == 0 || chars_eq_str(&l, "all") {
        return Ok(Clause::All);
    }
    if has_prefix(t.as_slice(), "repo:") {
        return Ok(Clause::Property("repo".to_owned(), rest_string(&t, 5)));
    }
    if has_prefix(t.as_slice(), "type:") {
        let v = rest_string(&t, 5);
        return match parse_node_type(v.as_str()) {
            Ok(nt) => Ok(Clause::Type(nt)),
            Err(e) => Err(e),
        };
    }
    if has_prefix(t.as_slice(), "name:") {
        return Ok(Clause::Name(rest_string(&t, 5)));
    }
    if has_prefix(t.as_slice(), "label:") {
        return Ok(Clause::Label(rest_string(&t, 6)));
    }
    if has_prefix(t.as_slice(), "name_suffix:") {
        return Ok(Clause::NameSuffix(rest_string(&t, 12)));
    }
    if has_prefix(t.as_slice(), "signature:") {
        return Ok(Clause::Signature(rest_string(&t, 10)));
    }
    if has_prefix(t.as_slice(), "return_type:") {
        return Ok(Clause::ReturnType(rest_string(&t, 12)));
    }
    if has_prefix(t.as_slice(), "module:") {
        let v = rest_string(&t, 7);
        return if compound {
            Ok(Clause::Property("module".to_owned(), v))
        } else {
            Ok(Clause::PropertyNoCase("module".to_owned(), v))
        };
    }
    if has_prefix(t.as_slice(), "resource:") {
        let v = rest_string(&t, 9);
        return if compound {
            Ok(Clause::Property("resource_type".to_owned(), v))
        } else {
            Ok(Clause::PropertyNoCase("resource_type".to_owned(), v))
        };
    }
    match shortcut_type_exec(&l) {
        Some(nt) => Ok(Clause::Type(nt)),
        None => Ok(Clause::Text(ts)),
    }
}

/// Whether a node satisfies a clause.
pub open spec fn clause_matches(n: Node, c: ClauseView) -> bool {
    match c {
        ClauseView::All => true,
        ClauseView::Property(k, v) => n.property(k) == Some(v),
        ClauseView::PropertyNoCase(k, v) => n.property(k) matches Some(x) && ascii_lowercase(x) == ascii_lowercase(v),
        ClauseView::Type(t) => n.node_type == t,
        ClauseView::Name(s) => n.name@ == s,
        ClauseView::Label(l) => exists|i: int| 0 <= i < n.labels@.len() && n.labels@[i]@ == l,
        ClauseView::NameSuffix(s) => s.is_suffix_of(n.name@),
        ClauseView::Signature(p) => n.signature matches Some(sg) && wildcard_match(p, sg@),
        ClauseView::ReturnType(p) => n.return_type matches Some(rt) && p.is_prefix_of(rt@),
        ClauseView::Text(t) => find_from(n.name@, t, 0) is Some,
    }
}

fn lower_eq(a: &str, b: &str) -> (r: bool)
    ensures
        r == (ascii_lowercase(a@) == ascii_lowercase(b@)),
{
    let la = to_ascii_lowercase(a);
    let lb = to_ascii_lowercase(b);
    let lbs = from_chars(lb.as_slice());
    chars_eq_str(&la, lbs.as_str())
}

/// Whether `node` satisfies `clause`.
pub fn node_matches(node: &Node, clause: &Clause) -> (r: bool)
    ensures
        r == clause_matches(*node, clause_view(*clause)),
{
    match clause {
        Clause::All => true,
        Clause::Property(k, v) => match node.get_property(k.as_str()) {
            Some(x) => crate::text::str_eq(x.as_str(), v.as_str()),
            None => false,
        },
        Clause::PropertyNoCase(k, v) => match node.get_property(k.as_str()) {
            Some(x) => lower_eq(x.as_str(), v.as_str()),
            None => false,
        },
        Clause::Type(t) => node.node_type == *t,
        Clause::Name(s) => crate::text::str_eq(node.name.as_str(), s.as_str()),
        Clause::Label(l) => {
            let mut i: usize = 0;
            while i < node.labels.len()
                invariant
                    i <= node.labels@.len(),
                    clause_view(*clause) == ClauseView::Label(l@),
                    forall|j: int| 0 <= j < i ==> node.labels@[j]@ != l@,
                decreases node.labels@.len() - i,
            {
                if crate::text::str_eq(node.labels[i].as_str(), l.as_str()) {
                    proof {
                        assert(node.labels@[i as int]@ == l@);
                    }
                    return true;
                }
                i = i + 1;
            }
            false
        },
        Clause::NameSuffix(s) => {
            let nc = to_chars(node.name.as_str());
            let sc = to_chars(s.as_str());
            ends_with_chars(nc.as_slice(), sc.as_slice())
        },
        Clause::Signature(p) => match &node.signature {
            Some(sg) => signature_wildcard_match(p.as_str(), sg.as_str()),
            None => false,
        },
        Clause::ReturnType(p) => match &node.return_type {
            Some(rt) => {
                let rc = to_chars(rt.as_str());
                let pc = to_chars(p.as_str());
                has_prefix_chars(rc.as_slice(), pc.as_slice())
            },
            None => false,
        },
        Clause::Text(t) => {
            let nc = to_chars(node.name.as_str());
            let tc = to_chars(t.as_str());
            find_chars_from(nc.as_slice(), tc.as_slice(), 0).is_some()
        },
    }
}

/// An in-memory graph store: nodes and edges in insertion order.
pub struct MemoryBackend {
    nodes: Vec<Node>,
    edges: Vec<Edge>,
}

impl MemoryBackend {
    /// The stored nodes.
    pub closed spec fn node_seq(&self) -> Seq<Node> {
        self.nodes@
    }

    /// The stored edges.
    pub closed spec fn edge_seq(&self) -> Seq<Edge> {
        self.edges@
    }

    /// An empty store.
    pub fn new() -> (b: Self)
        ensures
            b.node_seq().len() == 0,
            b.edge_seq().len() == 0,
    {
        MemoryBackend { nodes: Vec::new(), edges: Vec::new() }
    }

    /// Add a node.
    pub fn insert_node(&mut self, node: Node)
        ensures
            final(self).node_seq() == old(self).node_seq().push(node),
            final(self).edge_seq() == old(self).edge_seq(),
    {
        self.nodes.push(node);
    }

    /// Add an edge.
    pub fn insert_edge(&mut self, edge: Edge)
        ensures
            final(self).node_seq() == old(self).node_seq(),
            final(self).edge_seq() == old(self).edge_seq().push(edge),
    {
        self.edges.push(edge);
    }

    /// Number of nodes.
    pub fn node_count(&self) -> (n: usize)
        ensures
            n == self.node_seq().len(),
    {
        self.nodes.len()
    }

    /// Number of edges.
    pub fn edge_count(&self) -> (n: usize)
        ensures
            n == self.edge_seq().len(),
    {
        self.edges.len()
    }

    /// The nodes, in insertion order.
    pub fn nodes(&self) -> (r: &[Node])
        ensures
            r@ == self.node_seq(),
    {
        self.nodes.as_slice()
    }

    /// The edges, in insertion order.
    pub fn edges(&self) -> (r: &[Edge])
        ensures
            r@ == self.edge_seq(),
    {
        self.edges.as_slice()
    }
}

/// Positions of the nodes that satisfy a clause.
pub open spec fn positions_of(nodes: Seq<Node>, c: ClauseView) -> Set<int> {
    Set::new(|k: int| 0 <= k < nodes.len() && clause_matches(nodes[k], c))
}

/// Every position.
pub open spec fn all_positions(nodes: Seq<Node>) -> Set<int> {
    Set::new(|k: int| 0 <= k < nodes.len())
}

/// The parts of rank `r`, in order.
pub open spec fn rank_filter(parts: Seq<Seq<char>>, r: nat) -> Seq<Seq<char>>
    decreases parts.len(),
{
    if parts.len() == 0 {
        parts
    } else {
        let rest = rank_filter(parts.drop_last(), r);
        if rank_of(parts.last()) == r {
            rest.push(parts.last())
        } else {
            rest
        }
    }
}

/// The parts of ranks below `r`, rank by rank, each rank in its given order.
pub open spec fn ranked_upto(parts: Seq<Seq<char>>, r: nat) -> Seq<Seq<char>>
    decreases r,
{
    if r == 0 {
        Seq::empty()
    } else {
        ranked_upto(parts, (r - 1) as nat) + rank_filter(parts, (r - 1) as nat)
    }
}

/// The parts of a conjunction, most selective first (a stable sort by rank).
pub open spec fn ranked(parts: Seq<Seq<char>>) -> Seq<Seq<char>> {
    ranked_upto(parts, 9)
}

/// The non-empty trimmed `|`-separated parts of a conjunction.
pub open spec fn compound_parts(t: Seq<char>) -> Seq<Seq<char>> {
    nonempty_pieces(split_on(t, '|').map_values(|p: Seq<char>| trimmed(p)))
}

/// Evaluate parts `i..` of a conjunction, narrowing `current`; evaluation
/// stops once the set is empty after the second part, and a part that does
/// not parse is an error when it is reached.
pub open spec fn run_parts(nodes: Seq<Node>, parts: Seq<Seq<char>>, i: int, current: Set<int>) -> Result<Set<int>, Seq<char>>
    decreases parts.len() - i,
{
    if i < 0 || i >= parts.len() {
        Ok(current)
    } else if i >= 2 && current == Set::<int>::empty() {
        Ok(current)
    } else {
        match parse_clause_spec(parts[i], true) {
            Err(m) => Err(m),
            Ok(c) => run_parts(nodes, parts, i + 1, current.intersect(positions_of(nodes, c))),
        }
    }
}

/// The positions a query selects, or its error message.
pub open spec fn query_positions(nodes: Seq<Node>, query: Seq<char>) -> Result<Set<int>, Seq<char>> {
    let t = trimmed(query);
    if t.len() == 0 || ascii_lowercase(t) == "all"@ {
        Ok(all_positions(nodes))
    } else if t.contains('|') {
        let parts = compound_parts(t);
        if parts.len() == 0 {
            Ok(all_positions(nodes))
        } else {
            run_parts(nodes, ranked(parts), 0, all_positions(nodes))
        }
    } else {
        match parse_clause_spec(t, false) {
            Err(m) => Err(m),
            Ok(c) => Ok(positions_of(nodes, c)),
        }
    }
}

/// Node `k` matches every part of `parts` (each parsed as a compound part).
pub open spec fn matches_all_parts(nodes: Seq<Node>, parts: Seq<Seq<char>>, k: int) -> bool {
    forall|p: Seq<char>|
        #![trigger parts.contains(p)]
        parts.contains(p) ==> (parse_clause_spec(p, true) matches Ok(c) && clause_matches(nodes[k], c))
}

proof fn lemma_rank_filter_contains(parts: Seq<Seq<char>>, r: nat, p: Seq<char>)
    ensures
        rank_filter(parts, r).contains(p) <==> (parts.contains(p) && rank_of(p) == r),
    decreases parts.len(),
{
    if parts.len() > 0 {
        lemma_rank_filter_contains(parts.drop_last(), r, p);
        let rest = rank_filter(parts.drop_last(), r);
        assert(parts =~= parts.drop_last().push(parts.last()));
        if parts.contains(p) && rank_of(p) == r {
            let i = choose|i: int| 0 <= i < parts.len() && parts[i] == p;
            if i < parts.len() - 1 {
                assert(parts.drop_last()[i] == p);
            }
        }
        if rank_of(parts.last()) == r {
            assert(rest.push(parts.last())[rest.len() as int] == parts.last());
            if rest.push(parts.last()).contains(p) {
                let j = choose|j: int| 0 <= j < rest.len() + 1 && rest.push(parts.last())[j] == p;
                if j < rest.len() {
                    assert(rest[j] == p);
                }
            }
            if rest.contains(p) {
                let j = choose|j: int| 0 <= j < rest.len() && rest[j] == p;
                assert(rest.push(parts.last())[j] == p);
            }
        }
        if parts.drop_last().contains(p) {
            let j = choose|j: int| 0 <= j < parts.len() - 1 && parts.drop_last()[j] == p;
            assert(parts[j] == p);
        }
    }
}

proof fn lemma_ranked_upto_contains(parts: Seq<Seq<char>>, r: nat, p: Seq<char>)
    ensures
        ranked_upto(parts, r).contains(p) <==> (parts.contains(p) && rank_of(p) < r),
    decreases r,
{
    if r > 0 {
        let a = ranked_upto(parts, (r - 1) as nat);
        let b = rank_filter(parts, (r - 1) as nat);
        lemma_ranked_upto_contains(parts, (r - 1) as nat, p);
        lemma_rank_filter_contains(parts, (r - 1) as nat, p);
        if (a + b).contains(p) {
            let j = choose|j: int| 0 <= j < (a + b).len() && (a + b)[j] == p;
            if j < a.len() {
                assert(a[j] == p);
            } else {
                assert(b[j - a.len()] == p);
            }
        }
        if a.contains(p) {
            let j = choose|j: int| 0 <= j < a.len() && a[j] == p;
            assert((a + b)[j] == p);
        }
        if b.contains(p) {
            let j = choose|j: int| 0 <= j < b.len() && b[j] == p;
            assert((a + b)[a.len() + j] == p);
        }
    } else {
        assert(ranked_upto(parts, 0) =~= Seq::<Seq<char>>::empty());
    }
}

/// Evaluating parts `i..` within `current` keeps exactly the positions of
/// `current` that match every part from `i` on.
proof fn lemma_run_parts_intersects(nodes: Seq<Node>, parts: Seq<Seq<char>>, i: int, current: Set<int>)
    requires
        0 <= i <= parts.len(),
        forall|j: int| 0 <= j < parts.len() ==> parse_clause_spec(#[trigger] parts[j], true) is Ok,
        forall|k: int| #[trigger] current.contains(k) ==> 0 <= k < nodes.len(),
    ensures
        run_parts(nodes, parts, i, current) matches Ok(s) && forall|k: int|
            s.contains(k) <==> (current.contains(k) && forall|j: int|
                i <= j < parts.len() ==> clause_matches(nodes[k], #[trigger] parse_clause_spec(parts[j], true)->Ok_0)),
    decreases parts.len() - i,
{
    if i < parts.len() {
        if i >= 2 && current == Set::<int>::empty() {
        } else {
            let c = parse_clause_spec(parts[i], true)->Ok_0;
            let next = current.intersect(positions_of(nodes, c));
            lemma_run_parts_intersects(nodes, parts, i + 1, next);
            let s = run_parts(nodes, parts, i + 1, next)->Ok_0;
            assert forall|k: int| s.contains(k) <==> (current.contains(k) && forall|j: int|
                i <= j < parts.len() ==> clause_matches(nodes[k], #[trigger] parse_clause_spec(parts[j], true)->Ok_0)) by {
                if current.contains(k) && forall|j: int|
                    i <= j < parts.len() ==> clause_matches(nodes[k], #[trigger] parse_clause_spec(parts[j], true)->Ok_0) {
                    assert(clause_matches(nodes[k], parse_clause_spec(parts[i], true)->Ok_0));
                }
            }
        }
    }
}

/// `p` is one clause of a query (no `|`) that parses, and parses alike alone
/// and within a compound query (which leaves out `module:` and `resource:`
/// clauses). It may have surrounding whitespace or be empty.
pub open spec fn single_clause(p: Seq<char>) -> bool {
    &&& !p.contains('|')
    &&& parse_clause_spec(p, true) is Ok
    &&& parse_clause_spec(p, true) == parse_clause_spec(p, false)
}

/// A clause parses as its trim does.
proof fn lemma_parse_trimmed(p: Seq<char>, compound: bool)
    ensures
        parse_clause_spec(trimmed(p), compound) == parse_clause_spec(p, compound),
{
    lemma_trim_again(p);
}

/// The trim of a text without `|` has none either.
proof fn lemma_trimmed_no_bar(p: Seq<char>)
    requires
        !p.contains('|'),
    ensures
        !trimmed(p).contains('|'),
        !trim_start_ws(p).contains('|'),
        !trim_end_ws(p).contains('|'),
{
    let (w1, w2) = lemma_trimmed_shape(p);
    lemma_trim_start_shape(p);
    lemma_trim_end_shape(p);
    let t = trimmed(p);
    if t.contains('|') {
        let i = choose|i: int| 0 <= i < t.len() && t[i] == '|';
        assert(p[w1.len() + i] == t[i]);
    }
    let a = p.len() - trim_start_ws(p).len();
    if trim_start_ws(p).contains('|') {
        let i = choose|i: int| 0 <= i < trim_start_ws(p).len() && trim_start_ws(p)[i] == '|';
        assert(p[a + i] == '|');
    }
    if trim_end_ws(p).contains('|') {
        let i = choose|i: int| 0 <= i < trim_end_ws(p).len() && trim_end_ws(p)[i] == '|';
        assert(p[i] == '|');
    }
}

/// The query `p|q` of two single clauses trims to the start-trimmed `p`, a
/// bar and the end-trimmed `q`, and its parts are the non-empty trims of `p`
/// and `q`.
proof fn lemma_two_clause_parts(p: Seq<char>, q: Seq<char>)
    requires
        !p.contains('|'),
        !q.contains('|'),
    ensures
        trimmed(p + seq!['|'] + q).contains('|'),
        forall|x: Seq<char>| #[trigger] compound_parts(trimmed(p + seq!['|'] + q)).contains(x) ==> x == trimmed(p) || x
            == trimmed(q),
        trimmed(p).len() > 0 ==> compound_parts(trimmed(p + seq!['|'] + q)).contains(trimmed(p)),
        trimmed(q).len() > 0 ==> compound_parts(trimmed(p + seq!['|'] + q)).contains(trimmed(q)),
{
    let s = p + seq!['|'] + q;
    let sp = trim_start_ws(p);
    let eq = trim_end_ws(q);
    lemma_trim_start_shape(p);
    lemma_trim_end_shape(q);
    lemma_trimmed_no_bar(p);
    lemma_trimmed_no_bar(q);
    let a = p.len() - sp.len();
    let b = eq.len() as int;
    // leading whitespace of `p` goes, the rest starts with non-whitespace
    assert(p =~= p.take(a) + sp);
    let rest = sp + seq!['|'] + q;
    assert(s =~= p.take(a) + rest);
    assert(rest[0] == if sp.len() > 0 { sp[0] } else { '|' });
    assert(!unicode_whitespace('|'));
    lemma_trim_start_after(p.take(a), rest);
    // trailing whitespace of `q` goes, the rest ends with non-whitespace
    let t = sp + seq!['|'] + eq;
    assert(q =~= eq + q.skip(b));
    assert(rest =~= t + q.skip(b));
    assert(t.last() == if eq.len() > 0 { eq.last() } else { '|' });
    lemma_trim_end_before(t, q.skip(b));
    assert(trimmed(s) == t);
    assert(t[sp.len() as int] == '|');
    // its pieces
    lemma_split_on_append(Seq::<char>::empty(), sp, '|');
    assert(Seq::<char>::empty() + sp =~= sp);
    assert(split_on(Seq::<char>::empty(), '|') == seq![Seq::<char>::empty()]);
    assert(seq![Seq::<char>::empty()].update(0, sp) =~= seq![sp]);
    lemma_split_on_sep_append(sp, eq, '|');
    assert(split_on(t, '|') =~= seq![sp, eq]);
    lemma_trim_again(p);
    lemma_trim_again(q);
    let tp = trimmed(p);
    let tq = trimmed(q);
    assert(seq![sp, eq].map_values(|x: Seq<char>| trimmed(x)) =~= seq![tp, tq]);
    let one = nonempty_pieces(seq![tp]);
    assert(seq![tp, tq].drop_last() =~= seq![tp]);
    assert(seq![tp, tq].last() == tq);
    assert(seq![tp].drop_last() =~= Seq::<Seq<char>>::empty());
    assert(seq![tp].last() == tp);
    assert(nonempty_pieces(Seq::<Seq<char>>::empty()) == Seq::<Seq<char>>::empty());
    let parts = compound_parts(t);
    assert(parts == if tq.len() > 0 { one.push(tq) } else { one });
    assert(one == if tp.len() > 0 { Seq::<Seq<char>>::empty().push(tp) } else { Seq::<Seq<char>>::empty() });
    assert forall|x: Seq<char>| #[trigger] parts.contains(x) implies x == tp || x == tq by {
        let i = choose|i: int| 0 <= i < parts.len() && parts[i] == x;
        if tq.len() > 0 && i == parts.len() - 1 {
        } else {
            assert(one[i] == x);
        }
    }
    if tp.len() > 0 {
        assert(one[0] == tp);
        assert(parts[0] == tp);
    }
    if tq.len() > 0 {
        assert(parts[parts.len() - 1] == tq);
    }
}

/// A single clause alone selects the nodes that match it.
proof fn lemma_single_clause_alone(nodes: Seq<Node>, p: Seq<char>)
    requires
        single_clause(p),
    ensures
        query_positions(nodes, p) == Ok::<Set<int>, Seq<char>>(positions_of(nodes, parse_clause_spec(p, true)->Ok_0)),
{
    let t = trimmed(p);
    lemma_parse_trimmed(p, true);
    lemma_parse_trimmed(p, false);
    lemma_trimmed_no_bar(p);
    if t.len() == 0 || ascii_lowercase(t) == "all"@ {
        assert(parse_clause_spec(p, true) == Ok::<ClauseView, Seq<char>>(ClauseView::All));
        assert(positions_of(nodes, ClauseView::All) =~= all_positions(nodes));
    }
}

/// Law: a query of two clauses joined by `|` selects exactly the nodes that
/// both clauses select as single queries, in either order. The clauses may
/// carry surrounding whitespace or be empty (an empty one selects all).
pub proof fn lemma_two_clause_query_is_intersection(nodes: Seq<Node>, p: Seq<char>, q: Seq<char>)
    requires
        single_clause(p),
        single_clause(q),
    ensures
        query_positions(nodes, p) matches Ok(ps) && query_positions(nodes, q) matches Ok(qs)
            && query_positions(nodes, p + seq!['|'] + q) == Ok::<Set<int>, Seq<char>>(ps.intersect(qs))
            && query_positions(nodes, q + seq!['|'] + p) == Ok::<Set<int>, Seq<char>>(ps.intersect(qs)),
{
    lemma_single_clause_alone(nodes, p);
    lemma_single_clause_alone(nodes, q);
    lemma_two_clause_half(nodes, p, q);
    lemma_two_clause_half(nodes, q, p);
    let ps = positions_of(nodes, parse_clause_spec(p, true)->Ok_0);
    let qs = positions_of(nodes, parse_clause_spec(q, true)->Ok_0);
    assert(qs.intersect(ps) =~= ps.intersect(qs));
}

/// The ids of `ns`, in order.
pub open spec fn node_ids(ns: Seq<Node>) -> Seq<u128> {
    ns.map_values(|x: Node| x.id)
}

/// The ids of the nodes at positions `s`.
pub open spec fn ids_at(nodes: Seq<Node>, s: Set<int>) -> Set<u128> {
    Set::new(|x: u128| exists|k: int| 0 <= k < nodes.len() && s.contains(k) && #[trigger] nodes[k].id == x)
}

/// No two nodes of `nodes` share an id.
pub open spec fn ids_distinct(nodes: Seq<Node>) -> bool {
    forall|i: int, j: int| 0 <= i < nodes.len() && 0 <= j < nodes.len() && #[trigger] nodes[i].id == #[trigger] nodes[j].id ==> i == j
}

/// The ids of the selected nodes are the ids at the selected positions.
proof fn lemma_selected_ids(nodes: Seq<Node>, s: Set<int>, x: u128)
    ensures
        node_ids(select_nodes(nodes, s)).contains(x) <==> ids_at(nodes, s).contains(x),
    decreases nodes.len(),
{
    if nodes.len() == 0 {
        assert(node_ids(select_nodes(nodes, s)).len() == 0);
    } else {
        let pre = nodes.drop_last();
        let last = nodes.len() - 1;
        lemma_selected_ids(pre, s, x);
        let rest = select_nodes(pre, s);
        let ri = node_ids(rest);
        assert(nodes[last] == nodes.last());
        // the ids at positions below the last are those of `pre`
        let below = ids_at(nodes, s).contains(x) && !(s.contains(last) && nodes[last].id == x);
        if below {
            let k = choose|k: int| 0 <= k < nodes.len() && s.contains(k) && #[trigger] nodes[k].id == x;
            assert(k != last);
            assert(pre[k] == nodes[k]);
            assert(ids_at(pre, s).contains(x));
        }
        if ids_at(pre, s).contains(x) {
            let k = choose|k: int| 0 <= k < pre.len() && s.contains(k) && #[trigger] pre[k].id == x;
            assert(nodes[k] == pre[k]);
            assert(ids_at(nodes, s).contains(x));
        }
        if s.contains(last) {
            assert(select_nodes(nodes, s) == rest.push(nodes.last()));
            let sel = node_ids(rest.push(nodes.last()));
            assert(sel =~= ri.push(nodes.last().id));
            if ri.contains(x) {
                let i = choose|i: int| 0 <= i < ri.len() && ri[i] == x;
                assert(sel[i] == x);
            }
            if nodes.last().id == x {
                assert(sel[ri.len() as int] == x);
                assert(ids_at(nodes, s).contains(x));
            }
            if sel.contains(x) {
                let i = choose|i: int| 0 <= i < sel.len() && sel[i] == x;
                if i < ri.len() {
                    assert(ri[i] == x);
                }
            }
        } else {
            assert(select_nodes(nodes, s) == rest);
        }
    }
}

/// Law: in a store where no two nodes share an id, the ids that a query of
/// two clauses joined by `|` returns (`execute_node_ids`) are the ids that
/// both clauses return as single queries, in either order.
pub proof fn lemma_two_clause_query_ids(nodes: Seq<Node>, p: Seq<char>, q: Seq<char>, x: u128)
    requires
        single_clause(p),
        single_clause(q),
        ids_distinct(nodes),
    ensures
        query_positions(nodes, p) matches Ok(ps) && query_positions(nodes, q) matches Ok(qs) && query_positions(
            nodes,
            p + seq!['|'] + q,
        ) matches Ok(pqs) && query_positions(nodes, q + seq!['|'] + p) matches Ok(qps) && {
            let ids = |s: Set<int>| node_ids(select_nodes(nodes, s));
            &&& ids(pqs).contains(x) <==> (ids(ps).contains(x) && ids(qs).contains(x))
            &&& ids(qps).contains(x) <==> (ids(ps).contains(x) && ids(qs).contains(x))
        },
{
    lemma_two_clause_query_is_intersection(nodes, p, q);
    let ps = query_positions(nodes, p)->Ok_0;
    let qs = query_positions(nodes, q)->Ok_0;
    let both = ps.intersect(qs);
    lemma_selected_ids(nodes, ps, x);
    lemma_selected_ids(nodes, qs, x);
    lemma_selected_ids(nodes, both, x);
    if ids_at(nodes, ps).contains(x) && ids_at(nodes, qs).contains(x) {
        let i = choose|k: int| 0 <= k < nodes.len() && ps.contains(k) && #[trigger] nodes[k].id == x;
        let j = choose|k: int| 0 <= k < nodes.len() && qs.contains(k) && #[trigger] nodes[k].id == x;
        assert(i == j);
        assert(both.contains(i));
    }
    if ids_at(nodes, both).contains(x) {
        let i = choose|k: int| 0 <= k < nodes.len() && both.contains(k) && #[trigger] nodes[k].id == x;
        assert(ids_at(nodes, ps).contains(x) && ids_at(nodes, qs).contains(x));
    }
}

/// One order of the two-clause law.
proof fn lemma_two_clause_half(nodes: Seq<Node>, p: Seq<char>, q: Seq<char>)
    requires
        single_clause(p),
        single_clause(q),
    ensures
        query_positions(nodes, p + seq!['|'] + q) == Ok::<Set<int>, Seq<char>>(
            positions_of(nodes, parse_clause_spec(p, true)->Ok_0).intersect(positions_of(nodes, parse_clause_spec(q, true)->Ok_0)),
        ),
{
    let s = p + seq!['|'] + q;
    let tp = trimmed(p);
    let tq = trimmed(q);
    let cp = parse_clause_spec(p, true)->Ok_0;
    let cq = parse_clause_spec(q, true)->Ok_0;
    lemma_two_clause_parts(p, q);
    lemma_parse_trimmed(p, true);
    lemma_parse_trimmed(q, true);
    let parts = compound_parts(trimmed(s));
    assert forall|x: Seq<char>|
        #![trigger parts.contains(x)]
        parts.contains(x) implies parse_clause_spec(x, true) is Ok by {}
    lemma_compound_query_is_intersection(nodes, s);
    let r = query_positions(nodes, s)->Ok_0;
    let want = positions_of(nodes, cp).intersect(positions_of(nodes, cq));
    assert forall|k: int| r.contains(k) <==> want.contains(k) by {
        if 0 <= k < nodes.len() {
            if tp.len() > 0 {
                assert(parts.contains(tp));
            } else {
                assert(cp == ClauseView::All);
            }
            if tq.len() > 0 {
                assert(parts.contains(tq));
            } else {
                assert(cq == ClauseView::All);
            }
        }
    }
    assert(r =~= want);
}

/// Law: a `name:` query selects exactly the nodes whose name is the text
/// after `name:`, character for character (no prefix or partial match). The
/// text must not contain `|` (that would make a compound query) nor end in
/// whitespace (which the query trims away).
pub proof fn lemma_name_query_is_exact(nodes: Seq<Node>, name: Seq<char>)
    requires
        !name.contains('|'),
        name.len() == 0 || !unicode_whitespace(name.last()),
    ensures
        query_positions(nodes, "name:"@ + name) == Ok::<Set<int>, Seq<char>>(
            Set::new(|k: int| 0 <= k < nodes.len() && nodes[k].name@ == name),
        ),
{
    reveal_strlit("name:");
    reveal_strlit("repo:");
    reveal_strlit("type:");
    reveal_strlit("all");
    let q = "name:"@ + name;
    let e = Seq::<char>::empty();
    assert(all_whitespace(e));
    assert(q[0] == 'n');
    assert(!unicode_whitespace('n'));
    lemma_trim_start_after(e, q);
    assert(e + q =~= q);
    assert(q.last() == if name.len() > 0 { name.last() } else { ':' });
    assert(!unicode_whitespace(':'));
    lemma_trim_end_before(q, e);
    assert(q + e =~= q);
    assert(trimmed(q) == q);
    assert(!q.contains('|')) by {
        if q.contains('|') {
            let i = choose|i: int| 0 <= i < q.len() && q[i] == '|';
            if i >= 5 {
                assert(name[i - 5] == '|');
            }
        }
    }
    assert(ascii_lowercase(q).len() == q.len());
    assert(ascii_lowercase(q) != "all"@);
    assert(!"repo:"@.is_prefix_of(q)) by {
        assert(q[0] != "repo:"@[0]);
    }
    assert(!"type:"@.is_prefix_of(q)) by {
        assert(q[0] != "type:"@[0]);
    }
    assert("name:"@.is_prefix_of(q)) by {
        assert forall|i: int| 0 <= i < 5 implies "name:"@[i] == q[i] by {}
    }
    assert(q.skip(5) =~= name);
    assert(positions_of(nodes, ClauseView::Name(name)) =~= Set::new(
        |k: int| 0 <= k < nodes.len() && nodes[k].name@ == name,
    ));
}

/// A compound query (`a|b|...`) whose parts all parse selects exactly the
/// nodes that match every one of its parts: the parts' results intersect,
/// whatever order they are evaluated in.
pub proof fn lemma_compound_query_is_intersection(nodes: Seq<Node>, query: Seq<char>)
    requires
        trimmed(query).contains('|'),
        forall|p: Seq<char>|
            #![trigger compound_parts(trimmed(query)).contains(p)]
            compound_parts(trimmed(query)).contains(p) ==> parse_clause_spec(p, true) is Ok,
    ensures
        query_positions(nodes, query) matches Ok(s) && forall|k: int|
            s.contains(k) <==> (0 <= k < nodes.len() && matches_all_parts(nodes, compound_parts(trimmed(query)), k)),
{
    let t = trimmed(query);
    let parts = compound_parts(t);
    let rp = ranked(parts);
    assert(ascii_lowercase(t) != "all"@) by {
        reveal_strlit("all");
        let w = choose|w: int| 0 <= w < t.len() && t[w] == '|';
        assert(ascii_lowercase(t).len() == t.len());
        assert(ascii_lowercase(t)[w] == ascii_lower(t[w]));
        assert(ascii_lower('|') == '|');
        if ascii_lowercase(t) == "all"@ {
            assert("all"@.len() == 3);
            assert("all"@[0] == 'a' && "all"@[1] == 'l' && "all"@[2] == 'l');
            assert(ascii_lowercase(t)[w] == '|');
        }
    }
    assert forall|p: Seq<char>| rp.contains(p) <==> parts.contains(p) by {
        lemma_ranked_upto_contains(parts, 9, p);
    }
    if parts.len() > 0 {
        assert forall|j: int| 0 <= j < rp.len() implies parse_clause_spec(#[trigger] rp[j], true) is Ok by {
            assert(rp.contains(rp[j]));
            assert(parts.contains(rp[j]));
        }
        lemma_run_parts_intersects(nodes, rp, 0, all_positions(nodes));
        let s = run_parts(nodes, rp, 0, all_positions(nodes))->Ok_0;
        assert forall|k: int| s.contains(k) <==> (0 <= k < nodes.len() && matches_all_parts(nodes, parts, k)) by {
            if 0 <= k < nodes.len() {
                if matches_all_parts(nodes, parts, k) {
                    assert forall|j: int| 0 <= j < rp.len() implies clause_matches(
                        nodes[k],
                        #[trigger] parse_clause_spec(rp[j], true)->Ok_0,
                    ) by {
                        assert(rp.contains(rp[j]));
                        assert(parts.contains(rp[j]));
                    }
                }
                if forall|j: int|
                    0 <= j < rp.len() ==> clause_matches(nodes[k], #[trigger] parse_clause_spec(rp[j], true)->Ok_0) {
                    assert forall|p: Seq<char>| #![trigger parts.contains(p)] parts.contains(p) implies (parse_clause_spec(
                        p,
                        true,
                    ) matches Ok(c) && clause_matches(nodes[k], c)) by {
                        assert(rp.contains(p));
                        let j = choose|j: int| 0 <= j < rp.len() && rp[j] == p;
                        assert(clause_matches(nodes[k], parse_clause_spec(rp[j], true)->Ok_0));
                    }
                }
            }
        }
    } else {
        assert forall|k: int| 0 <= k < nodes.len() implies matches_all_parts(nodes, parts, k) by {}
    }
}

/// The mask of positions in `s` among `n`.
pub open spec fn mask_of(mask: Seq<bool>, s: Set<int>, n: int) -> bool {
    mask.len() == n && forall|k: int| 0 <= k < n ==> (mask[k] <==> s.contains(k))
}

fn clause_mask(nodes: &[Node], clause: &Clause) -> (m: Vec<bool>)
    ensures
        mask_of(m@, positions_of(nodes@, clause_view(*clause)), nodes@.len() as int),
{
    let mut m: Vec<bool> = Vec::new();
    let mut k: usize = 0;
    while k < nodes.len()
        invariant
            k <= nodes@.len(),
            m@.len() == k,
            forall|j: int| 0 <= j < k ==> (m@[j] <==> clause_matches(nodes@[j], clause_view(*clause))),
        decreases nodes@.len() - k,
    {
        m.push(node_matches(&nodes[k], clause));
        k = k + 1;
    }
    m
}

fn full_mask(n: usize) -> (m: Vec<bool>)
    ensures
        m@.len() == n,
        forall|k: int| 0 <= k < n ==> m@[k],
{
    let mut m: Vec<bool> = Vec::new();
    let mut k: usize = 0;
    while k < n
        invariant
            k <= n,
            m@.len() == k,
            forall|j: int| 0 <= j < k ==> m@[j],
        decreases n - k,
    {
        m.push(true);
        k = k + 1;
    }
    m
}

fn any_true(m: &Vec<bool>) -> (b: bool)
    ensures
        b == exists|k: int| 0 <= k < m@.len() && m@[k],
{
    let mut k: usize = 0;
    while k < m.len()
        invariant
            k <= m@.len(),
            forall|j: int| 0 <= j < k ==> !m@[j],
        decreases m@.len() - k,
    {
        if m[k] {
            return true;
        }
        k = k + 1;
    }
    false
}

/// The trimmed non-empty `|`-separated parts of `t`.
fn split_parts(t: &Vec<char>) -> (parts: Vec<Vec<char>>)
    ensures
        parts@.map_values(|v: Vec<char>| v@) == compound_parts(t@),
{
    let raw = split_chars(t.as_slice(), '|');
    let ghost rv = raw@.map_values(|v: Vec<char>| v@).map_values(|p: Seq<char>| trimmed(p));
    let mut parts: Vec<Vec<char>> = Vec::new();
    let mut i: usize = 0;
    proof {
        assert(rv.take(0) =~= Seq::<Seq<char>>::empty());
        assert(parts@.map_values(|v: Vec<char>| v@) =~= Seq::<Seq<char>>::empty());
    }
    while i < raw.len()
        invariant
            i <= raw@.len(),
            rv == raw@.map_values(|v: Vec<char>| v@).map_values(|p: Seq<char>| trimmed(p)),
            parts@.map_values(|v: Vec<char>| v@) == nonempty_pieces(rv.take(i as int)),
        decreases raw@.len() - i,
    {
        let tp = trim_chars(raw[i].as_slice());
        proof {
            assert(rv.take(i + 1).drop_last() =~= rv.take(i as int));
            assert(rv.take(i + 1).last() == tp@);
        }
        if tp.len() > 0 {
            let ghost pb = parts@;
            parts.push(tp);
            proof {
                assert(parts@.map_values(|v: Vec<char>| v@) =~= pb.map_values(|v: Vec<char>| v@).push(tp@));
            }
        }
        i = i + 1;
    }
    proof {
        assert(rv.take(raw@.len() as int) =~= rv);
    }
    parts
}

/// Indices of `parts`, most selective first (stable by rank).
fn rank_order(parts: &Vec<Vec<char>>) -> (order: Vec<usize>)
    ensures
        forall|i: int| 0 <= i < order@.len() ==> order@[i] < parts@.len(),
        order@.map_values(|j: usize| parts@[j as int]@) == ranked(parts@.map_values(|v: Vec<char>| v@)),
{
    let ghost pv = parts@.map_values(|v: Vec<char>| v@);
    let mut order: Vec<usize> = Vec::new();
    let mut r: usize = 0;
    proof {
        assert(order@.map_values(|j: usize| parts@[j as int]@) =~= ranked_upto(pv, 0));
    }
    while r < 9
        invariant
            r <= 9,
            pv == parts@.map_values(|v: Vec<char>| v@),
            forall|i: int| 0 <= i < order@.len() ==> order@[i] < parts@.len(),
            order@.map_values(|j: usize| parts@[j as int]@) == ranked_upto(pv, r as nat),
        decreases 9 - r,
    {
        let ghost base = order@.map_values(|j: usize| parts@[j as int]@);
        let mut j: usize = 0;
        proof {
            assert(pv.take(0) =~= Seq::<Seq<char>>::empty());
            assert(base + rank_filter(pv.take(0), r as nat) =~= base);
        }
        while j < parts.len()
            invariant
                j <= parts@.len(),
                pv == parts@.map_values(|v: Vec<char>| v@),
                forall|i: int| 0 <= i < order@.len() ==> order@[i] < parts@.len(),
                order@.map_values(|j: usize| parts@[j as int]@) == base + rank_filter(pv.take(j as int), r as nat),
            decreases parts@.len() - j,
        {
            proof {
                assert(pv.take(j + 1).drop_last() =~= pv.take(j as int));
                assert(pv.take(j + 1).last() == parts@[j as int]@);
            }
            if rank_chars(&parts[j]) == r {
                let ghost ob = order@;
                order.push(j);
                proof {
                    assert(order@.map_values(|j: usize| parts@[j as int]@) =~= ob.map_values(|j: usize| parts@[j as int]@).push(
                        parts@[j as int]@,
                    ));
                }
            }
            j = j + 1;
        }
        proof {
            assert(pv.take(parts@.len() as int) =~= pv);
        }
        r = r + 1;
    }
    order
}

/// `a[k] && b[k]` for every position.
fn and_masks(a: &Vec<bool>, b: &Vec<bool>) -> (r: Vec<bool>)
    requires
        a@.len() == b@.len(),
    ensures
        r@.len() == a@.len(),
        forall|x: int| 0 <= x < a@.len() ==> r@[x] == (a@[x] && b@[x]),
{
    let mut r: Vec<bool> = Vec::new();
    let mut k: usize = 0;
    while k < a.len()
        invariant
            k <= a@.len(),
            a@.len() == b@.len(),
            r@.len() == k,
            forall|x: int| 0 <= x < k ==> r@[x] == (a@[x] && b@[x]),
        decreases a@.len() - k,
    {
        r.push(a[k] && b[k]);
        k = k + 1;
    }
    r
}

/// The mask of positions that `query` selects, or its error.
fn query_mask(nodes: &[Node], query: &str) -> (r: Result<Vec<bool>, Error>)
    ensures
        match query_positions(nodes@, query@) {
            Ok(s) => r matches Ok(m) && mask_of(m@, s, nodes@.len() as int),
            Err(msg) => r matches Err(Error::InvalidQuery(e)) && e@ == msg,
        },
{
    let n = nodes.len();
    let qc = to_chars(query);
    let t = trim_chars(qc.as_slice());
    let ts = from_chars(t.as_slice());
    let l = to_ascii_lowercase(ts.as_str());
    if t.len() == 0 || chars_eq_str(&l, "all") {
        return Ok(full_mask(n));
    }
    match crate::text::find_char(t.as_slice(), '|') {
        None => {
            match parse_clause(ts.as_str(), false) {
                Ok(clause) => Ok(clause_mask(nodes, &clause)),
                Err(e) => Err(e),
            }
        },
        Some(bar) => {
            proof {
                assert(t@.contains('|')) by {
                    assert(t@[bar as int] == '|');
                }
            }
            let parts = split_parts(&t);
            if parts.len() == 0 {
                return Ok(full_mask(n));
            }
            let order = rank_order(&parts);
            let ghost rp = ranked(parts@.map_values(|v: Vec<char>| v@));
            let mut current = full_mask(n);
            let ghost cur_set = all_positions(nodes@);
            let mut i: usize = 0;
            let mut stop = false;
            proof {
                assert(order@.len() == rp.len());
                assert(query_positions(nodes@, query@) == run_parts(nodes@, rp, 0, all_positions(nodes@)));
            }
            while i < order.len() && !stop
                invariant
                    n == nodes@.len(),
                    rp == order@.map_values(|j: usize| parts@[j as int]@),
                    forall|x: int| 0 <= x < order@.len() ==> order@[x] < parts@.len(),
                    i <= order@.len(),
                    mask_of(current@, cur_set, n as int),
                    cur_set.subset_of(all_positions(nodes@)),
                    query_positions(nodes@, query@) == run_parts(nodes@, rp, i as int, cur_set),
                    stop ==> i >= 2 && cur_set == Set::<int>::empty(),
                decreases order@.len() - i, if stop { 0int } else { 1int },
            {
                if i >= 2 && !any_true(&current) {
                    proof {
                        assert(cur_set =~= Set::<int>::empty()) by {
                            assert forall|k: int| !cur_set.contains(k) by {
                                if cur_set.contains(k) {
                                    assert(0 <= k < n);
                                    assert(current@[k]);
                                }
                            }
                        }
                    }
                    stop = true;
                } else {
                    proof {
                        if i >= 2 {
                            assert(cur_set != Set::<int>::empty()) by {
                                let k = choose|k: int| 0 <= k < current@.len() && current@[k];
                                assert(cur_set.contains(k));
                            }
                        }
                    }
                    let part = &parts[order[i]];
                    proof {
                        assert(rp[i as int] == part@);
                    }
                    let ps = from_chars(part.as_slice());
                    let clause = match parse_clause(ps.as_str(), true) {
                        Ok(c) => c,
                        Err(e) => {
                            return Err(e);
                        },
                    };
                    let m = clause_mask(nodes, &clause);
                    let ghost next = cur_set.intersect(positions_of(nodes@, clause_view(clause)));
                    current = and_masks(&current, &m);
                    proof {
                        cur_set = next;
                    }
                    i = i + 1;
                }
            }
            Ok(current)
        },
    }
}

/// The nodes at the marked positions, in order.
pub open spec fn select_nodes(nodes: Seq<Node>, s: Set<int>) -> Seq<Node>
    decreases nodes.len(),
{
    if nodes.len() == 0 {
        nodes
    } else {
        let rest = select_nodes(nodes.drop_last(), s);
        if s.contains(nodes.len() - 1) {
            rest.push(nodes.last())
        } else {
            rest
        }
    }
}

fn select_by_mask<'a>(nodes: &'a [Node], m: &Vec<bool>, s: Ghost<Set<int>>) -> (r: Vec<&'a Node>)
    requires
        mask_of(m@, s@, nodes@.len() as int),
    ensures
        r@.map_values(|x: &Node| *x) == select_nodes(nodes@, s@),
{
    let mut r: Vec<&Node> = Vec::new();
    let mut k: usize = 0;
    proof {
        assert(nodes@.take(0) =~= Seq::<Node>::empty());
    }
    while k < nodes.len()
        invariant
            k <= nodes@.len(),
            mask_of(m@, s@, nodes@.len() as int),
            r@.map_values(|x: &Node| *x) == select_nodes(nodes@.take(k as int), s@),
        decreases nodes@.len() - k,
    {
        proof {
            assert(nodes@.take(k + 1).drop_last() =~= nodes@.take(k as int));
            assert(nodes@.take(k + 1).last() == nodes@[k as int]);
        }
        if m[k] {
            let ghost rb = r@;
            r.push(&nodes[k]);
            proof {
                assert(r@.map_values(|x: &Node| *x) =~= rb.map_values(|x: &Node| *x).push(nodes@[k as int]));
            }
        }
        k = k + 1;
    }
    proof {
        assert(nodes@.take(nodes@.len() as int) =~= nodes@);
    }
    r
}

/// Execute a query against the store: the nodes it selects, in store order.
pub fn execute<'a>(backend: &'a MemoryBackend, query: &str) -> (r: Result<Vec<&'a Node>, Error>)
    ensures
        match query_positions(backend.node_seq(), query@) {
            Ok(s) => r matches Ok(v) && v@.map_values(|x: &Node| *x) == select_nodes(backend.node_seq(), s),
            Err(msg) => r matches Err(Error::InvalidQuery(e)) && e@ == msg,
        },
{
    let nodes = backend.nodes();
    let m = match query_mask(nodes, query) {
        Ok(m) => m,
        Err(e) => {
            return Err(e);
        },
    };
    let ghost s = match query_positions(nodes@, query@) {
        Ok(s) => s,
        Err(_) => Set::<int>::empty(),
    };
    Ok(select_by_mask(nodes, &m, Ghost(s)))
}

/// Ids of the nodes a query selects, in store order.
pub fn execute_node_ids(backend: &MemoryBackend, query: &str) -> (r: Result<Vec<u128>, Error>)
    ensures
        match query_positions(backend.node_seq(), query@) {
            Ok(s) => r matches Ok(v) && v@ == node_ids(select_nodes(backend.node_seq(), s)),
            Err(msg) => r matches Err(Error::InvalidQuery(e)) && e@ == msg,
        },
{
    let found = match execute(backend, query) {
        Ok(f) => f,
        Err(e) => {
            return Err(e);
        },
    };
    let mut ids: Vec<u128> = Vec::new();
    let mut k: usize = 0;
    while k < found.len()
        invariant
            k <= found@.len(),
            ids@ == found@.take(k as int).map_values(|x: &Node| x.id),
        decreases found@.len() - k,
    {
        ids.push(found[k].id);
        proof {
            assert(found@.take(k + 1).map_values(|x: &Node| x.id) =~= found@.take(k as int).map_values(|x: &Node| x.id).push(
                found@[k as int].id,
            ));
        }
        k = k + 1;
    }
    proof {
        assert(found@.take(found@.len() as int) =~= found@);
        assert(found@.map_values(|x: &Node| x.id) =~= node_ids(found@.map_values(|x: &Node| *x)));
    }
    Ok(ids)
}

/// The message for a zero chunk size.
pub open spec fn zero_chunk_message() -> Seq<char> {
    "chunk_size must be > 0"@
}

/// Query results in chunks of `chunk_size` nodes (the last one possibly
/// shorter), for streaming large result sets.
pub fn execute_chunks<'a>(backend: &'a MemoryBackend, query: &str, chunk_size: usize) -> (r: Result<Vec<Vec<&'a Node>>, Error>)
    ensures
        chunk_size == 0 ==> (r matches Err(Error::InvalidQuery(e)) && e@ == zero_chunk_message()),
        chunk_size > 0 ==> match query_positions(backend.node_seq(), query@) {
            Ok(s) => r matches Ok(chunks) && {
                &&& chunks@.map_values(|c: Vec<&Node>| c@).flatten().map_values(|x: &Node| *x) == select_nodes(backend.node_seq(), s)
                &&& forall|i: int| 0 <= i < chunks@.len() ==> 0 < (#[trigger] chunks@[i])@.len() <= chunk_size
                &&& forall|i: int| 0 <= i < chunks@.len() - 1 ==> (#[trigger] chunks@[i])@.len() == chunk_size
            },
            Err(msg) => r matches Err(Error::InvalidQuery(e)) && e@ == msg,
        },
{
    if chunk_size == 0 {
        return Err(Error::InvalidQuery("chunk_size must be > 0".to_owned()));
    }
    let results = match execute(backend, query) {
        Ok(f) => f,
        Err(e) => {
            return Err(e);
        },
    };
    let mut chunks: Vec<Vec<&Node>> = Vec::new();
    let mut cur: Vec<&Node> = Vec::new();
    let mut k: usize = 0;
    proof {
        assert(chunks@.map_values(|c: Vec<&Node>| c@).flatten() =~= Seq::<&Node>::empty());
        assert(results@.take(0) =~= Seq::<&Node>::empty());
    }
    while k < results.len()
        invariant
            chunk_size > 0,
            k <= results@.len(),
            chunks@.map_values(|c: Vec<&Node>| c@).flatten() + cur@ == results@.take(k as int),
            cur@.len() < chunk_size,
            forall|i: int| 0 <= i < chunks@.len() ==> (#[trigger] chunks@[i])@.len() == chunk_size,
        decreases results@.len() - k,
    {
        cur.push(results[k]);
        proof {
            assert(results@.take(k + 1) =~= results@.take(k as int).push(results@[k as int]));
        }
        if cur.len() == chunk_size {
            let ghost cb = chunks@;
            let full = cur;
            chunks.push(full);
            cur = Vec::new();
            proof {
                let f = |c: Vec<&Node>| c@;
                assert(chunks@.map_values(f) =~= cb.map_values(f).push(full@));
                cb.map_values(f).lemma_flatten_push(full@);
            }
        }
        k = k + 1;
    }
    if cur.len() > 0 {
        let ghost cb = chunks@;
        let last = cur;
        chunks.push(last);
        proof {
            let f = |c: Vec<&Node>| c@;
            assert(chunks@.map_values(f) =~= cb.map_values(f).push(last@));
            cb.map_values(f).lemma_flatten_push(last@);
        }
    } else {
        proof {
            assert(chunks@.map_values(|c: Vec<&Node>| c@).flatten() + cur@ =~= chunks@.map_values(|c: Vec<&Node>| c@).flatten());
        }
    }
    proof {
        assert(results@.take(results@.len() as int) =~= results@);
    }
    Ok(chunks)
}

} // verus!
