//! Detection of configuration-key and environment-variable references in
//! source code, line by line, with one regular expression per kind of
//! reference.

use crate::graph_builder::ConfigUsageKind;
use crate::text::{push_char, split_on, str_eq, to_chars};
use vstd::prelude::*;
use vstd::utf8::{decode_utf8, valid_utf8};

verus! {

/// Confidence level for a detected config usage.
#[derive(Clone, Copy, Debug, PartialEq, Eq, Structural)]
pub enum ConfigConfidence {
    /// Directly extracted from source (e.g. string literal)
    Extracted,
    /// Inferred from context
    Inferred,
    /// Ambiguous match
    Ambiguous,
}

/// A detected configuration or environment variable usage.
#[derive(Clone, Debug, PartialEq, Eq)]
pub struct ConfigUsage {
    /// Config key or environment variable name
    pub key: String,
    /// Source file path
    pub file: String,
    /// Line number (1-indexed)
    pub line: usize,
    /// Usage kind
    pub usage_type: ConfigUsageKind,
    /// Detection confidence
    pub confidence: ConfigConfidence,
}

/// A usage as plain values: key, file, line, kind, confidence.
pub type UsageModel = (Seq<char>, Seq<char>, int, ConfigUsageKind, ConfigConfidence);

/// The plain values of a usage.
pub open spec fn usage_model(u: ConfigUsage) -> UsageModel {
    (u.key@, u.file@, u.line as int, u.usage_type, u.confidence)
}

/// One detection rule: a pattern whose first group is the key, and what a
/// match of it records.
pub type RuleModel = (Seq<char>, ConfigUsageKind, ConfigConfidence);

// ---------------------------------------------------------------------------
// Outside calls
// ---------------------------------------------------------------------------

#[verifier::external_type_specification]
#[verifier::external_body]
pub struct ExRegex(regex::Regex);

/// Whether `regex::Regex::new` accepts the pattern.
pub uninterp spec fn regex_compiles(pattern: Seq<char>) -> bool;

/// Group 1 of every successive non-overlapping match of the pattern in the
/// haystack, as `regex::Regex::captures_iter` yields them (`None` where the
/// group took no part in a match).
pub uninterp spec fn regex_group1(pattern: Seq<char>, haystack: Seq<char>) -> Seq<Option<Seq<char>>>;

/// The text that `String::from_utf8_lossy` makes of the bytes.
pub uninterp spec fn utf8_lossy_text(bytes: Seq<u8>) -> Seq<char>;

/// A compiled regular expression together with its source pattern.
pub struct CompiledPattern {
    pattern: String,
    regex: regex::Regex,
}

impl CompiledPattern {
    /// The source pattern.
    pub closed spec fn source(&self) -> Seq<char> {
        self.pattern@
    }
}

/// Compiles `pattern` with `regex::Regex::new`; the contract claims only that
/// the result is present exactly when the crate accepts the pattern, and keeps
/// the pattern it was built from.
#[verifier::external_body]
fn compile_pattern(pattern: &str) -> (r: Option<CompiledPattern>)
    ensures
        r is Some <==> regex_compiles(pattern@),
        r matches Some(c) ==> c.source() == pattern@,
{
    match regex::Regex::new(pattern) {
        Ok(regex) => Some(CompiledPattern { pattern: pattern.to_string(), regex }),
        Err(_) => None,
    }
}

/// Calls `regex::Regex::captures_iter` on `line` and takes group 1 of each
/// match; the contract names that sequence after the pattern and the line.
#[verifier::external_body]
fn group1_captures(re: &CompiledPattern, line: &str) -> (caps: Vec<Option<String>>)
    ensures
        caps@.map_values(|c: Option<String>| match c {
            Some(s) => Some(s@),
            None => None,
        }) == regex_group1(re.source(), line@),
{
    re.regex.captures_iter(line).map(|c| c.get(1).map(|m| m.as_str().to_string())).collect()
}

/// Calls `String::from_utf8_lossy`; the contract names its text, and states
/// that valid UTF-8 decodes as itself.
#[verifier::external_body]
pub(crate) fn utf8_lossy(bytes: &[u8]) -> (s: String)
    ensures
        s@ == utf8_lossy_text(bytes@),
        valid_utf8(bytes@) ==> s@ == decode_utf8(bytes@),
{
    String::from_utf8_lossy(bytes).into_owned()
}

// ---------------------------------------------------------------------------
// Specification
// ---------------------------------------------------------------------------

/// `s` without one trailing carriage return.
pub open spec fn strip_cr(s: Seq<char>) -> Seq<char> {
    if s.len() > 0 && s.last() == '\r' {
        s.drop_last()
    } else {
        s
    }
}

/// The lines of `s`: split at `\n`, each line without a trailing `\r`, the
/// last line kept as is, and no final empty line after a closing `\n`.
pub open spec fn lines_of(s: Seq<char>) -> Seq<Seq<char>> {
    let ps = split_on(s, '\n');
    let k = if ps.last().len() == 0 { ps.len() - 1 } else { ps.len() as int };
    Seq::new(k as nat, |i: int| if i < ps.len() - 1 { strip_cr(ps[i]) } else { ps[i] })
}

/// The keys among the captures (the groups that took part).
pub open spec fn present_keys(caps: Seq<Option<Seq<char>>>) -> Seq<Seq<char>>
    decreases caps.len(),
{
    if caps.len() == 0 {
        Seq::empty()
    } else {
        let r = present_keys(caps.drop_last());
        match caps.last() {
            Some(k) => r.push(k),
            None => r,
        }
    }
}

/// Usages that one rule finds on one line.
pub open spec fn rule_line_usages(rule: RuleModel, line: Seq<char>, file: Seq<char>, lineno: int) -> Seq<UsageModel> {
    present_keys(regex_group1(rule.0, line)).map_values(|k: Seq<char>| (k, file, lineno, rule.1, rule.2))
}

/// Usages that the rules find on one line, rule after rule.
pub open spec fn rules_line_usages(rules: Seq<RuleModel>, line: Seq<char>, file: Seq<char>, lineno: int) -> Seq<UsageModel>
    decreases rules.len(),
{
    if rules.len() == 0 {
        Seq::empty()
    } else {
        rules_line_usages(rules.drop_last(), line, file, lineno) + rule_line_usages(rules.last(), line, file, lineno)
    }
}

/// Usages that the rules find in the lines, line after line (lines numbered from 1).
pub open spec fn rules_usages(rules: Seq<RuleModel>, lines: Seq<Seq<char>>, file: Seq<char>) -> Seq<UsageModel>
    decreases lines.len(),
{
    if lines.len() == 0 {
        Seq::empty()
    } else {
        rules_usages(rules, lines.drop_last(), file) + rules_line_usages(rules, lines.last(), file, lines.len() as int)
    }
}

/// `env::var("KEY")` / `env::var_os("KEY")`.
pub open spec fn rust_env_pattern() -> Seq<char> {
    r#"env::var(?:_os)?\("([^"]+)"\)"#@
}

/// `.get("key")`.
pub open spec fn rust_config_pattern() -> Seq<char> {
    r#"\.get\("([^"]+)"\)"#@
}

/// `os.environ['KEY']`.
pub open spec fn python_environ_pattern() -> Seq<char> {
    r#"os\.environ\[['"]([^'"]+)['"]\]"#@
}

/// `os.getenv('KEY')`.
pub open spec fn python_getenv_pattern() -> Seq<char> {
    r#"os\.getenv\(['"]([^'"]+)['"]\)"#@
}

/// `process.env.KEY`.
pub open spec fn js_dot_pattern() -> Seq<char> {
    r#"process\.env\.([A-Z0-9_]+)"#@
}

/// `process.env['KEY']`.
pub open spec fn js_bracket_pattern() -> Seq<char> {
    r#"process\.env\[['"]([^'"]+)['"]\]"#@
}

/// `os.Getenv("KEY")`.
pub open spec fn go_getenv_pattern() -> Seq<char> {
    r#"os\.Getenv\("([^"]+)"\)"#@
}

/// The rules of a language, in the order they are applied to a line.
pub open spec fn language_rules(language_id: Seq<char>) -> Seq<RuleModel> {
    if language_id == "rust"@ {
        seq![
            (rust_env_pattern(), ConfigUsageKind::EnvVar, ConfigConfidence::Extracted),
            (rust_config_pattern(), ConfigUsageKind::ConfigKey, ConfigConfidence::Inferred),
        ]
    } else if language_id == "python"@ {
        seq![
            (python_environ_pattern(), ConfigUsageKind::EnvVar, ConfigConfidence::Extracted),
            (python_getenv_pattern(), ConfigUsageKind::EnvVar, ConfigConfidence::Extracted),
        ]
    } else if language_id == "typescript"@ || language_id == "javascript"@ {
        seq![
            (js_dot_pattern(), ConfigUsageKind::EnvVar, ConfigConfidence::Extracted),
            (js_bracket_pattern(), ConfigUsageKind::EnvVar, ConfigConfidence::Extracted),
        ]
    } else if language_id == "go"@ {
        seq![(go_getenv_pattern(), ConfigUsageKind::EnvVar, ConfigConfidence::Extracted)]
    } else {
        Seq::empty()
    }
}

/// Every pattern of the rules compiles.
pub open spec fn rules_compile(rules: Seq<RuleModel>) -> bool {
    forall|i: int| 0 <= i < rules.len() ==> #[trigger] regex_compiles(rules[i].0)
}

/// What detection over `text` reports for a language.
pub open spec fn detected_usages(language_id: Seq<char>, text: Seq<char>, file: Seq<char>) -> Seq<UsageModel> {
    let rules = language_rules(language_id);
    if rules_compile(rules) {
        rules_usages(rules, lines_of(text), file)
    } else {
        Seq::empty()
    }
}

/// Every rule records an inferred confidence exactly when it records a configuration key.
pub open spec fn rules_consistent(rules: Seq<RuleModel>) -> bool {
    forall|i: int| 0 <= i < rules.len() ==> ((#[trigger] rules[i]).2 == ConfigConfidence::Inferred <==> rules[i].1
        == ConfigUsageKind::ConfigKey)
}

/// A usage found on line `lineno` of `file` by consistent rules.
pub open spec fn usage_well_placed(u: UsageModel, file: Seq<char>, lo: int, hi: int) -> bool {
    &&& u.1 == file
    &&& lo <= u.2 <= hi
    &&& (u.4 == ConfigConfidence::Inferred <==> u.3 == ConfigUsageKind::ConfigKey)
}

proof fn lemma_rules_line_usages_placed(rules: Seq<RuleModel>, line: Seq<char>, file: Seq<char>, lineno: int)
    requires
        rules_consistent(rules),
    ensures
        forall|i: int| 0 <= i < rules_line_usages(rules, line, file, lineno).len() ==> usage_well_placed(
            #[trigger] rules_line_usages(rules, line, file, lineno)[i],
            file,
            lineno,
            lineno,
        ),
    decreases rules.len(),
{
    if rules.len() > 0 {
        let pre = rules.drop_last();
        assert forall|i: int| 0 <= i < pre.len() implies ((#[trigger] pre[i]).2 == ConfigConfidence::Inferred <==> pre[i].1
            == ConfigUsageKind::ConfigKey) by {
            assert(pre[i] == rules[i]);
        }
        lemma_rules_line_usages_placed(pre, line, file, lineno);
        let a = rules_line_usages(pre, line, file, lineno);
        let b = rule_line_usages(rules.last(), line, file, lineno);
        assert(rules.last() == rules[rules.len() - 1]);
        assert forall|i: int| 0 <= i < (a + b).len() implies usage_well_placed(#[trigger] (a + b)[i], file, lineno, lineno) by {
            if i < a.len() {
                assert((a + b)[i] == a[i]);
            } else {
                assert((a + b)[i] == b[i - a.len()]);
            }
        }
    }
}

proof fn lemma_rules_usages_placed(rules: Seq<RuleModel>, lines: Seq<Seq<char>>, file: Seq<char>)
    requires
        rules_consistent(rules),
    ensures
        forall|i: int| 0 <= i < rules_usages(rules, lines, file).len() ==> usage_well_placed(
            #[trigger] rules_usages(rules, lines, file)[i],
            file,
            1,
            lines.len() as int,
        ),
    decreases lines.len(),
{
    if lines.len() > 0 {
        let pre = lines.drop_last();
        lemma_rules_usages_placed(rules, pre, file);
        lemma_rules_line_usages_placed(rules, lines.last(), file, lines.len() as int);
        let a = rules_usages(rules, pre, file);
        let b = rules_line_usages(rules, lines.last(), file, lines.len() as int);
        assert forall|i: int| 0 <= i < (a + b).len() implies usage_well_placed(#[trigger] (a + b)[i], file, 1, lines.len() as int) by {
            if i < a.len() {
                assert((a + b)[i] == a[i]);
                assert(usage_well_placed(a[i], file, 1, pre.len() as int));
            } else {
                assert((a + b)[i] == b[i - a.len()]);
                assert(usage_well_placed(b[i - a.len()], file, lines.len() as int, lines.len() as int));
            }
        }
    }
}

proof fn lemma_no_rules_no_usages(lines: Seq<Seq<char>>, file: Seq<char>)
    ensures
        rules_usages(Seq::empty(), lines, file).len() == 0,
    decreases lines.len(),
{
    if lines.len() > 0 {
        lemma_no_rules_no_usages(lines.drop_last(), file);
    }
}

/// Law: Python detection looks, on every line, for `os.environ[...]` and
/// then for `os.getenv(...)`, each with the key in single or double quotes
/// (the class `['"]` on both sides), and records every key the pattern
/// captures as an environment variable read at that line, extracted. What the
/// patterns match is the `regex` crate's; the patterns themselves are these.
pub proof fn lemma_python_detection(text: Seq<char>, file: Seq<char>)
    ensures
        language_rules("python"@) == seq![
            (r#"os\.environ\[['"]([^'"]+)['"]\]"#@, ConfigUsageKind::EnvVar, ConfigConfidence::Extracted),
            (r#"os\.getenv\(['"]([^'"]+)['"]\)"#@, ConfigUsageKind::EnvVar, ConfigConfidence::Extracted),
        ],
        rules_compile(language_rules("python"@)) ==> detected_usages("python"@, text, file) == rules_usages(
            language_rules("python"@),
            lines_of(text),
            file,
        ),
        forall|line: Seq<char>, lineno: int|
            #![trigger rules_line_usages(language_rules("python"@), line, file, lineno)]
            rules_line_usages(language_rules("python"@), line, file, lineno) == present_keys(
                regex_group1(r#"os\.environ\[['"]([^'"]+)['"]\]"#@, line),
            ).map_values(|k: Seq<char>| (k, file, lineno, ConfigUsageKind::EnvVar, ConfigConfidence::Extracted))
                + present_keys(regex_group1(r#"os\.getenv\(['"]([^'"]+)['"]\)"#@, line)).map_values(
                |k: Seq<char>| (k, file, lineno, ConfigUsageKind::EnvVar, ConfigConfidence::Extracted),
            ),
{
    reveal_strlit("python");
    reveal_strlit("rust");
    assert("python"@ != "rust"@) by {
        assert("python"@.len() != "rust"@.len());
    }
    let rules = language_rules("python"@);
    assert forall|line: Seq<char>, lineno: int|
        #![trigger rules_line_usages(rules, line, file, lineno)]
        rules_line_usages(rules, line, file, lineno) == rule_line_usages(rules[0], line, file, lineno) + rule_line_usages(
            rules[1],
            line,
            file,
            lineno,
        ) by {
        let r1 = rules.drop_last();
        assert(r1.drop_last() =~= Seq::<RuleModel>::empty());
        assert(r1.last() == rules[0]);
        assert(rules.last() == rules[1]);
        assert(rules_line_usages(r1.drop_last(), line, file, lineno) == Seq::<UsageModel>::empty());
        assert(rules_line_usages(r1, line, file, lineno) == rules_line_usages(r1.drop_last(), line, file, lineno)
            + rule_line_usages(r1.last(), line, file, lineno));
        assert(Seq::<UsageModel>::empty() + rule_line_usages(rules[0], line, file, lineno) =~= rule_line_usages(
            rules[0],
            line,
            file,
            lineno,
        ));
        assert(rules_line_usages(rules, line, file, lineno) == rules_line_usages(r1, line, file, lineno)
            + rule_line_usages(rules.last(), line, file, lineno));
    }
}

/// Law: detection finds nothing for a language without rules (any but rust,
/// python, typescript, javascript and go), finds the same for typescript as
/// for javascript, and every usage it finds names the file it was asked
/// about, a line of the text (numbered from 1), and is inferred exactly when
/// it is a configuration key.
pub proof fn lemma_detected_usages_shape(language_id: Seq<char>, text: Seq<char>, file: Seq<char>)
    ensures
        !(language_id == "rust"@ || language_id == "python"@ || language_id == "typescript"@
            || language_id == "javascript"@ || language_id == "go"@) ==> detected_usages(language_id, text, file).len() == 0,
        detected_usages("typescript"@, text, file) == detected_usages("javascript"@, text, file),
        forall|i: int| 0 <= i < detected_usages(language_id, text, file).len() ==> usage_well_placed(
            #[trigger] detected_usages(language_id, text, file)[i],
            file,
            1,
            lines_of(text).len() as int,
        ),
{
    reveal_strlit("rust");
    reveal_strlit("python");
    reveal_strlit("typescript");
    reveal_strlit("javascript");
    reveal_strlit("go");
    assert("typescript"@ != "rust"@) by {
        assert("typescript"@.len() != "rust"@.len());
    }
    assert("typescript"@ != "python"@) by {
        assert("typescript"@.len() != "python"@.len());
    }
    assert("javascript"@ != "rust"@) by {
        assert("javascript"@.len() != "rust"@.len());
    }
    assert("javascript"@ != "python"@) by {
        assert("javascript"@.len() != "python"@.len());
    }
    assert(language_rules("typescript"@) == language_rules("javascript"@));
    let rules = language_rules(language_id);
    assert(rules_consistent(rules));
    if rules_compile(rules) {
        lemma_rules_usages_placed(rules, lines_of(text), file);
    }
    lemma_no_rules_no_usages(lines_of(text), file);
}

// ---------------------------------------------------------------------------
// Executable functions
// ---------------------------------------------------------------------------

/// A compiled rule.
struct Rule {
    pattern: CompiledPattern,
    kind: ConfigUsageKind,
    confidence: ConfigConfidence,
}

spec fn rule_model(r: Rule) -> RuleModel {
    (r.pattern.source(), r.kind, r.confidence)
}

/// The lines of `s`.
pub fn split_lines(s: &str) -> (lines: Vec<String>)
    ensures
        lines@.map_values(|l: String| l@) == lines_of(s@),
{
    let cs = to_chars(s);
    let mut lines: Vec<String> = Vec::new();
    let mut cur = String::new();
    let mut i: usize = 0;
    proof {
        assert(cs@.take(0) =~= Seq::<char>::empty());
    }
    while i < cs.len()
        invariant
            cs@ == s@,
            i <= cs@.len(),
            split_on(cs@.take(i as int), '\n').len() >= 1,
            cur@ == split_on(cs@.take(i as int), '\n').last(),
            lines@.len() == split_on(cs@.take(i as int), '\n').len() - 1,
            forall|j: int|
                0 <= j < lines@.len() ==> #[trigger] lines@[j]@ == strip_cr(split_on(cs@.take(i as int), '\n')[j]),
        decreases cs@.len() - i,
    {
        let ghost ps = split_on(cs@.take(i as int), '\n');
        let c = cs[i];
        proof {
            assert(cs@.take(i + 1).drop_last() =~= cs@.take(i as int));
            assert(cs@.take(i + 1).last() == c);
        }
        if c == '\n' {
            let line = strip_trailing_cr(&cur);
            lines.push(line);
            cur = String::new();
            proof {
                assert(split_on(cs@.take(i + 1), '\n') == ps.push(Seq::<char>::empty()));
            }
        } else {
            push_char(&mut cur, c);
            proof {
                assert(split_on(cs@.take(i + 1), '\n') == ps.update(ps.len() - 1, ps.last().push(c)));
            }
        }
        i = i + 1;
    }
    proof {
        assert(cs@.take(i as int) =~= cs@);
    }
    if !cur.as_str().is_empty() {
        proof {
            assert(cur@.len() > 0);
        }
        lines.push(cur);
    } else {
        proof {
            assert(cur@.len() == 0);
        }
    }
    proof {
        assert(lines@.map_values(|l: String| l@) =~= lines_of(s@));
    }
    lines
}

/// `s` without one trailing `\r`.
fn strip_trailing_cr(s: &String) -> (r: String)
    ensures
        r@ == strip_cr(s@),
{
    let cs = to_chars(s.as_str());
    let n = cs.len();
    let end: usize = if n > 0 && cs[n - 1] == '\r' { n - 1 } else { n };
    let mut r = String::new();
    let mut k: usize = 0;
    while k < end
        invariant
            cs@ == s@,
            end <= cs@.len(),
            k <= end,
            r@ == cs@.take(k as int),
        decreases end - k,
    {
        push_char(&mut r, cs[k]);
        proof {
            assert(cs@.take(k + 1) =~= cs@.take(k as int).push(cs@[k as int]));
        }
        k = k + 1;
    }
    proof {
        assert(cs@.take(end as int) =~= strip_cr(s@));
    }
    r
}

/// Usages that `rules` find on one line, appended to `out`.
fn detect_line(rules: &Vec<Rule>, line: &String, file: &str, lineno: usize, out: &mut Vec<ConfigUsage>)
    ensures
        final(out)@.map_values(|u: ConfigUsage| usage_model(u)) == old(out)@.map_values(|u: ConfigUsage| usage_model(u))
            + rules_line_usages(rules@.map_values(|r: Rule| rule_model(r)), line@, file@, lineno as int),
{
    let ghost rm = rules@.map_values(|r: Rule| rule_model(r));
    let ghost out0 = out@.map_values(|u: ConfigUsage| usage_model(u));
    let mut k: usize = 0;
    while k < rules.len()
        invariant
            k <= rules@.len(),
            rm == rules@.map_values(|r: Rule| rule_model(r)),
            out@.map_values(|u: ConfigUsage| usage_model(u)) == out0 + rules_line_usages(rm.take(k as int), line@, file@, lineno as int),
        decreases rules@.len() - k,
    {
        let rule = &rules[k];
        let caps = group1_captures(&rule.pattern, line.as_str());
        let ghost cm = caps@.map_values(|c: Option<String>| match c {
            Some(s) => Some(s@),
            None => None,
        });
        let ghost before = out@.map_values(|u: ConfigUsage| usage_model(u));
        let mut j: usize = 0;
        while j < caps.len()
            invariant
                j <= caps@.len(),
                cm == caps@.map_values(|c: Option<String>| match c {
                    Some(s) => Some(s@),
                    None => None,
                }),
                out@.map_values(|u: ConfigUsage| usage_model(u)) == before + present_keys(cm.take(j as int)).map_values(
                    |key: Seq<char>| (key, file@, lineno as int, rule.kind, rule.confidence),
                ),
            decreases caps@.len() - j,
        {
            proof {
                assert(cm.take(j + 1).drop_last() =~= cm.take(j as int));
                assert(cm.take(j + 1).last() == cm[j as int]);
            }
            match &caps[j] {
                Some(key) => {
                    let u = ConfigUsage {
                        key: key.clone(),
                        file: file.to_owned(),
                        line: lineno,
                        usage_type: rule.kind,
                        confidence: rule.confidence,
                    };
                    let ghost out_before = out@;
                    out.push(u);
                    proof {
                        let f = |key: Seq<char>| (key, file@, lineno as int, rule.kind, rule.confidence);
                        let pk = present_keys(cm.take(j as int));
                        assert(cm[j as int] == Some(key@));
                        assert(present_keys(cm.take(j + 1)) == pk.push(key@));
                        assert(pk.push(key@).map_values(f) =~= pk.map_values(f).push(f(key@)));
                        assert(usage_model(u) == f(key@));
                        assert(out@.map_values(|u: ConfigUsage| usage_model(u)) =~= out_before.map_values(
                            |u: ConfigUsage| usage_model(u),
                        ).push(usage_model(u)));
                        assert(out@.map_values(|u: ConfigUsage| usage_model(u)) =~= before + pk.push(key@).map_values(f));
                    }
                },
                None => {
                    proof {
                        assert(present_keys(cm.take(j + 1)) == present_keys(cm.take(j as int)));
                    }
                },
            }
            j = j + 1;
        }
        proof {
            assert(cm.take(caps@.len() as int) =~= cm);
            assert(rm.take(k + 1).drop_last() =~= rm.take(k as int));
            assert(rm.take(k + 1).last() == rule_model(*rule));
            assert(out@.map_values(|u: ConfigUsage| usage_model(u)) =~= out0 + rules_line_usages(rm.take(k + 1), line@, file@, lineno as int));
        }
        k = k + 1;
    }
    proof {
        assert(rm.take(rules@.len() as int) =~= rm);
    }
}

/// Usages that `rules` find in `source`.
fn detect_with_rules(rules: &Vec<Rule>, source: &str, file: &str) -> (out: Vec<ConfigUsage>)
    ensures
        out@.map_values(|u: ConfigUsage| usage_model(u)) == rules_usages(rules@.map_values(|r: Rule| rule_model(r)), lines_of(source@), file@),
{
    let ghost rm = rules@.map_values(|r: Rule| rule_model(r));
    let lines = split_lines(source);
    let ghost lm = lines@.map_values(|l: String| l@);
    let mut out: Vec<ConfigUsage> = Vec::new();
    let mut i: usize = 0;
    proof {
        assert(lm.take(0) =~= Seq::<Seq<char>>::empty());
        assert(out@.map_values(|u: ConfigUsage| usage_model(u)) =~= Seq::<UsageModel>::empty());
    }
    while i < lines.len()
        invariant
            i <= lines@.len(),
            lm == lines@.map_values(|l: String| l@),
            rm == rules@.map_values(|r: Rule| rule_model(r)),
            out@.map_values(|u: ConfigUsage| usage_model(u)) == rules_usages(rm, lm.take(i as int), file@),
        decreases lines@.len() - i,
    {
        detect_line(rules, &lines[i], file, i + 1, &mut out);
        proof {
            assert(lm.take(i + 1).drop_last() =~= lm.take(i as int));
            assert(lm.take(i + 1).last() == lines@[i as int]@);
        }
        i = i + 1;
    }
    proof {
        assert(lm.take(lines@.len() as int) =~= lm);
    }
    out
}

/// Compile the rules of a language; `None` when a pattern does not compile.
fn compile_rules(language_id: &str) -> (r: Option<Vec<Rule>>)
    ensures
        r is Some <==> rules_compile(language_rules(language_id@)),
        r matches Some(rules) ==> rules@.map_values(|x: Rule| rule_model(x)) == language_rules(language_id@),
{
    let mut specs: Vec<(&str, ConfigUsageKind, ConfigConfidence)> = Vec::new();
    if str_eq(language_id, "rust") {
        specs.push((r#"env::var(?:_os)?\("([^"]+)"\)"#, ConfigUsageKind::EnvVar, ConfigConfidence::Extracted));
        specs.push((r#"\.get\("([^"]+)"\)"#, ConfigUsageKind::ConfigKey, ConfigConfidence::Inferred));
    } else if str_eq(language_id, "python") {
        specs.push((r#"os\.environ\[['"]([^'"]+)['"]\]"#, ConfigUsageKind::EnvVar, ConfigConfidence::Extracted));
        specs.push((r#"os\.getenv\(['"]([^'"]+)['"]\)"#, ConfigUsageKind::EnvVar, ConfigConfidence::Extracted));
    } else if str_eq(language_id, "typescript") || str_eq(language_id, "javascript") {
        specs.push((r#"process\.env\.([A-Z0-9_]+)"#, ConfigUsageKind::EnvVar, ConfigConfidence::Extracted));
        specs.push((r#"process\.env\[['"]([^'"]+)['"]\]"#, ConfigUsageKind::EnvVar, ConfigConfidence::Extracted));
    } else if str_eq(language_id, "go") {
        specs.push((r#"os\.Getenv\("([^"]+)"\)"#, ConfigUsageKind::EnvVar, ConfigConfidence::Extracted));
    }
    let ghost want = language_rules(language_id@);
    proof {
        assert(specs@.map_values(|s: (&str, ConfigUsageKind, ConfigConfidence)| (s.0@, s.1, s.2)) =~= want);
    }
    let mut rules: Vec<Rule> = Vec::new();
    let mut k: usize = 0;
    while k < specs.len()
        invariant
            k <= specs@.len(),
            want == specs@.map_values(|s: (&str, ConfigUsageKind, ConfigConfidence)| (s.0@, s.1, s.2)),
            want == language_rules(language_id@),
            rules@.map_values(|x: Rule| rule_model(x)) == want.take(k as int),
            forall|j: int| 0 <= j < k ==> #[trigger] regex_compiles(want[j].0),
        decreases specs@.len() - k,
    {
        let (p, kind, confidence) = specs[k];
        proof {
            assert(want[k as int] == (p@, kind, confidence));
        }
        match compile_pattern(p) {
            Some(pattern) => {
                let ghost rb = rules@;
                let x = Rule { pattern, kind, confidence };
                rules.push(x);
                proof {
                    assert(rule_model(x) == want[k as int]);
                    assert(rules@ == rb.push(x));
                    assert(rb.push(x).map_values(|x: Rule| rule_model(x)) =~= rb.map_values(|x: Rule| rule_model(x)).push(rule_model(x)));
                    assert(want.take(k + 1) =~= want.take(k as int).push(want[k as int]));
                    assert(rules@.map_values(|x: Rule| rule_model(x)) =~= want.take(k + 1));
                }
            },
            None => {
                proof {
                    assert(!regex_compiles(want[k as int].0));
                }
                return None;
            },
        }
        k = k + 1;
    }
    proof {
        assert(want.take(specs@.len() as int) =~= want);
    }
    Some(rules)
}

/// Detects configuration and environment variable references in source code.
pub struct ConfigUsageDetector;

impl ConfigUsageDetector {
    /// Detect config usages for a supported language (`rust`, `python`,
    /// `typescript` / `javascript`, `go`); other languages give none. The
    /// source is read as UTF-8 with invalid sequences replaced.
    pub fn detect(language_id: &str, source: &[u8], file_path: &str) -> (usages: Vec<ConfigUsage>)
        ensures
            usages@.map_values(|u: ConfigUsage| usage_model(u)) == detected_usages(
                language_id@,
                utf8_lossy_text(source@),
                file_path@,
            ),
    {
        let text = utf8_lossy(source);
        match compile_rules(language_id) {
            Some(rules) => detect_with_rules(&rules, text.as_str(), file_path),
            None => Vec::new(),
        }
    }
}

} // verus!
