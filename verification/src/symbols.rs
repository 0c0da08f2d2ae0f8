//! What a language extractor hands the graph builder: symbols, relations
//! between them, configuration keys and complexity figures, as plain values.

use vstd::prelude::*;

verus! {

/// Where an extracted item stands in its source file.
#[derive(Clone, Debug)]
pub struct SourceLocation {
    /// Source file.
    pub file: String,
    /// First line.
    pub start_line: usize,
    /// Last line.
    pub end_line: usize,
    /// First column.
    pub start_column: usize,
    /// Last column.
    pub end_column: usize,
}

/// Kind of an extracted symbol.
#[derive(Clone, Copy, Debug, PartialEq, Eq, Structural)]
pub enum SymbolType {
    Function,
    Class,
    Struct,
    Enum,
    Interface,
    Annotation,
    Module,
    Variable,
    TypeAlias,
    Macro,
    Import,
    Table,
    Dependency,
    Job,
    BuildStep,
    AnsiblePlaybook,
    AnsiblePlay,
    AnsibleTask,
    AnsibleRole,
    AnsibleHandler,
    AnsibleVariable,
    AnsibleTemplate,
    ChefCookbook,
    ChefRecipe,
    ChefResource,
    ChefAttribute,
    ChefTemplate,
    ChefCustomResource,
    PuppetModule,
    PuppetClass,
    PuppetDefinedType,
    PuppetResource,
    PuppetVariable,
    PuppetFact,
}

/// Kind of an extracted relation.
#[derive(Clone, Copy, Debug, PartialEq, Eq, Structural)]
pub enum RelationType {
    Calls,
    Uses,
    Implements,
    Extends,
    AnnotatedWith,
    Permits,
    Defines,
    References,
    Instantiates,
    Modifies,
    DependsOn,
    IncludesRole,
    DependsOnRole,
    ExecutesTask,
    NotifiesHandler,
    IncludesPlaybook,
    UsesVariable,
    RendersTemplate,
    DependsOnCookbook,
    IncludesRecipe,
    DeclaresResource,
    UsesTemplate,
    DefinesAttribute,
    NotifiesResource,
    DependsOnModule,
    IncludesClass,
    InheritsClass,
    RequiresResource,
    UsesFact,
}

/// A scalar metadata value of an extracted item, as the graph stores it.
#[derive(Clone, Debug)]
pub enum MetaValue {
    /// A string.
    Text(String),
    /// A boolean.
    Flag(bool),
    /// A number, in its decimal rendering.
    Number(String),
    /// Anything else (null, an array, an object); the graph keeps none of it.
    Other,
}

/// A data member of a type.
#[derive(Clone, Debug)]
pub struct Field {
    /// Member name.
    pub name: String,
    /// Declared type, when known.
    pub field_type: Option<String>,
    /// Visibility, when known.
    pub visibility: Option<String>,
}

/// An extracted symbol.
#[derive(Clone, Debug)]
pub struct Symbol {
    /// Short name.
    pub name: String,
    /// Kind of symbol.
    pub symbol_type: SymbolType,
    /// Fully qualified name, when known.
    pub qualified_name: Option<String>,
    /// Where it is defined.
    pub location: SourceLocation,
    /// Signature text, when known.
    pub signature: Option<String>,
    /// Declared return type, when known.
    pub return_type: Option<String>,
    /// Data members.
    pub fields: Vec<Field>,
    /// Modifiers such as `public` or `static`.
    pub modifiers: Vec<String>,
    /// Documentation text, when present.
    pub documentation: Option<String>,
    /// Metadata entries, in order.
    pub metadata: Vec<(String, MetaValue)>,
}

/// An extracted relation between two symbols, by name.
#[derive(Clone, Debug)]
pub struct Relation {
    /// Name of the source symbol.
    pub from: String,
    /// Name of the target symbol.
    pub to: String,
    /// Kind of relation.
    pub relation_type: RelationType,
    /// Where it occurs.
    pub location: SourceLocation,
    /// Metadata entries, in order.
    pub metadata: Vec<(String, MetaValue)>,
    /// Qualified name of the target, when the extractor knows it.
    pub to_qualified_hint: Option<String>,
    /// Type that owns the target, when the extractor knows it.
    pub to_type_hint: Option<String>,
}

/// An extracted configuration key.
#[derive(Clone, Debug)]
pub struct ConfigKey {
    /// Dotted path of the key.
    pub key_path: String,
    /// Its value, as text.
    pub value: String,
    /// Name of the kind of its value (such as `String`).
    pub value_type: String,
    /// Where it is defined.
    pub location: SourceLocation,
}

/// Complexity figures of a function.
#[derive(Clone, Copy, Debug)]
pub struct ComplexityMetrics {
    /// Cyclomatic complexity.
    pub cyclomatic: u32,
    /// Cognitive complexity.
    pub cognitive: u32,
    /// Lines of code.
    pub loc: u32,
    /// Deepest nesting.
    pub nesting_depth: u32,
}

} // verus!
