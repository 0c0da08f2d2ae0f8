//! Markdown documentation: headings and code blocks become module symbols,
//! from the events of the `pulldown-cmark` parser.

use crate::error::Error;
use crate::symbols::{ComplexityMetrics, MetaValue, Relation, SourceLocation, Symbol, SymbolType};
use crate::text::{concat_str, decimal, decimal_chars, from_chars};
use crate::usage_detector::{utf8_lossy, utf8_lossy_text};
use pulldown_cmark::{CodeBlockKind, Event, Parser, Tag};
use vstd::prelude::*;

verus! {

/// A parser event, as far as the extraction reads it.
#[derive(Clone, Debug)]
pub enum MdEvent {
    /// The start of a heading.
    HeadingStart,
    /// A text node.
    Text(String),
    /// The start of a fenced code block, with its fence's language.
    FencedCodeBlockStart(String),
    /// The start of an indented code block.
    IndentedCodeBlockStart,
    /// A soft line break.
    SoftBreak,
    /// A hard line break.
    HardBreak,
    /// Any other event.
    Other,
}

/// A parser event as plain values.
pub enum MdEventView {
    HeadingStart,
    Text(Seq<char>),
    FencedCodeBlockStart(Seq<char>),
    IndentedCodeBlockStart,
    SoftBreak,
    HardBreak,
    Other,
}

impl View for MdEvent {
    type V = MdEventView;

    open spec fn view(&self) -> MdEventView {
        match self {
            MdEvent::HeadingStart => MdEventView::HeadingStart,
            MdEvent::Text(t) => MdEventView::Text(t@),
            MdEvent::FencedCodeBlockStart(l) => MdEventView::FencedCodeBlockStart(l@),
            MdEvent::IndentedCodeBlockStart => MdEventView::IndentedCodeBlockStart,
            MdEvent::SoftBreak => MdEventView::SoftBreak,
            MdEvent::HardBreak => MdEventView::HardBreak,
            MdEvent::Other => MdEventView::Other,
        }
    }
}

/// The events `pulldown_cmark::Parser` yields for `text` (default options).
pub uninterp spec fn markdown_events(text: Seq<char>) -> Seq<MdEventView>;

/// Runs `pulldown_cmark::Parser::new` over `text` and keeps, of each event,
/// what the extraction reads. Claimed: the result is `markdown_events` of
/// the text.
#[verifier::external_body]
fn parse_markdown(text: &str) -> (events: Vec<MdEvent>)
    ensures
        events@.map_values(|e: MdEvent| e@) == markdown_events(text@),
{
    Parser::new(text).map(|event| match event {
        Event::Start(Tag::Heading { .. }) => MdEvent::HeadingStart,
        Event::Text(t) => MdEvent::Text(t.to_string()),
        Event::Start(Tag::CodeBlock(CodeBlockKind::Fenced(lang))) => MdEvent::FencedCodeBlockStart(lang.to_string()),
        Event::Start(Tag::CodeBlock(CodeBlockKind::Indented)) => MdEvent::IndentedCodeBlockStart,
        Event::SoftBreak => MdEvent::SoftBreak,
        Event::HardBreak => MdEvent::HardBreak,
        _ => MdEvent::Other,
    }).collect()
}

/// A symbol the extraction makes: a heading with its text and line, or the
/// `index`-th code block with its language and line.
pub enum MdSymbol {
    Heading(Seq<char>, int),
    CodeBlock(int, Seq<char>, int),
}

/// The extraction's state: symbols so far, line breaks seen, code blocks
/// seen, and whether a heading waits for its text.
pub struct MdState {
    pub symbols: Seq<MdSymbol>,
    pub breaks: int,
    pub code_blocks: int,
    pub pending_heading: bool,
}

/// The state after one more event: a heading's first text names it; a code
/// block is numbered, an indented one with an empty language; soft and hard
/// line breaks alike advance the line (lines start at 1).
pub open spec fn md_step(s: MdState, e: MdEventView) -> MdState {
    match e {
        MdEventView::HeadingStart => MdState { pending_heading: true, ..s },
        MdEventView::Text(t) => if s.pending_heading {
            MdState { symbols: s.symbols.push(MdSymbol::Heading(t, s.breaks + 1)), pending_heading: false, ..s }
        } else {
            s
        },
        MdEventView::FencedCodeBlockStart(lang) => MdState {
            symbols: s.symbols.push(MdSymbol::CodeBlock(s.code_blocks, lang, s.breaks + 1)),
            code_blocks: s.code_blocks + 1,
            ..s
        },
        MdEventView::IndentedCodeBlockStart => MdState {
            symbols: s.symbols.push(MdSymbol::CodeBlock(s.code_blocks, Seq::empty(), s.breaks + 1)),
            code_blocks: s.code_blocks + 1,
            ..s
        },
        MdEventView::SoftBreak | MdEventView::HardBreak => MdState { breaks: s.breaks + 1, ..s },
        MdEventView::Other => s,
    }
}

/// The state after `events`.
pub open spec fn md_fold(events: Seq<MdEventView>) -> MdState
    decreases events.len(),
{
    if events.len() == 0 {
        MdState { symbols: Seq::empty(), breaks: 0, code_blocks: 0, pending_heading: false }
    } else {
        md_step(md_fold(events.drop_last()), events.last())
    }
}

/// `m` holds exactly the entry `key` = `value` (text).
pub open spec fn meta_is(m: (String, MetaValue), key: Seq<char>, value: Seq<char>) -> bool {
    m.0@ == key && (m.1 matches MetaValue::Text(t) && t@ == value)
}

/// `sym` is the symbol of `plan` in `file`: a module at one line with no
/// qualified name, signature, return type, fields, modifiers or docs.
pub open spec fn is_md_symbol(sym: Symbol, plan: MdSymbol, file: Seq<char>) -> bool {
    let line = match plan {
        MdSymbol::Heading(_, l) => l,
        MdSymbol::CodeBlock(_, _, l) => l,
    };
    &&& sym.symbol_type == SymbolType::Module
    &&& sym.location.file@ == file
    &&& sym.location.start_line == line && sym.location.end_line == line
    &&& sym.location.start_column == 0 && sym.location.end_column == 0
    &&& sym.qualified_name is None && sym.signature is None && sym.return_type is None
    &&& sym.documentation is None
    &&& sym.fields@.len() == 0 && sym.modifiers@.len() == 0
    &&& match plan {
        MdSymbol::Heading(text, _) => {
            &&& sym.name@ == text
            &&& sym.metadata@.len() == 1
            &&& meta_is(sym.metadata@[0], "kind"@, "heading"@)
        },
        MdSymbol::CodeBlock(index, lang, _) => {
            &&& sym.name@ == "code_block_"@ + decimal(index as nat)
            &&& sym.metadata@.len() == 2
            &&& meta_is(sym.metadata@[0], "kind"@, "code_block"@)
            &&& meta_is(sym.metadata@[1], "language"@, lang)
        },
    }
}

/// Which parts of the extraction a language plugin supports.
#[derive(Clone, Copy, Debug, PartialEq, Eq, Structural)]
pub struct LanguageCapabilities {
    pub extracts_functions: bool,
    pub extracts_types: bool,
    pub extracts_modules: bool,
    pub extracts_relations: bool,
    pub calculates_complexity: bool,
    pub extracts_documentation: bool,
    pub supports_incremental: bool,
}

/// The symbols the extraction makes from parser events, in order (see `md_step`).
pub fn symbols_from_events(events: &Vec<MdEvent>, file_path: &str) -> (symbols: Vec<Symbol>)
    ensures
        ({
            let plans = md_fold(events@.map_values(|e: MdEvent| e@)).symbols;
            &&& symbols@.len() == plans.len()
            &&& forall|i: int| 0 <= i < plans.len() ==> is_md_symbol(#[trigger] symbols@[i], plans[i], file_path@)
        }),
{
    let ghost ev = events@.map_values(|e: MdEvent| e@);
    let mut symbols: Vec<Symbol> = Vec::new();
    let mut breaks: usize = 0;
    let mut code_index: usize = 0;
    let mut pending_heading = false;
    let mut i: usize = 0;
    proof {
        assert(ev.take(0) =~= Seq::<MdEventView>::empty());
    }
    while i < events.len()
        invariant
            i <= events@.len(),
            ev == events@.map_values(|e: MdEvent| e@),
            breaks <= i && code_index <= i,
            ({
                let s = md_fold(ev.take(i as int));
                &&& s.breaks == breaks as int
                &&& s.code_blocks == code_index as int
                &&& s.pending_heading == pending_heading
                &&& s.symbols.len() == symbols@.len()
                &&& forall|j: int| 0 <= j < symbols@.len() ==> is_md_symbol(#[trigger] symbols@[j], s.symbols[j], file_path@)
            }),
        decreases events@.len() - i,
    {
        let ghost before = md_fold(ev.take(i as int));
        proof {
            assert(ev.take(i + 1).drop_last() =~= ev.take(i as int));
            assert(ev.take(i + 1).last() == ev[i as int]);
        }
        let ghost syms0 = symbols@;
        match &events[i] {
            MdEvent::HeadingStart => {
                pending_heading = true;
            },
            MdEvent::Text(content) => {
                if pending_heading {
                    let mut metadata: Vec<(String, MetaValue)> = Vec::new();
                    metadata.push(text_entry("kind", "heading".to_owned()));
                    symbols.push(md_symbol(content.clone(), file_path, breaks + 1, metadata));
                    pending_heading = false;
                    proof {
                        assert forall|j: int| 0 <= j < symbols@.len() implies is_md_symbol(
                            #[trigger] symbols@[j],
                            md_fold(ev.take(i + 1)).symbols[j],
                            file_path@,
                        ) by {
                            if j < syms0.len() {
                                assert(symbols@[j] == syms0[j]);
                            }
                        }
                    }
                }
            },
            MdEvent::FencedCodeBlockStart(_) | MdEvent::IndentedCodeBlockStart => {
                let lang = match &events[i] {
                    MdEvent::FencedCodeBlockStart(l) => l.clone(),
                    _ => String::new(),
                };
                let digits = decimal_chars(code_index as u64);
                let number = from_chars(digits.as_slice());
                let name = concat_str("code_block_", number.as_str());
                let mut metadata: Vec<(String, MetaValue)> = Vec::new();
                metadata.push(text_entry("kind", "code_block".to_owned()));
                metadata.push(text_entry("language", lang.clone()));
                symbols.push(md_symbol(name, file_path, breaks + 1, metadata));
                code_index = code_index + 1;
                proof {
                    assert forall|j: int| 0 <= j < symbols@.len() implies is_md_symbol(
                        #[trigger] symbols@[j],
                        md_fold(ev.take(i + 1)).symbols[j],
                        file_path@,
                    ) by {
                        if j < syms0.len() {
                            assert(symbols@[j] == syms0[j]);
                        }
                    }
                }
            },
            MdEvent::SoftBreak | MdEvent::HardBreak => {
                breaks = breaks + 1;
            },
            MdEvent::Other => {},
        }
        i = i + 1;
    }
    proof {
        assert(ev.take(i as int) =~= ev);
    }
    symbols
}

/// Markdown documentation plugin.
pub struct MarkdownPlugin;

fn text_entry(key: &str, value: String) -> (m: (String, MetaValue))
    ensures
        meta_is(m, key@, value@),
{
    (key.to_owned(), MetaValue::Text(value))
}

impl MarkdownPlugin {
    /// Create a new markdown plugin.
    pub fn new() -> (r: Result<Self, Error>)
        ensures
            r is Ok,
    {
        Ok(MarkdownPlugin)
    }

    /// The language id, `markdown`.
    pub fn language_id(&self) -> (r: &'static str)
        ensures
            r@ == "markdown"@,
    {
        "markdown"
    }

    /// The file extensions handled: `md` and `mdx`.
    pub fn file_extensions(&self) -> (r: Vec<&'static str>)
        ensures
            r@.len() == 2 && r@[0]@ == "md"@ && r@[1]@ == "mdx"@,
    {
        vec!["md", "mdx"]
    }

    /// Markdown yields modules and documentation only.
    pub fn capabilities(&self) -> (c: LanguageCapabilities)
        ensures
            c == (LanguageCapabilities {
                extracts_functions: false,
                extracts_types: false,
                extracts_modules: true,
                extracts_relations: false,
                calculates_complexity: false,
                extracts_documentation: true,
                supports_incremental: false,
            }),
    {
        LanguageCapabilities {
            extracts_functions: false,
            extracts_types: false,
            extracts_modules: true,
            extracts_relations: false,
            calculates_complexity: false,
            extracts_documentation: true,
            supports_incremental: false,
        }
    }

    /// Headings and code blocks of the document (read as UTF-8 with invalid
    /// sequences replaced), in document order (see `md_step`).
    pub fn extract_symbols(&self, file_path: &str, source: &[u8]) -> (r: Result<Vec<Symbol>, Error>)
        ensures
            r matches Ok(symbols) && {
                let plans = md_fold(markdown_events(utf8_lossy_text(source@))).symbols;
                &&& symbols@.len() == plans.len()
                &&& forall|i: int| 0 <= i < plans.len() ==> is_md_symbol(#[trigger] symbols@[i], plans[i], file_path@)
            },
    {
        let text = utf8_lossy(source);
        let events = parse_markdown(text.as_str());
        Ok(symbols_from_events(&events, file_path))
    }

    /// Markdown has no relations.
    pub fn extract_relations(&self, _file_path: &str, _source: &[u8], _symbols: &[Symbol]) -> (r: Result<Vec<Relation>, Error>)
        ensures
            r matches Ok(v) && v@.len() == 0,
    {
        Ok(Vec::new())
    }

    /// Markdown has no complexity figures.
    pub fn calculate_complexity(&self, _symbol: &Symbol, _source: &[u8]) -> (r: Result<Option<ComplexityMetrics>, Error>)
        ensures
            r matches Ok(None),
    {
        Ok(None)
    }
}

/// A module symbol named `name` at `line` of `file`, with `metadata`.
fn md_symbol(name: String, file: &str, line: usize, metadata: Vec<(String, MetaValue)>) -> (s: Symbol)
    ensures
        s.name == name,
        s.symbol_type == SymbolType::Module,
        s.location.file@ == file@,
        s.location.start_line == line && s.location.end_line == line,
        s.location.start_column == 0 && s.location.end_column == 0,
        s.qualified_name is None && s.signature is None && s.return_type is None,
        s.documentation is None,
        s.fields@.len() == 0 && s.modifiers@.len() == 0,
        s.metadata == metadata,
{
    Symbol {
        name,
        symbol_type: SymbolType::Module,
        qualified_name: None,
        location: SourceLocation { file: file.to_owned(), start_line: line, end_line: line, start_column: 0, end_column: 0 },
        signature: None,
        return_type: None,
        fields: Vec::new(),
        modifiers: Vec::new(),
        documentation: None,
        metadata,
    }
}

} // verus!
