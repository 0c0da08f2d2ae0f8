use rgbuilder::markdown::{symbols_from_events, MarkdownPlugin, MdEvent};
use rgbuilder::symbols::{MetaValue, SymbolType};

fn meta_text<'a>(meta: &'a [(String, MetaValue)], key: &str) -> Option<&'a str> {
    meta.iter().find(|(k, _)| k == key).and_then(|(_, v)| match v {
        MetaValue::Text(t) => Some(t.as_str()),
        _ => None,
    })
}

#[test]
fn test_markdown_heading_extraction() {
    let md = r#"# API Documentation

## Authentication

### JWT Tokens
"#;
    let plugin = MarkdownPlugin::new().unwrap();
    let symbols = plugin.extract_symbols("README.md", md.as_bytes()).unwrap();

    assert_eq!(symbols.len(), 3);
    assert_eq!(symbols[0].name, "API Documentation");
}

#[test]
fn code_blocks_are_numbered_with_their_language() {
    let md = "intro line\nsecond line\n\n# Usage\n\n```rust\nfn main() {}\n```\n\n    indented code\n";
    let plugin = MarkdownPlugin::new().unwrap();
    let symbols = plugin.extract_symbols("guide.md", md.as_bytes()).unwrap();
    assert_eq!(symbols.len(), 3);
    assert!(symbols.iter().all(|s| s.symbol_type == SymbolType::Module && s.location.file == "guide.md"));

    assert_eq!(symbols[0].name, "Usage");
    assert_eq!(symbols[0].location.start_line, 2); // one soft break before it
    assert_eq!(meta_text(&symbols[0].metadata, "kind"), Some("heading"));

    assert_eq!(symbols[1].name, "code_block_0");
    assert_eq!(meta_text(&symbols[1].metadata, "kind"), Some("code_block"));
    assert_eq!(meta_text(&symbols[1].metadata, "language"), Some("rust"));

    assert_eq!(symbols[2].name, "code_block_1");
    assert_eq!(meta_text(&symbols[2].metadata, "language"), Some(""));
}

#[test]
fn markdown_plugin_describes_itself() {
    let plugin = MarkdownPlugin::new().unwrap();
    assert_eq!(plugin.language_id(), "markdown");
    assert_eq!(plugin.file_extensions(), vec!["md", "mdx"]);
    let caps = plugin.capabilities();
    assert!(caps.extracts_modules && caps.extracts_documentation);
    assert!(!caps.extracts_functions && !caps.extracts_relations);
    assert!(plugin.extract_relations("a.md", b"# x", &[]).unwrap().is_empty());
}

#[test]
fn events_become_symbols_with_lines_from_both_break_kinds() {
    let events = vec![
        MdEvent::HeadingStart,
        MdEvent::Text("Intro".to_string()),
        MdEvent::Text("ignored".to_string()),
        MdEvent::SoftBreak,
        MdEvent::HardBreak,
        MdEvent::IndentedCodeBlockStart,
        MdEvent::Other,
        MdEvent::FencedCodeBlockStart("rust".to_string()),
    ];
    let symbols = symbols_from_events(&events, "doc.md");
    assert_eq!(symbols.len(), 3);
    assert_eq!(symbols[0].name, "Intro");
    assert_eq!(symbols[0].location.start_line, 1);
    assert_eq!(meta_text(&symbols[0].metadata, "kind"), Some("heading"));
    assert_eq!(symbols[1].name, "code_block_0");
    assert_eq!(symbols[1].location.start_line, 3);
    assert_eq!(meta_text(&symbols[1].metadata, "language"), Some(""));
    assert_eq!(symbols[2].name, "code_block_1");
    assert_eq!(meta_text(&symbols[2].metadata, "language"), Some("rust"));
    assert!(symbols.iter().all(|s| s.symbol_type == SymbolType::Module && s.location.file == "doc.md"));
}
