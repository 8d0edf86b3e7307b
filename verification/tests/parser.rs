//! Parsing documents and laying out their live preview.
use markdown_preview::cmark::{ENABLE_YAML_STYLE_METADATA_BLOCKS, PARSE_OPTIONS};
use markdown_preview::convert::ParsedMetadataBlock;
use markdown_preview::event::MarkdownEvent::{
    Code, End, FootnoteReference, Html, RootEnd, RootStart, Start, SubstitutedCode,
    SubstitutedText, TaskListMarker, Text,
};
use markdown_preview::event::MarkdownTag::{
    BlockQuote, CodeBlock, FootnoteDefinition, Heading, HtmlBlock, Link, MetadataBlock, Paragraph,
    Table, TableCell,
};
use markdown_preview::event::{
    CodeBlockKind, CodeBlockMetadata, MarkdownEvent, MarkdownTagEnd, RangedEvent,
};
use markdown_preview::headings::build_heading_slugs;
use markdown_preview::layout::{markdown_live_preview_blocks, markdown_live_preview_layout};
use markdown_preview::parse::{parse_markdown_with_options, ParsedMarkdownData};
use markdown_preview::preview::{
    MarkdownLivePreviewBlockKind, MarkdownLivePreviewInlineMarkerKind,
};
use markdown_preview::scan::{
    extract_code_block_content_range, extract_code_content_range, parse_metadata_table_rows,
    trim_metadata_range, MetadataRow,
};
use pulldown_cmark::{BlockQuoteKind, HeadingLevel, LinkType, MetadataBlockKind, Options};
use std::collections::{BTreeMap, HashMap};
use std::ops::Range;

/// Parses a text without taking over HTML blocks.
fn parse(
    text: &str,
    parse_html: bool,
    parse_heading_slugs: bool,
    parse_metadata_blocks: bool,
) -> ParsedMarkdownData {
    parse_markdown_with_options(
        text,
        parse_html,
        parse_heading_slugs,
        parse_metadata_blocks,
        &Vec::new(),
    )
}

/// What a parsed document is expected to hold.
#[derive(Debug, Default, PartialEq)]
struct Expected {
    events: Vec<RangedEvent>,
    language_names: Vec<String>,
    source_locations: Vec<String>,
    root_block_starts: Vec<usize>,
    html_blocks: Vec<usize>,
    metadata_blocks: BTreeMap<usize, ParsedMetadataBlock>,
    headings: usize,
    footnote_definitions: usize,
    link_definition_spans: Vec<Range<usize>>,
    has_untagged_code_block: bool,
}

fn summary(parsed: ParsedMarkdownData) -> Expected {
    Expected {
        events: parsed.events,
        language_names: parsed.language_names,
        source_locations: parsed.source_locations,
        root_block_starts: parsed.root_block_starts,
        html_blocks: parsed.html_blocks,
        metadata_blocks: parsed.metadata_blocks,
        headings: parsed.headings.len(),
        footnote_definitions: parsed.footnote_definitions.len(),
        link_definition_spans: parsed.link_definition_spans,
        has_untagged_code_block: parsed.has_untagged_code_block,
    }
}

/// A base slug: letters and digits in lower case, with dashes for spaces.
fn base_slug(text: &str) -> String {
    text.trim()
        .chars()
        .filter(|c| c.is_alphanumeric() || *c == ' ' || *c == '-' || *c == '_')
        .map(|c| if c == ' ' { '-' } else { c.to_ascii_lowercase() })
        .collect()
}

/// The slugs of a document's headings, with the offsets that they lead to.
fn heading_slugs(parsed: &ParsedMarkdownData) -> HashMap<String, usize> {
    let bases: Vec<String> = parsed.headings.iter().map(|h| base_slug(&h.text)).collect();
    let slugs = build_heading_slugs(&parsed.headings, &bases);
    let mut found = HashMap::new();
    for base in &bases {
        let mut candidates = vec![base.clone()];
        candidates.extend((1..200).map(|n| format!("{base}-{n}")));
        for slug in candidates {
            if let Some(offset) = slugs.get(&slug) {
                found.insert(slug, offset);
            }
        }
    }
    assert_eq!(found.len(), slugs.len());
    found
}

const CONDITIONAL_OPTIONS: Options = Options::ENABLE_YAML_STYLE_METADATA_BLOCKS;
const UNWANTED_OPTIONS: Options = Options::ENABLE_MATH
    .union(Options::ENABLE_DEFINITION_LIST)
    .union(Options::ENABLE_WIKILINKS);

fn wanted_options() -> Options {
    Options::from_bits_truncate(PARSE_OPTIONS)
}

#[test]
fn all_options_considered() {
    // The purpose of this is to fail when new options are added to pulldown_cmark, so that they
    // can be evaluated for inclusion.
    assert_eq!(
        wanted_options()
            .union(CONDITIONAL_OPTIONS)
            .union(UNWANTED_OPTIONS),
        Options::all()
    );
}

#[test]
fn wanted_and_unwanted_options_disjoint() {
    assert_eq!(
        wanted_options()
            .union(CONDITIONAL_OPTIONS)
            .intersection(UNWANTED_OPTIONS),
        Options::empty()
    );
}

#[test]
fn option_bits_are_those_of_the_parser() {
    assert_eq!(wanted_options().bits(), PARSE_OPTIONS);
    assert_eq!(CONDITIONAL_OPTIONS.bits(), ENABLE_YAML_STYLE_METADATA_BLOCKS);
    let wanted = Options::ENABLE_TABLES
        .union(Options::ENABLE_FOOTNOTES)
        .union(Options::ENABLE_STRIKETHROUGH)
        .union(Options::ENABLE_TASKLISTS)
        .union(Options::ENABLE_SMART_PUNCTUATION)
        .union(Options::ENABLE_HEADING_ATTRIBUTES)
        .union(Options::ENABLE_PLUSES_DELIMITED_METADATA_BLOCKS)
        .union(Options::ENABLE_OLD_FOOTNOTES)
        .union(Options::ENABLE_GFM)
        .union(Options::ENABLE_SUPERSCRIPT)
        .union(Options::ENABLE_SUBSCRIPT);
    assert_eq!(wanted, wanted_options());
}

#[test]
fn test_yaml_style_metadata_block() {
    assert_eq!(
        summary(parse("---\ntitle: Post\n---\n# Heading", false, false, true)),
        Expected {
            events: vec![
                (0..19, RootStart),
                (0..19, Start(MetadataBlock(MetadataBlockKind::YamlStyle))),
                (4..16, Text),
                (
                    0..19,
                    End(MarkdownTagEnd::MetadataBlock(MetadataBlockKind::YamlStyle))
                ),
                (0..19, RootEnd(0)),
                (20..29, RootStart),
                (
                    20..29,
                    Start(Heading {
                        level: HeadingLevel::H1,
                        id: None,
                        classes: Vec::new(),
                        attrs: Vec::new(),
                    })
                ),
                (22..29, Text),
                (20..29, End(MarkdownTagEnd::Heading(HeadingLevel::H1))),
                (20..29, RootEnd(1)),
            ],
            root_block_starts: vec![0, 20],
            metadata_blocks: BTreeMap::from_iter([(
                0,
                ParsedMetadataBlock {
                    content_range: 4..16,
                    rows: Some(vec![MetadataRow {
                        key: 4..9,
                        value: 11..15,
                    }]),
                },
            )]),
            ..Default::default()
        }
    )
}

#[test]
fn test_metadata_block_text_is_verbatim() {
    let parsed =
        parse("---\nurl: https://zed.dev\n---\nBody", false, false, true);
    assert!(
        parsed
            .events
            .iter()
            .all(|(_, event)| !matches!(event, Start(Link { .. })))
    );
}

#[test]
fn test_metadata_blocks_store_table_rows() {
    let parsed = parse(
        "---\ntitle: Post\nauthor: Zed\n---\nBody",
        false,
        false,
        true,
    );

    assert_eq!(
        parsed.metadata_blocks,
        BTreeMap::from_iter([(
            0,
            ParsedMetadataBlock {
                content_range: 4..28,
                rows: Some(vec![
                    MetadataRow {
                        key: 4..9,
                        value: 11..15,
                    },
                    MetadataRow {
                        key: 16..22,
                        value: 24..27,
                    },
                ]),
            },
        )])
    );
}

#[test]
fn test_metadata_blocks_store_fallback_for_nested_yaml() {
    let parsed =
        parse("---\ntags:\n  - zed\n---\nBody", false, false, true);

    assert_eq!(
        parsed.metadata_blocks,
        BTreeMap::from_iter([(
            0,
            ParsedMetadataBlock {
                content_range: 4..18,
                rows: None,
            },
        )])
    );
}

#[test]
fn test_metadata_table_rows_parse_simple_colon_pairs() {
    let source = "title: Post\nauthor: Zed\n";
    let Some(rows) = parse_metadata_table_rows(source, 0..source.len()) else {
        panic!("expected metadata rows");
    };
    let pairs = rows
        .into_iter()
        .map(|row| (&source[row.key], &source[row.value]))
        .collect::<Vec<_>>();

    assert_eq!(pairs, vec![("title", "Post"), ("author", "Zed")]);
}

#[test]
fn test_metadata_table_rows_reject_non_simple_colon_pairs() {
    for source in [
        "tags:\n  - zed\n",
        "title = Post\n",
        "title:\n",
        "title:   \n",
        ": Post\n",
        " title: Post\n",
        "\n",
    ] {
        assert!(parse_metadata_table_rows(source, 0..source.len()).is_none());
    }
}

#[test]
fn test_trim_metadata_range_returns_valid_empty_range() {
    let source = "key:   \n";
    let trimmed = trim_metadata_range(source, 4..7);

    assert_eq!(trimmed, 7..7);
    assert!(source[trimmed].is_empty());
}

#[test]
fn test_html_comments() {
    assert_eq!(
        summary(parse("  <!--\nrdoc-file=string.c\n-->\nReturns", false, false, false)),
        Expected {
            events: vec![
                (2..30, RootStart),
                (2..30, Start(HtmlBlock)),
                (2..2, SubstitutedText("  ".into())),
                (2..7, Html),
                (7..26, Html),
                (26..30, Html),
                (2..30, End(MarkdownTagEnd::HtmlBlock)),
                (2..30, RootEnd(0)),
                (30..37, RootStart),
                (30..37, Start(Paragraph)),
                (30..37, Text),
                (30..37, End(MarkdownTagEnd::Paragraph)),
                (30..37, RootEnd(1)),
            ],
            root_block_starts: vec![2, 30],
            ..Default::default()
        }
    )
}

#[test]
fn test_plain_urls_and_escaped_text() {
    assert_eq!(
        summary(parse("&nbsp;&nbsp; https://some.url some \\`&#9658;\\` text", false, false, false)),
        Expected {
            events: vec![
                (0..51, RootStart),
                (0..51, Start(Paragraph)),
                (0..6, SubstitutedText("\u{a0}".into())),
                (6..12, SubstitutedText("\u{a0}".into())),
                (12..13, Text),
                (
                    13..29,
                    Start(Link {
                        link_type: LinkType::Autolink,
                        dest_url: "https://some.url".into(),
                        title: "".into(),
                        id: "".into(),
                    })
                ),
                (13..29, Text),
                (13..29, End(MarkdownTagEnd::Link)),
                (29..35, Text),
                (36..37, Text), // Escaped backtick
                (37..44, SubstitutedText("►".into())),
                (45..46, Text), // Escaped backtick
                (46..51, Text),
                (0..51, End(MarkdownTagEnd::Paragraph)),
                (0..51, RootEnd(0)),
            ],
            root_block_starts: vec![0],
            ..Default::default()
        }
    );
}

#[test]
fn test_incomplete_link() {
    assert_eq!(
        parse(
            "You can use the [GitHub Search API](https://docs.github.com/en",
            false,
            false,
            false,
        )
        .events,
        vec![
            (0..62, RootStart),
            (0..62, Start(Paragraph)),
            (0..16, Text),
            (16..17, Text),
            (17..34, Text),
            (34..35, Text),
            (35..36, Text),
            (
                36..62,
                Start(Link {
                    link_type: LinkType::Autolink,
                    dest_url: "https://docs.github.com/en".into(),
                    title: "".into(),
                    id: "".into()
                })
            ),
            (36..62, Text),
            (36..62, End(MarkdownTagEnd::Link)),
            (0..62, End(MarkdownTagEnd::Paragraph)),
            (0..62, RootEnd(0)),
        ],
    );
}

#[test]
fn test_smart_punctuation() {
    assert_eq!(
        summary(parse("-- --- ... \"double quoted\" 'single quoted' ----------", false, false, false)),
        Expected {
            events: vec![
                (0..53, RootStart),
                (0..53, Start(Paragraph)),
                (0..2, SubstitutedText("–".into())),
                (2..3, Text),
                (3..6, SubstitutedText("—".into())),
                (6..7, Text),
                (7..10, SubstitutedText("…".into())),
                (10..11, Text),
                (11..12, SubstitutedText("\u{201c}".into())),
                (12..25, Text),
                (25..26, SubstitutedText("\u{201d}".into())),
                (26..27, Text),
                (27..28, SubstitutedText("\u{2018}".into())),
                (28..41, Text),
                (41..42, SubstitutedText("\u{2019}".into())),
                (42..43, Text),
                (43..53, SubstitutedText("–––––".into())),
                (0..53, End(MarkdownTagEnd::Paragraph)),
                (0..53, RootEnd(0)),
            ],
            root_block_starts: vec![0],
            ..Default::default()
        }
    )
}

#[test]
fn test_code_block_metadata() {
    assert_eq!(
        summary(parse("```rust\nfn main() {\n let a = 1;\n}\n```", false, false, false)),
        Expected {
            events: vec![
                (0..37, RootStart),
                (
                    0..37,
                    Start(CodeBlock {
                        kind: CodeBlockKind::FencedLang("rust".into()),
                        metadata: CodeBlockMetadata {
                            content_range: 8..34,
                            line_count: 3,
                            is_fenced_closed: true,
                        }
                    })
                ),
                (8..34, Text),
                (0..37, End(MarkdownTagEnd::CodeBlock)),
                (0..37, RootEnd(0)),
            ],
            language_names: vec!["rust".to_owned()],
            root_block_starts: vec![0],
            ..Default::default()
        }
    );
    assert_eq!(
        summary(parse("    fn main() {}", false, false, false)),
        Expected {
            events: vec![
                (4..16, RootStart),
                (
                    4..16,
                    Start(CodeBlock {
                        kind: CodeBlockKind::Indented,
                        metadata: CodeBlockMetadata {
                            content_range: 4..16,
                            line_count: 1,
                            is_fenced_closed: false,
                        }
                    })
                ),
                (4..16, Text),
                (4..16, End(MarkdownTagEnd::CodeBlock)),
                (4..16, RootEnd(0)),
            ],
            root_block_starts: vec![4],
            ..Default::default()
        }
    );

    for markdown in ["```mermaid\ngraph TD;\n~~~", "~~~~mermaid\ngraph TD;\n~~~"] {
        let parsed = parse(markdown, false, false, false);
        let metadata = parsed.events.iter().find_map(|(_, event)| match event {
            Start(CodeBlock { metadata, .. }) => Some(metadata),
            _ => None,
        });
        assert_eq!(
            metadata.map(|metadata| metadata.is_fenced_closed),
            Some(false)
        );
    }
}

fn assert_code_block_does_not_emit_links(markdown: &str) {
    let parsed = parse(markdown, false, false, false);
    let mut code_block_depth = 0;
    let mut code_block_count = 0;
    let mut saw_text_inside_code_block = false;

    for (_, event) in &parsed.events {
        match event {
            Start(CodeBlock { .. }) => {
                code_block_depth += 1;
                code_block_count += 1;
            }
            End(MarkdownTagEnd::CodeBlock) => {
                assert!(
                    code_block_depth > 0,
                    "encountered a code block end without a matching start"
                );
                code_block_depth -= 1;
            }
            Start(Link { .. }) | End(MarkdownTagEnd::Link) => {
                assert_eq!(
                    code_block_depth, 0,
                    "code blocks should not emit link events"
                );
            }
            Text | SubstitutedText(_) if code_block_depth > 0 => {
                saw_text_inside_code_block = true;
            }
            _ => {}
        }
    }

    assert_eq!(code_block_count, 1, "expected exactly one code block");
    assert_eq!(code_block_depth, 0, "unterminated code block");
    assert!(
        saw_text_inside_code_block,
        "expected text inside the code block"
    );
}

#[test]
fn test_code_blocks_do_not_autolink_urls() {
    assert_code_block_does_not_emit_links("```txt\nhttps://example.com\n```");
    assert_code_block_does_not_emit_links("    https://example.com");
    assert_code_block_does_not_emit_links(
        "```txt\r\nhttps:/\\/example.com\r\nhttps://example&#46;com\r\n```",
    );
    assert_code_block_does_not_emit_links(
        "    https:/\\/example.com\r\n    https://example&#46;com",
    );
}

#[test]
fn test_metadata_blocks_are_root_blocks() {
    assert_eq!(
        summary(parse("+++\ntitle = \"Example\"\n+++\n\nParagraph", false, false, true)),
        Expected {
            events: vec![
                (0..25, RootStart),
                (0..25, Start(MetadataBlock(MetadataBlockKind::PlusesStyle))),
                (4..22, Text),
                (
                    0..25,
                    End(MarkdownTagEnd::MetadataBlock(
                        MetadataBlockKind::PlusesStyle
                    ))
                ),
                (0..25, RootEnd(0)),
                (27..36, RootStart),
                (27..36, Start(Paragraph)),
                (27..36, Text),
                (27..36, End(MarkdownTagEnd::Paragraph)),
                (27..36, RootEnd(1)),
            ],
            root_block_starts: vec![0, 27],
            metadata_blocks: BTreeMap::from_iter([(
                0,
                ParsedMetadataBlock {
                    content_range: 4..22,
                    rows: None,
                },
            )]),
            ..Default::default()
        }
    );
}

#[test]
fn test_metadata_blocks_are_omitted_by_default() {
    assert_eq!(
        summary(parse("+++\ntitle = \"Example\"\n+++\n\nParagraph", false, false, false)),
        Expected {
            events: vec![
                (27..36, RootStart),
                (27..36, Start(Paragraph)),
                (27..36, Text),
                (27..36, End(MarkdownTagEnd::Paragraph)),
                (27..36, RootEnd(0)),
            ],
            root_block_starts: vec![27],
            ..Default::default()
        }
    );
}

#[test]
fn test_table_checkboxes_remain_text_in_cells() {
    let markdown = "\
| Done | Task    |
|------|---------|
| [x]  | Fix bug |
| [ ]  | Add feature |";
    let parsed = parse(markdown, false, false, false);

    let mut in_table = false;
    let mut saw_task_list_marker = false;
    let mut cell_texts = Vec::new();
    let mut current_cell = String::new();

    for (range, event) in &parsed.events {
        match event {
            Start(Table(_)) => in_table = true,
            End(MarkdownTagEnd::Table) => in_table = false,
            Start(TableCell) => current_cell.clear(),
            End(MarkdownTagEnd::TableCell) => {
                if in_table {
                    cell_texts.push(current_cell.clone());
                }
            }
            Text if in_table => current_cell.push_str(&markdown[range.clone()]),
            TaskListMarker(_) if in_table => saw_task_list_marker = true,
            _ => {}
        }
    }

    let checkbox_cells: Vec<&str> = cell_texts
        .iter()
        .map(|cell| cell.trim())
        .filter(|cell| *cell == "[x]" || *cell == "[X]" || *cell == "[ ]")
        .collect();

    assert!(
        !saw_task_list_marker,
        "Table checkboxes should remain text, not task-list markers"
    );
    assert_eq!(checkbox_cells, vec!["[x]", "[ ]"]);
}

#[test]
fn test_extract_code_content_range() {
    let input = "```let x = 5;```";
    assert_eq!(extract_code_content_range(input), 3..13);

    let input = "``let x = 5;``";
    assert_eq!(extract_code_content_range(input), 2..12);

    let input = "`let x = 5;`";
    assert_eq!(extract_code_content_range(input), 1..11);

    let input = "plain text";
    assert_eq!(extract_code_content_range(input), 0..10);

    let input = "``let x = 5;`";
    assert_eq!(extract_code_content_range(input), 0..13);
}

#[test]
fn test_inline_code_substitutes_escaped_pipes() {
    let markdown = r"| Pattern |
| --- |
| `a\|b` |";
    let parsed = parse(markdown, false, false, false);
    let code_range = {
        let start = markdown.find(r"a\|b").expect("inline code source");
        start..start + r"a\|b".len()
    };

    assert!(
        parsed
            .events
            .iter()
            .any(|(range, event)| range == &code_range
                && event == &SubstitutedCode("a|b".into())),
        "expected escaped pipe in table inline code to render as decoded inline code: {:?}",
        parsed.events
    );
}

#[test]
fn test_inline_code_keeps_escaped_pipes_outside_tables() {
    let markdown = r"`a\|b`";
    let parsed = parse(markdown, false, false, false);

    assert!(
        parsed
            .events
            .iter()
            .any(|(range, event)| range == &(1..5) && event == &Code),
        "expected escaped pipe outside a table to remain normal inline code: {:?}",
        parsed.events
    );
}

#[test]
fn test_extract_code_block_content_range() {
    let input = "```rust\nlet x = 5;\n```";
    assert_eq!(extract_code_block_content_range(input), 8..19);

    let input = "plain text";
    assert_eq!(extract_code_block_content_range(input), 0..10);

    let input = "```python\nprint('hello')\nprint('world')\n```";
    assert_eq!(extract_code_block_content_range(input), 10..40);

    let input = "~~~~mermaid\ngraph TD;\n~~~~";
    let content_range = extract_code_block_content_range(input);
    assert_eq!(&input[content_range], "graph TD;\n");

    let input = "~~~mermaid\ngraph TD;\n    ~~~~";
    let content_range = extract_code_block_content_range(input);
    assert_eq!(&input[content_range], "graph TD;\n    ~~~~");

    let input = "~~~mermaid\ngraph TD;\n   ~~~~ \t";
    let content_range = extract_code_block_content_range(input);
    assert_eq!(&input[content_range], "graph TD;\n");

    // Malformed input
    let input = "`````";
    assert_eq!(extract_code_block_content_range(input), 5..5);
}

#[test]
fn test_footnotes() {
    let parsed = parse(
        "Text with a footnote[^1] and some more text.\n\n[^1]: This is the footnote content.",
        false,
        false,
        false,
    );
    assert_eq!(
        parsed.events,
        vec![
            (0..45, RootStart),
            (0..45, Start(Paragraph)),
            (0..20, Text),
            (20..24, FootnoteReference("1".into())),
            (24..44, Text),
            (0..45, End(MarkdownTagEnd::Paragraph)),
            (0..45, RootEnd(0)),
            (46..81, RootStart),
            (46..81, Start(FootnoteDefinition("1".into()))),
            (52..81, Start(Paragraph)),
            (52..81, Text),
            (52..81, End(MarkdownTagEnd::Paragraph)),
            (46..81, End(MarkdownTagEnd::FootnoteDefinition)),
            (46..81, RootEnd(1)),
        ]
    );
    assert_eq!(parsed.footnote_definitions.len(), 1);
    assert_eq!(parsed.footnote_definitions.get("1"), Some(52));
}

#[test]
fn test_footnote_definitions_multiple() {
    let parsed = parse(
        "Text[^a] and[^b].\n\n[^a]: First.\n\n[^b]: Second.",
        false,
        false,
        false,
    );
    assert_eq!(parsed.footnote_definitions.len(), 2);
    assert!(parsed.footnote_definitions.contains_key("a"));
    assert!(parsed.footnote_definitions.contains_key("b"));
}

#[test]
fn test_links_split_across_fragments() {
    // This test verifies that links split across multiple text fragments due to escaping or other issues
    // are correctly detected and processed
    // Note: In real usage, pulldown_cmark creates separate text events for the escaped character
    // We're verifying our parser can handle this correctly
    assert_eq!(
        parse(
            "https:/\\/example.com is equivalent to https://example&#46;com!",
            false,
            false,
            false,
        )
        .events,
        vec![
            (0..62, RootStart),
            (0..62, Start(Paragraph)),
            (
                0..20,
                Start(Link {
                    link_type: LinkType::Autolink,
                    dest_url: "https://example.com".into(),
                    title: "".into(),
                    id: "".into()
                })
            ),
            (0..7, Text),
            (8..20, Text),
            (0..20, End(MarkdownTagEnd::Link)),
            (20..38, Text),
            (
                38..61,
                Start(Link {
                    link_type: LinkType::Autolink,
                    dest_url: "https://example.com".into(),
                    title: "".into(),
                    id: "".into()
                })
            ),
            (38..53, Text),
            (53..58, SubstitutedText(".".into())),
            (58..61, Text),
            (38..61, End(MarkdownTagEnd::Link)),
            (61..62, Text),
            (0..62, End(MarkdownTagEnd::Paragraph)),
            (0..62, RootEnd(0)),
        ],
    );

    assert_eq!(
        parse(
            "Visit https://example.com/cat\\/é&#8205;☕ for coffee!",
            false,
            false,
            false,
        )
        .events,
        [
            (0..55, RootStart),
            (0..55, Start(Paragraph)),
            (0..6, Text),
            (
                6..43,
                Start(Link {
                    link_type: LinkType::Autolink,
                    dest_url: "https://example.com/cat/é\u{200d}☕".into(),
                    title: "".into(),
                    id: "".into()
                })
            ),
            (6..29, Text),
            (30..33, Text),
            (33..40, SubstitutedText("\u{200d}".into())),
            (40..43, Text),
            (6..43, End(MarkdownTagEnd::Link)),
            (43..55, Text),
            (0..55, End(MarkdownTagEnd::Paragraph)),
            (0..55, RootEnd(0)),
        ]
    );
}

#[test]
fn test_heading_slugs() {
    let parsed = parse(
        "# Hello World\n\n## Code `block`\n\n### Third Level\n\n#### Fourth Level\n\n## Hello World",
        false,
        true,
        false,
    );
    let heading_slugs = heading_slugs(&parsed);
    assert_eq!(heading_slugs.len(), 5);
    assert!(heading_slugs.contains_key("hello-world"));
    assert!(heading_slugs.contains_key("code-block"));
    assert!(heading_slugs.contains_key("third-level"));
    assert!(heading_slugs.contains_key("fourth-level"));
    assert!(heading_slugs.contains_key("hello-world-1"));
}

#[test]
fn test_heading_source_index_for_slug() {
    let parsed = parse(
        "# Duplicate\n\nText\n\n## Duplicate\n\nMore text",
        false,
        true,
        false,
    );
    let heading_slugs = heading_slugs(&parsed);
    let first = heading_slugs.get("duplicate").copied();
    let second = heading_slugs.get("duplicate-1").copied();
    assert!(first.is_some());
    assert!(second.is_some());
    assert!(first.expect("first slug missing") < second.expect("second slug missing"));
}

#[test]
fn test_heading_slug_collision_with_dedup_suffix() {
    let parsed = parse("# Foo\n\n## Foo\n\n## Foo 1", false, true, false);
    let heading_slugs = heading_slugs(&parsed);
    assert_eq!(heading_slugs.len(), 3);
    assert!(heading_slugs.contains_key("foo"));
    assert!(heading_slugs.contains_key("foo-1"));
    assert!(heading_slugs.contains_key("foo-1-1"));
}

#[test]
fn test_gfm_alert_block_quote_kinds() {
    

    let markdown = "\n> [!NOTE]\n> A note.\n\n> [!TIP]\n> A tip.\n\n> [!IMPORTANT]\n> Important.\n\n> [!WARNING]\n> A warning.\n\n> [!CAUTION]\n> A caution.\n\n> Plain quote.\n";
    let parsed = parse(markdown, false, false, false);

    let block_quote_kinds: Vec<_> = parsed
        .events
        .iter()
        .filter_map(|(_, event)| match event {
            Start(BlockQuote(kind)) => Some(*kind),
            _ => None,
        })
        .collect();

    assert_eq!(
        block_quote_kinds,
        vec![
            Some(BlockQuoteKind::Note),
            Some(BlockQuoteKind::Tip),
            Some(BlockQuoteKind::Important),
            Some(BlockQuoteKind::Warning),
            Some(BlockQuoteKind::Caution),
            None,
        ]
    );
}

#[test]
fn test_markdown_live_preview_blocks_extract_display_text() {
    let blocks = markdown_live_preview_blocks("# Heading\n\nThis is **strong** and `code`.\n");

    assert_eq!(blocks.len(), 2);
    assert_eq!(blocks[0].kind, MarkdownLivePreviewBlockKind::Heading(1));
    assert_eq!(blocks[0].display_text, "Heading");
    assert_eq!(blocks[0].source_range, 0..9);
    assert_eq!(blocks[0].replacement_range, 0..10);
    assert_eq!(blocks[1].kind, MarkdownLivePreviewBlockKind::Paragraph);
    assert_eq!(blocks[1].display_text, "This is strong and code.");
    assert!(!blocks[0].source.ends_with('\n'));
    assert!(!blocks[1].source.ends_with('\n'));
}

#[test]
fn test_markdown_live_preview_blocks_leave_last_separator_character_editable() {
    let blocks = markdown_live_preview_blocks("First paragraph.\n\n\nSecond paragraph.\n");

    assert_eq!(blocks.len(), 2);
    assert_eq!(blocks[0].source_range, 0..16);
    assert_eq!(blocks[0].replacement_range, 0..18);
    assert_eq!(blocks[1].source_range, 19..36);
}

#[test]
fn test_markdown_live_preview_blocks_preserve_code_content() {
    let blocks = markdown_live_preview_blocks("```rust\nlet value = 1;\n```\n");

    assert_eq!(blocks.len(), 1);
    assert_eq!(
        blocks[0].kind,
        MarkdownLivePreviewBlockKind::CodeBlock {
            is_indented: false,
            is_mermaid: false,
        }
    );
    assert_eq!(blocks[0].display_text, "let value = 1;");
}

#[test]
fn test_markdown_live_preview_blocks_preserve_indented_code_source() {
    let blocks =
        markdown_live_preview_blocks("    plain indented code\n    no syntax highlighting\n");

    assert_eq!(blocks.len(), 1);
    assert_eq!(
        blocks[0].kind,
        MarkdownLivePreviewBlockKind::CodeBlock {
            is_indented: true,
            is_mermaid: false,
        }
    );
    assert_eq!(
        blocks[0].display_text,
        "plain indented code\nno syntax highlighting"
    );
    assert_eq!(
        blocks[0].source.as_str(),
        "    plain indented code\n    no syntax highlighting"
    );
}

#[test]
fn test_markdown_live_preview_blocks_classify_mermaid_code_blocks() {
    let blocks = markdown_live_preview_blocks("```mermaid 150\ngraph TD;\n```\n");

    assert_eq!(blocks.len(), 1);
    assert_eq!(
        blocks[0].kind,
        MarkdownLivePreviewBlockKind::CodeBlock {
            is_indented: false,
            is_mermaid: true,
        }
    );
}

#[test]
fn test_markdown_live_preview_blocks_classify_images() {
    let blocks = markdown_live_preview_blocks("![Alt text](image.png \"Title\")\n");

    assert_eq!(blocks.len(), 1);
    assert_eq!(blocks[0].kind, MarkdownLivePreviewBlockKind::Image);
    assert_eq!(blocks[0].image_destination.as_deref(), Some("image.png"));
}

#[test]
fn test_markdown_live_preview_blocks_preserve_image_destinations_with_spaces() {
    let blocks = markdown_live_preview_blocks("![Alt text](<my image.png> \"Title\")\n");

    assert_eq!(blocks.len(), 1);
    assert_eq!(blocks[0].kind, MarkdownLivePreviewBlockKind::Image);
    assert_eq!(blocks[0].image_destination.as_deref(), Some("my image.png"));
}

#[test]
fn test_markdown_live_preview_layout_hides_inline_markers() {
    

    let layout = markdown_live_preview_layout(
        "# Title\n\nSome **bold** and *em* and `code` and [link](http://x).\n",
    );

    assert!(layout.blocks.is_empty());
    let markers = layout
        .inline_markers
        .iter()
        .map(|marker| (marker.range.clone(), marker.kind))
        .collect::<Vec<_>>();
    assert_eq!(
        markers,
        vec![
            (0..2, MarkdownLivePreviewInlineMarkerKind::Hidden),
            (14..16, MarkdownLivePreviewInlineMarkerKind::Hidden),
            (20..22, MarkdownLivePreviewInlineMarkerKind::Hidden),
            (27..28, MarkdownLivePreviewInlineMarkerKind::Hidden),
            (30..31, MarkdownLivePreviewInlineMarkerKind::Hidden),
            (36..37, MarkdownLivePreviewInlineMarkerKind::Hidden),
            (41..42, MarkdownLivePreviewInlineMarkerKind::Hidden),
            (47..48, MarkdownLivePreviewInlineMarkerKind::Hidden),
            (52..63, MarkdownLivePreviewInlineMarkerKind::Hidden),
        ]
    );
}

#[test]
fn test_markdown_live_preview_layout_hides_setext_underline() {
    let layout = markdown_live_preview_layout("Title\n=====\n\nBody\n");
    let markers = layout
        .inline_markers
        .iter()
        .map(|marker| (marker.range.clone(), marker.kind))
        .collect::<Vec<_>>();
    assert_eq!(
        markers,
        vec![(5..11, MarkdownLivePreviewInlineMarkerKind::Hidden)]
    );
}

#[test]
fn test_markdown_live_preview_layout_substitutes_list_markers() {
    

    let layout = markdown_live_preview_layout("- item\n- [ ] task\n- [x] done\n1. ordered\n");
    let markers = layout
        .inline_markers
        .iter()
        .map(|marker| (marker.range.clone(), marker.kind))
        .collect::<Vec<_>>();
    assert_eq!(
        markers,
        vec![
            (0..1, MarkdownLivePreviewInlineMarkerKind::Bullet),
            (7..12, MarkdownLivePreviewInlineMarkerKind::TaskListMarker { checked: false }),
            (18..23, MarkdownLivePreviewInlineMarkerKind::TaskListMarker { checked: true }),
        ]
    );
}

#[test]
fn test_markdown_live_preview_layout_substitutes_block_quote_markers() {
    

    let layout = markdown_live_preview_layout("> quote\n> > nested\n");
    let markers = layout
        .inline_markers
        .iter()
        .map(|marker| (marker.range.clone(), marker.kind))
        .collect::<Vec<_>>();
    assert_eq!(
        markers,
        vec![
            (0..1, MarkdownLivePreviewInlineMarkerKind::BlockQuote),
            (8..9, MarkdownLivePreviewInlineMarkerKind::BlockQuote),
            (10..11, MarkdownLivePreviewInlineMarkerKind::BlockQuote)
        ]
    );
}

#[test]
fn test_markdown_live_preview_layout_only_replaces_rich_blocks() {
    let layout = markdown_live_preview_layout(
        "Para with **bold**\n\n```\n**not bold**\n```\n\n| a | b |\n|---|---|\n| 1 | 2 |\n\n![img](x.png)\n\n---\n",
    );

    let kinds = layout
        .blocks
        .iter()
        .map(|block| block.kind)
        .collect::<Vec<_>>();
    assert_eq!(
        kinds,
        vec![
            MarkdownLivePreviewBlockKind::CodeBlock {
                is_indented: false,
                is_mermaid: false,
            },
            MarkdownLivePreviewBlockKind::Table,
            MarkdownLivePreviewBlockKind::Image,
            MarkdownLivePreviewBlockKind::Rule,
        ]
    );
    let markers = layout
        .inline_markers
        .iter()
        .map(|marker| marker.range.clone())
        .collect::<Vec<_>>();
    assert_eq!(markers, vec![10..12, 16..18]);
}

#[test]
fn test_markdown_live_preview_blocks_preserve_gfm_alert_body() {
    let blocks =
        markdown_live_preview_blocks("> [!NOTE]\n> A note.\n\n> [!WARNING]\n> A warning.\n");

    assert_eq!(blocks.len(), 2);
    assert_eq!(blocks[0].kind, MarkdownLivePreviewBlockKind::BlockQuote);
    assert_eq!(blocks[0].source, "> [!NOTE]\n> A note.");
    assert_eq!(blocks[1].kind, MarkdownLivePreviewBlockKind::BlockQuote);
    assert_eq!(blocks[1].source, "> [!WARNING]\n> A warning.");
}

#[test]
fn test_br_tag_emits_hard_break() {
    for input in [
        "hello<br>world",
        "hello<br/>world",
        "hello<br />world",
        "hello<br >world",
        "hello<BR>world",
        "hello<br class=\"x\">world",
        "hello<br class=\"x\"/>world",
    ] {
        let parsed = parse(input, true, false, false);
        let has_hard_break = parsed
            .events
            .iter()
            .any(|(_, event)| matches!(event, MarkdownEvent::HardBreak));
        let has_empty_substituted_text = parsed.events.iter().any(|(_, event)| {
            matches!(event, MarkdownEvent::SubstitutedText(text) if text.is_empty())
        });
        assert!(has_hard_break, "<br> in \"{input}\" should emit HardBreak");
        assert!(
            !has_empty_substituted_text,
            "<br> in \"{input}\" should not produce empty SubstitutedText"
        );
    }
}

#[test]
fn test_br_tag_not_a_hard_break_without_parse_html() {
    for input in ["hello<br>world", "hello<br/>world", "hello<br />world"] {
        let parsed = parse(input, false, false, false);
        let has_hard_break = parsed
            .events
            .iter()
            .any(|(_, event)| matches!(event, MarkdownEvent::HardBreak));
        let has_inline_html = parsed
            .events
            .iter()
            .any(|(_, event)| matches!(event, MarkdownEvent::InlineHtml));
        assert!(
            !has_hard_break,
            "<br> in \"{input}\" should not emit HardBreak when parse_html is disabled"
        );
        assert!(
            has_inline_html,
            "<br> in \"{input}\" should be preserved as InlineHtml when parse_html is disabled"
        );
    }
}

#[test]
fn test_br_prefixed_tag_is_not_a_hard_break() {
    for input in ["a<break>b", "a<brick>b", "a<b>bold</b>c"] {
        let parsed = parse(input, true, false, false);
        let has_hard_break = parsed
            .events
            .iter()
            .any(|(_, event)| matches!(event, MarkdownEvent::HardBreak));
        assert!(
            !has_hard_break,
            "\"{input}\" should not be treated as a <br> hard break"
        );
    }
}

#[test]
fn test_unrecognized_inline_html_preserved_as_inline_html() {
    for input in ["a<span>b</span>c", "a<em>b</em>c", "a<strong>b</strong>c"] {
        let parsed = parse(input, false, false, false);
        let has_inline_html = parsed
            .events
            .iter()
            .any(|(_, event)| matches!(event, MarkdownEvent::InlineHtml));
        let has_hard_break = parsed
            .events
            .iter()
            .any(|(_, event)| matches!(event, MarkdownEvent::HardBreak));
        assert!(
            has_inline_html,
            "unrecognized inline HTML \"{input}\" should emit InlineHtml"
        );
        assert!(
            !has_hard_break,
            "unrecognized inline HTML \"{input}\" should not emit HardBreak"
        );
    }
}
