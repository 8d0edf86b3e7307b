//! The parts that documents are made of.
use markdown_preview::autolink::{
    event_for, merge_pieces, parse_links_only, split_links_only, split_text_run, text_run,
    TextPiece,
};
use markdown_preview::block_text::{count_lines, live_preview_block_text};
use markdown_preview::blocks::live_preview_root_blocks;
use markdown_preview::cmark::{
    link_definitions, source_events, SourceEvent, SourceTag, PARSE_OPTIONS,
};
use markdown_preview::convert::distinct_paths;
use markdown_preview::event::{
    CodeBlockKind, CodeBlockMetadata, MarkdownEvent, MarkdownTag, MarkdownTagEnd, RangedEvent,
};
use markdown_preview::footnotes::build_footnote_definitions;
use markdown_preview::headings::{build_heading_slugs, heading_texts, HeadingText};
use markdown_preview::layout::{
    build_blocks, build_layout, deduplicate_markers, try_markdown_live_preview_blocks,
    try_markdown_live_preview_layout,
};
use markdown_preview::markers::live_preview_inline_markers;
use markdown_preview::order;
use markdown_preview::parse::{
    build_document, document_options, html_block_ranges, parse_markdown_with_options,
    try_parse_markdown_with_options,
};
use markdown_preview::preview::{
    MarkdownLivePreviewBlockKind, MarkdownLivePreviewInlineMarker,
    MarkdownLivePreviewInlineMarkerKind,
};
use markdown_preview::roots::ParseState;
use markdown_preview::scan::{
    code_span_delimiters, is_br_tag, is_mermaid_code_block_language, live_preview_line_start,
    parse_metadata_table_rows, trim_end_whitespace, trim_live_preview_source_range, MetadataRow,
};
use pulldown_cmark::LinkType;
use std::ops::Range;

fn link(url: &str) -> MarkdownEvent {
    MarkdownEvent::Start(MarkdownTag::Link {
        link_type: LinkType::Autolink,
        dest_url: url.to_owned(),
        title: String::new(),
        id: String::new(),
    })
}

fn piece(source: Range<usize>, parsed: &str) -> TextPiece {
    TextPiece {
        source,
        parsed: parsed.to_owned(),
    }
}

fn paragraph() -> (MarkdownEvent, MarkdownEvent) {
    (
        MarkdownEvent::Start(MarkdownTag::Paragraph),
        MarkdownEvent::End(MarkdownTagEnd::Paragraph),
    )
}

/// The events of a text between marks of a root-level block.
fn rooted(inner: Vec<RangedEvent>, range: Range<usize>) -> Vec<RangedEvent> {
    let mut events = vec![(range.clone(), MarkdownEvent::RootStart)];
    events.extend(inner);
    events.push((range, MarkdownEvent::RootEnd(0)));
    events
}

#[test]
fn links_only_shows_all_of_the_text() {
    let text = "see https://a.example/b and http://c.example.";
    let events = parse_links_only(text);
    assert_eq!(
        events,
        vec![
            (0..4, MarkdownEvent::Text),
            (4..23, link("https://a.example/b")),
            (4..23, MarkdownEvent::Text),
            (4..23, MarkdownEvent::End(MarkdownTagEnd::Link)),
            (23..28, MarkdownEvent::Text),
            (28..44, link("http://c.example")),
            (28..44, MarkdownEvent::Text),
            (28..44, MarkdownEvent::End(MarkdownTagEnd::Link)),
            (44..45, MarkdownEvent::Text),
        ]
    );
    let shown: String = events
        .iter()
        .filter(|(_, event)| *event == MarkdownEvent::Text)
        .map(|(range, _)| &text[range.clone()])
        .collect();
    assert_eq!(shown, text);
}

#[test]
fn links_only_without_links_is_text() {
    assert_eq!(parse_links_only("plain é"), vec![(0..8, MarkdownEvent::Text)]);
    assert_eq!(parse_links_only(""), vec![]);
    assert_eq!(
        split_links_only("ab", &vec![0..2]),
        vec![
            (0..2, link("ab")),
            (0..2, MarkdownEvent::Text),
            (0..2, MarkdownEvent::End(MarkdownTagEnd::Link)),
        ]
    );
}

#[test]
fn pieces_of_text_are_plain_where_the_source_reads_the_same() {
    assert_eq!(event_for("a&b", 0..1, "a"), Some((0..1, MarkdownEvent::Text)));
    assert_eq!(
        event_for("a&b", 0..1, "x"),
        Some((0..1, MarkdownEvent::SubstitutedText("x".to_owned())))
    );
    assert_eq!(event_for("é", 0..1, "x"), None);
    assert_eq!(event_for("a", 0..2, "x"), None);
}

#[test]
fn runs_are_split_at_their_links() {
    let text = "ab&amp;cd";
    let pieces = || vec![piece(0..2, "ab"), piece(2..7, "&"), piece(7..9, "cd")];
    assert_eq!(merge_pieces(&pieces()), "ab&cd");
    assert_eq!(
        split_text_run(text, pieces(), &vec![1..4]),
        Some(vec![
            (0..1, MarkdownEvent::Text),
            (1..8, link("b&c")),
            (1..2, MarkdownEvent::Text),
            (2..7, MarkdownEvent::SubstitutedText("&".to_owned())),
            (7..8, MarkdownEvent::Text),
            (1..8, MarkdownEvent::End(MarkdownTagEnd::Link)),
            (8..9, MarkdownEvent::Text),
        ])
    );
    assert_eq!(split_text_run("ab", vec![piece(0..3, "abc")], &vec![]), None);
    assert_eq!(split_text_run("é", vec![piece(0..2, "ab")], &vec![0..1]), None);
}

#[test]
fn runs_inside_links_are_not_linked() {
    let text = "http://a.example";
    let run = || vec![piece(0..16, text)];
    assert_eq!(
        text_run(text, run(), true),
        Some(vec![(0..16, MarkdownEvent::Text)])
    );
    assert_eq!(
        text_run(text, run(), false),
        Some(vec![
            (0..16, link(text)),
            (0..16, MarkdownEvent::Text),
            (0..16, MarkdownEvent::End(MarkdownTagEnd::Link)),
        ])
    );
}

#[test]
fn parser_events_are_plain_values() {
    let events = source_events("*a* &amp;", PARSE_OPTIONS);
    assert_eq!(
        events[0],
        (
            SourceEvent::Start(SourceTag::Plain(MarkdownTag::Paragraph)),
            0..9
        )
    );
    assert!(events.contains(&(SourceEvent::Text("a".to_owned()), 1..2)));
    assert!(events.contains(&(SourceEvent::Text("&".to_owned()), 4..9)));
    let fenced = source_events("```rust x\n```", PARSE_OPTIONS);
    assert_eq!(
        fenced[0].0,
        SourceEvent::Start(SourceTag::FencedCode("rust x".to_owned()))
    );
}

#[test]
fn link_definitions_are_in_order() {
    let text = "[b]: https://b.example\n\n[a]: https://a.example\n\n[c]: /c\n\n[a] [b] [c]\n";
    assert_eq!(link_definitions(text, PARSE_OPTIONS), vec![0..22, 24..46, 48..55]);
    let data = parse_markdown_with_options(text, false, false, false, &vec![]);
    assert_eq!(data.link_definition_spans, vec![0..22, 24..46, 48..55]);
}

#[test]
fn html_blocks_are_found_among_the_events() {
    let text = "<div>\na\n</div>\n\nb <i>c</i>\n\n> <p>\n";
    let events = source_events(text, document_options(false));
    assert_eq!(html_block_ranges(&events), vec![0..15, 30..34]);
    assert_eq!(html_block_ranges(&Vec::new()), Vec::<Range<usize>>::new());
}

#[test]
fn metadata_blocks_have_an_option_of_their_own() {
    assert_eq!(document_options(false), 0b0110_1011_0111_1110);
    assert_eq!(document_options(true), 0b0110_1011_1111_1110);
}

#[test]
fn html_blocks_are_taken_over_as_a_whole() {
    let text = "<div>\nx\n</div>\n\nafter\n";
    let kinds = |html_blocks: Vec<usize>| {
        let data = parse_markdown_with_options(text, true, false, false, &html_blocks);
        let html = data
            .events
            .iter()
            .filter(|(_, event)| *event == MarkdownEvent::Html)
            .count();
        (html, data.html_blocks)
    };
    assert_eq!(kinds(vec![]), (3, vec![]));
    assert_eq!(kinds(vec![0]), (0, vec![0]));
    let ignored = parse_markdown_with_options(text, false, false, false, &vec![0]);
    assert_eq!(ignored.html_blocks, Vec::<usize>::new());
}

#[test]
fn code_blocks_list_languages_and_locations_once() {
    let text = "```rust\n```\n\n``` rust \n```\n\n```a/b.rs#L1-2\n```\n\n```a/b.rs#L9\n```\n\n```c/d.py\n```\n\n```\nx\n```\n";
    let data = parse_markdown_with_options(text, false, false, false, &vec![]);
    assert_eq!(data.language_names, vec!["rust"]);
    assert_eq!(data.source_locations, vec!["a/b.rs#L1-2", "a/b.rs#L9", "c/d.py"]);
    let paths: Vec<String> = data
        .source_locations
        .iter()
        .map(|location| location.split('#').next().unwrap().to_owned())
        .collect();
    assert_eq!(distinct_paths(&paths), vec!["a/b.rs", "c/d.py"]);
    assert_eq!(distinct_paths(&vec![]), Vec::<String>::new());
    assert!(data.has_untagged_code_block);
    let kinds: Vec<_> = data
        .events
        .iter()
        .filter_map(|(_, event)| match event {
            MarkdownEvent::Start(MarkdownTag::CodeBlock { kind, .. }) => Some(kind.clone()),
            _ => None,
        })
        .collect();
    assert_eq!(
        kinds,
        vec![
            CodeBlockKind::FencedLang("rust".to_owned()),
            CodeBlockKind::FencedLang("rust".to_owned()),
            CodeBlockKind::FencedSrc("a/b.rs#L1-2".to_owned()),
            CodeBlockKind::FencedSrc("a/b.rs#L9".to_owned()),
            CodeBlockKind::FencedSrc("c/d.py".to_owned()),
            CodeBlockKind::Fenced,
        ]
    );
}

#[test]
fn events_out_of_place_are_refused() {
    let text = "é";
    let document = |event, range| {
        build_document(
            text,
            &vec![(event, range)],
            true,
            true,
            true,
            &vec![],
            vec![],
        )
    };
    let some_text = || SourceEvent::Text("x".to_owned());
    assert!(document(some_text(), 0..1).is_none());
    assert!(document(some_text(), 0..3).is_none());
    assert!(document(some_text(), 0..2).is_some());
    assert!(document(SourceEvent::Code("x".to_owned()), 1..2).is_none());
    let fenced = SourceEvent::Start(SourceTag::FencedCode(String::new()));
    assert!(document(fenced, 0..9).is_none());
    let html = SourceEvent::Start(SourceTag::Plain(MarkdownTag::HtmlBlock));
    assert!(document(html, 0..1).is_none());
    assert!(document(SourceEvent::SoftBreak, 0..9).is_some());
}

#[test]
fn math_gives_no_event() {
    let data = build_document(
        "a",
        &vec![(SourceEvent::Math, 0..1), (SourceEvent::Rule, 0..1)],
        false,
        false,
        false,
        &vec![],
        vec![],
    )
    .unwrap();
    assert_eq!(
        data.events,
        vec![
            (0..1, MarkdownEvent::RootStart),
            (0..1, MarkdownEvent::Rule),
            (0..1, MarkdownEvent::RootEnd(0)),
        ]
    );
}

#[test]
fn total_functions_agree_with_the_partial_ones() {
    let text = "# A\n\n*b* https://c.example\n";
    let data = try_parse_markdown_with_options(text, true, true, true, &vec![]).unwrap();
    let same = parse_markdown_with_options(text, true, true, true, &vec![]);
    assert_eq!(data.events, same.events);
    assert_eq!(data.headings, same.headings);
    let layout = try_markdown_live_preview_layout(text).unwrap();
    let plain = parse_markdown_with_options(text, false, false, false, &vec![]);
    assert_eq!(Some(layout), build_layout(text, &plain.events));
    let blocks = try_markdown_live_preview_blocks(text).unwrap();
    assert_eq!(Some(blocks), build_blocks(text, &plain.events));
}

#[test]
fn root_blocks_are_numbered() {
    let (start, end) = paragraph();
    let mut state = ParseState::new();
    state.push_event(0..4, start.clone());
    state.push_event(1..3, MarkdownEvent::Start(MarkdownTag::Emphasis));
    state.push_event(1..3, MarkdownEvent::End(MarkdownTagEnd::Emphasis));
    state.push_event(0..4, end.clone());
    state.push_event(5..8, MarkdownEvent::Rule);
    state.push_event(8..8, MarkdownEvent::Rule);
    state.push_event(9..9, MarkdownEvent::End(MarkdownTagEnd::Item));
    let (events, starts) = state.into_parts();
    assert_eq!(starts, vec![0, 5]);
    assert_eq!(
        events,
        vec![
            (0..4, MarkdownEvent::RootStart),
            (0..4, start),
            (1..3, MarkdownEvent::Start(MarkdownTag::Emphasis)),
            (1..3, MarkdownEvent::End(MarkdownTagEnd::Emphasis)),
            (0..4, end),
            (0..4, MarkdownEvent::RootEnd(0)),
            (5..8, MarkdownEvent::RootStart),
            (5..8, MarkdownEvent::Rule),
            (5..8, MarkdownEvent::RootEnd(1)),
            (8..8, MarkdownEvent::Rule),
            (9..9, MarkdownEvent::End(MarkdownTagEnd::Item)),
        ]
    );
}

#[test]
fn heading_texts_start_at_their_first_text() {
    let data = parse_markdown_with_options("# A `b` &amp;\n\n##\n", false, true, false, &vec![]);
    assert_eq!(
        data.headings,
        vec![
            HeadingText {
                text: "A b &".to_owned(),
                source_offset: 2,
            },
            HeadingText {
                text: String::new(),
                source_offset: 15,
            },
        ]
    );
    let heading = MarkdownEvent::Start(MarkdownTag::Heading {
        level: pulldown_cmark::HeadingLevel::H1,
        id: None,
        classes: vec![],
        attrs: vec![],
    });
    let misplaced = vec![(0..1, heading), (0..1, MarkdownEvent::Text)];
    assert_eq!(heading_texts("é", &misplaced), None);
}

fn slugs_of(bases: &[&str]) -> (Vec<HeadingText>, Vec<String>) {
    let headings = (0..bases.len())
        .map(|offset| HeadingText {
            text: String::new(),
            source_offset: offset * 10,
        })
        .collect();
    (headings, bases.iter().map(|base| base.to_string()).collect())
}

#[test]
fn slugs_are_numbered_until_they_are_free() {
    let (headings, bases) = slugs_of(&["a", "a-1", "a", "a", "", "", "b"]);
    let slugs = build_heading_slugs(&headings, &bases);
    assert_eq!(slugs.get("a"), Some(0));
    assert_eq!(slugs.get("a-1"), Some(10));
    assert_eq!(slugs.get("a-2"), Some(20));
    assert_eq!(slugs.get("a-3"), Some(30));
    assert_eq!(slugs.get("-1"), Some(50));
    assert_eq!(slugs.get("b"), Some(60));
    assert_eq!(slugs.get(""), None);
    assert_eq!(slugs.len(), 6);
}

#[test]
fn slugs_run_out_at_the_limit() {
    let taken: Vec<String> = (1..128).map(|n| format!("a-{n}")).collect();
    let mut bases: Vec<&str> = taken.iter().map(|base| base.as_str()).collect();
    bases.extend(["a", "a", "a"]);
    let (headings, bases) = slugs_of(&bases);
    let slugs = build_heading_slugs(&headings, &bases);
    assert_eq!(slugs.get("a"), Some(1270));
    // The second heading finds all numbers below the limit taken; the third starts behind them.
    assert_eq!(slugs.get("a-128"), Some(1290));
    assert_eq!(slugs.len(), 129);
}

#[test]
fn the_first_footnote_definition_counts() {
    let label = |label: &str| {
        MarkdownEvent::Start(MarkdownTag::FootnoteDefinition(label.to_owned()))
    };
    let end = || MarkdownEvent::End(MarkdownTagEnd::FootnoteDefinition);
    let events = vec![
        (0..9, label("a")),
        (3..4, MarkdownEvent::Code),
        (5..6, MarkdownEvent::Text),
        (7..8, MarkdownEvent::Text),
        (0..9, end()),
        (10..20, label("a")),
        (15..16, MarkdownEvent::Text),
        (10..20, end()),
        (20..22, label("empty")),
        (20..22, end()),
        (30..31, MarkdownEvent::Text),
    ];
    let definitions = build_footnote_definitions(&events);
    assert_eq!(definitions.len(), 1);
    assert_eq!(definitions.get("a"), Some(5));
    assert!(!definitions.contains_key("empty"));
}

#[test]
fn metadata_rows_are_trimmed() {
    let source = "a :  b c \r\nd:e";
    assert_eq!(
        parse_metadata_table_rows(source, 0..source.len()),
        Some(vec![
            MetadataRow {
                key: 0..1,
                value: 5..8,
            },
            MetadataRow {
                key: 11..12,
                value: 13..14,
            },
        ])
    );
    assert_eq!(parse_metadata_table_rows(source, 0..0), None);
}

#[test]
fn small_scanners() {
    assert!(is_br_tag(" <br / > ") && is_br_tag("<BR\tx>"));
    assert!(!is_br_tag("<br") && !is_br_tag("<brx>") && !is_br_tag("<>") && !is_br_tag(""));
    assert!(is_mermaid_code_block_language("\u{a0}mermaid\u{2003}150"));
    assert!(!is_mermaid_code_block_language("mermaids") && !is_mermaid_code_block_language(""));
    assert_eq!(code_span_delimiters("` a `", 2..3), Some((0..2, 3..5)));
    assert_eq!(code_span_delimiters("``a``", 2..3), Some((0..2, 3..5)));
    assert_eq!(code_span_delimiters("``a`", 2..3), None);
    assert_eq!(code_span_delimiters("a", 0..1), None);
    assert_eq!(live_preview_line_start("a\nbc", 3), 2);
    assert_eq!(live_preview_line_start("abc", 2), 0);
    assert_eq!(trim_end_whitespace("ab \u{a0}", 0..5), 0..2);
    assert_eq!(trim_live_preview_source_range(" a ", 0..3, true), 1..2);
    assert_eq!(trim_live_preview_source_range(" a ", 0..3, false), 0..2);
    assert_eq!(trim_live_preview_source_range("  ", 0..2, true), 2..2);
    assert_eq!(trim_live_preview_source_range(" a", 2..1, true), 2..1);
    assert_eq!(count_lines("a\r\nb\n\nc\r"), 4);
    assert_eq!(count_lines(""), 0);
}

#[test]
fn sorting_is_stable() {
    let marker = |range: Range<usize>, kind| MarkdownLivePreviewInlineMarker { range, kind };
    let hidden = MarkdownLivePreviewInlineMarkerKind::Hidden;
    let bullet = MarkdownLivePreviewInlineMarkerKind::Bullet;
    let sorted = order::sort(vec![
        marker(3..4, hidden),
        marker(1..5, hidden),
        marker(1..2, bullet),
        marker(1..2, hidden),
    ]);
    assert_eq!(
        sorted,
        vec![
            marker(1..2, bullet),
            marker(1..2, hidden),
            marker(1..5, hidden),
            marker(3..4, hidden),
        ]
    );
    assert_eq!(
        deduplicate_markers(sorted),
        vec![marker(1..2, bullet), marker(3..4, hidden)]
    );
    assert_eq!(deduplicate_markers(vec![marker(2..2, hidden)]), vec![]);
}

#[test]
fn lists_show_their_lines_behind_dashes() {
    let data =
        parse_markdown_with_options("- a\n  b\n- [x] c\n", false, false, false, &vec![]);
    let blocks = build_blocks("- a\n  b\n- [x] c\n", &data.events).unwrap();
    assert_eq!(blocks.len(), 1);
    assert_eq!(blocks[0].kind, MarkdownLivePreviewBlockKind::List);
    assert_eq!(blocks[0].display_text, "- a\n- b[x] c");
}

#[test]
fn code_blocks_show_their_code() {
    let code = |kind, content_range: Range<usize>| {
        let metadata = CodeBlockMetadata {
            content_range: content_range.clone(),
            line_count: 1,
            is_fenced_closed: true,
        };
        vec![(
            content_range,
            MarkdownEvent::Start(MarkdownTag::CodeBlock { kind, metadata }),
        )]
    };
    let other = MarkdownLivePreviewBlockKind::Other;
    let text = "    a\r\n      b\nc\n\n";
    assert_eq!(
        live_preview_block_text(text, &code(CodeBlockKind::Indented, 0..18), other),
        Some("a\n  b\nc".to_owned())
    );
    assert_eq!(
        live_preview_block_text(text, &code(CodeBlockKind::Fenced, 0..18), other),
        Some("    a\r\n      b\nc".to_owned())
    );
    assert_eq!(
        live_preview_block_text(text, &code(CodeBlockKind::Fenced, 0..99), other),
        None
    );
}

#[test]
fn blocks_that_are_blank_are_left_out() {
    let (start, end) = paragraph();
    let blank = rooted(vec![(0..2, start.clone()), (0..2, end.clone())], 0..2);
    assert_eq!(live_preview_root_blocks("  ", &blank).unwrap().len(), 0);
    let empty = rooted(vec![], 0..2);
    assert_eq!(live_preview_root_blocks("ab", &empty).unwrap().len(), 0);
    let misplaced = rooted(vec![(0..1, start), (0..1, end)], 0..1);
    assert!(live_preview_root_blocks("é", &misplaced).is_none());
    assert!(build_layout("é", &misplaced).is_none());
}

#[test]
fn replacements_stop_before_the_last_character_between_blocks() {
    let text = "a\n\n\u{2003}b\n\nc\n";
    let (start, end) = paragraph();
    let block = |range: Range<usize>| {
        rooted(
            vec![
                (range.clone(), start.clone()),
                (range.clone(), MarkdownEvent::Text),
                (range.clone(), end.clone()),
            ],
            range,
        )
    };
    let mut events = block(0..1);
    events.extend(block(6..7));
    events.extend(block(9..10));
    let blocks = build_blocks(text, &events).unwrap();
    let replaced: Vec<_> = blocks
        .iter()
        .map(|block| block.replacement_range.clone())
        .collect();
    assert_eq!(replaced, vec![0..3, 6..8, 9..10]);
    let mut crossed = block(6..7);
    crossed.extend(block(0..1));
    assert!(build_blocks(text, &crossed).is_none());
}

#[test]
fn markers_of_misplaced_events_are_refused() {
    let emphasis = vec![
        (0..4, MarkdownEvent::Start(MarkdownTag::Emphasis)),
        (1..2, MarkdownEvent::Text),
        (0..4, MarkdownEvent::End(MarkdownTagEnd::Emphasis)),
    ];
    let mut markers = Vec::new();
    assert!(live_preview_inline_markers("*a* ", &emphasis, &mut markers));
    let found: Vec<_> = markers.iter().map(|marker| marker.range.clone()).collect();
    assert_eq!(found, vec![0..1, 2..3]);
    assert!(!live_preview_inline_markers("*é", &emphasis, &mut markers));
    let code = vec![(9..10, MarkdownEvent::Code)];
    assert!(!live_preview_inline_markers("`a`", &code, &mut markers));
}

#[test]
fn ordered_task_items_and_deep_quotes_have_markers() {
    let text = "1. [X] a\n\n   >>b\n";
    let layout = try_markdown_live_preview_layout(text).unwrap();
    let found: Vec<_> = layout
        .inline_markers
        .iter()
        .map(|marker| (marker.range.clone(), marker.kind))
        .collect();
    let quote = MarkdownLivePreviewInlineMarkerKind::BlockQuote;
    assert_eq!(
        found,
        vec![
            (
                0..6,
                MarkdownLivePreviewInlineMarkerKind::TaskListMarker { checked: true }
            ),
            (13..14, quote),
            (14..15, quote),
        ]
    );
}

#[test]
fn asking_for_headings_changes_nothing_else() {
    let text = "# A \\* `b`\n\nC &lt; d\n=====\n\n[b] [a]\n\n[a]: x\n[b]: y\n";
    let with = try_parse_markdown_with_options(text, false, true, false, &vec![]).unwrap();
    let without = try_parse_markdown_with_options(text, false, false, false, &vec![]).unwrap();
    assert_eq!(with.events, without.events);
    assert_eq!(with.root_block_starts, without.root_block_starts);
    assert_eq!(with.link_definition_spans, vec![37..43, 44..50]);
    assert_eq!(with.link_definition_spans, without.link_definition_spans);
    assert_eq!(without.headings, vec![]);
    assert!(without.html_blocks.is_empty() && without.metadata_blocks.is_empty());
    let texts: Vec<&str> = with.headings.iter().map(|h| h.text.as_str()).collect();
    assert_eq!(texts, vec!["A * b", "C < d"]);
}

#[test]
fn metadata_rows_can_be_sliced() {
    let text = "---\nä : \u{2003}ö ü\nb: c\n---\n";
    let data = parse_markdown_with_options(text, false, false, true, &vec![]);
    let rows = data.metadata_blocks[&0].rows.clone().unwrap();
    let pairs: Vec<_> = rows
        .iter()
        .map(|row| (&text[row.key.clone()], &text[row.value.clone()]))
        .collect();
    assert_eq!(pairs, vec![("ä", "ö ü"), ("b", "c")]);
}

#[test]
fn documents_are_balanced() {
    let text = "---\na: http://m.example\n---\n\n# *h* [l](u)\n\n> 1. `c` http://x.example y\n>\n>    - [ ] t\n\n<div>\n</div>\n\n|a|\n|-|\n|b|\n\n---\n\n```\nhttp://x.example\n```\n";
    for parse_html in [false, true] {
        for parse_metadata_blocks in [false, true] {
            let data = parse_markdown_with_options(
                text,
                parse_html,
                false,
                parse_metadata_blocks,
                &vec![text.find("<div>").unwrap()],
            );
            let mut open = Vec::new();
            let mut root_open = false;
            let mut in_verbatim = false;
            for (_, event) in &data.events {
                match event {
                    MarkdownEvent::Start(tag) => {
                        assert!(root_open);
                        let is_link = matches!(tag, MarkdownTag::Link { .. });
                        assert!(!(in_verbatim && is_link));
                        in_verbatim = matches!(
                            tag,
                            MarkdownTag::CodeBlock { .. } | MarkdownTag::MetadataBlock(_)
                        );
                        open.push(tag.clone());
                    }
                    MarkdownEvent::End(_) => {
                        assert!(open.pop().is_some());
                        in_verbatim = false;
                    }
                    MarkdownEvent::RootStart => {
                        assert!(!root_open && open.is_empty());
                        root_open = true;
                    }
                    MarkdownEvent::RootEnd(_) => {
                        assert!(root_open && open.is_empty());
                        root_open = false;
                    }
                    _ => {}
                }
            }
            assert!(open.is_empty() && !root_open);
            assert_eq!(data.html_blocks.len(), usize::from(parse_html));
            assert_eq!(data.metadata_blocks.len(), usize::from(parse_metadata_blocks));
        }
    }
}

fn element_name(shown: String) -> String {
    shown
        .chars()
        .take_while(|c| c.is_ascii_alphabetic())
        .collect()
}

#[test]
fn parser_events_are_balanced() {
    let texts = [
        "",
        "- a\n  - b\n\n    c\n1. d\n> e\nf\n",
        "> ```rust\n> *a* <b>\nc\n",
        "-  <div>\n     *a*\n   </div>\n\n    *b*\n",
        "a\n: b\n\n  c\nd\n\n: *e*\n",
        "---\n*a*: <b>\r\n---\n\n+++\nc\n+++\n",
        "|*a*|b|\n|-|-|\n|||\n\n[^1]: ~a~ ^b^\n\n[c [d](e)](f) ![g](h) $i$ [[j|k]] <l@m.n>\n",
        "*a **b* c** `d *e` f*\n===\n<!-- *g*\n",
        "> [!NOTE]\n> - [ ] a\n\n# *b* {#c .d}\n\n\t*e*\n",
    ];
    for text in texts {
        for options in [document_options(false), document_options(true), u32::MAX] {
            let mut open: Vec<String> = Vec::new();
            for (event, _) in source_events(text, options) {
                match open.last().map(String::as_str) {
                    Some("CodeBlock" | "MetadataBlock") => {
                        assert!(matches!(event, SourceEvent::Text(_) | SourceEvent::End(_)));
                    }
                    Some("HtmlBlock") => assert!(matches!(
                        event,
                        SourceEvent::Text(_) | SourceEvent::Html | SourceEvent::End(_)
                    )),
                    _ => {}
                }
                match event {
                    SourceEvent::Start(SourceTag::Plain(tag)) => {
                        open.push(element_name(format!("{tag:?}")));
                    }
                    SourceEvent::Start(_) => open.push("CodeBlock".to_owned()),
                    SourceEvent::End(tag) => {
                        assert_eq!(open.pop(), Some(element_name(format!("{tag:?}"))));
                    }
                    _ => {}
                }
            }
            assert!(open.is_empty());
        }
    }
}

#[test]
fn markers_lie_in_the_text_outside_replaced_blocks() {
    let text = "# *a* `b`\n\n|c|\n|-|\n|d|\n\n - [ ] e\n - **f**\n\n---\n> > g\n\n```\nh\n```\n[i](j)\n\n    k\n";
    let layout = try_markdown_live_preview_layout(text).unwrap();
    assert_eq!(layout.blocks.len(), 4);
    assert!(layout.inline_markers.len() > 8);
    for marker in &layout.inline_markers {
        assert!(marker.range.start < marker.range.end && marker.range.end <= text.len());
        for block in &layout.blocks {
            let replaced = &block.replacement_range;
            assert!(marker.range.end <= replaced.start || replaced.end <= marker.range.start);
        }
    }
}
