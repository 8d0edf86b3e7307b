//! Documents, parsed with all that is known of them.
use crate::cmark;
use crate::cmark::{
    RangedSource, RangedSourceModel, SourceEvent, SourceModel, SourceTag, SourceTagModel,
};
use crate::convert;
use crate::convert::{ConvertOptions, Flow, MetadataModel, ParsedMetadataBlock, Verbatim};
use crate::event;
use crate::event::{
    CodeBlockKindModel, EventModel, MarkdownTag, RangedEvent, RangedModel, TagModel,
};
use crate::footnotes;
use crate::headings;
use crate::headings::{HeadingModel, HeadingText};
use crate::nesting;
use crate::offsets::Offsets;
use crate::order;
use crate::roots;
use crate::span;
use std::collections::BTreeMap;
use std::ops::Range;
use vstd::prelude::*;
use vstd::string::StringSliceAdditionalSpecFns;
use vstd::utf8::*;

verus! {

/// A parsed document.
pub struct ParsedMarkdownData {
    pub events: Vec<RangedEvent>,
    /// The languages of fenced code blocks, each once.
    pub language_names: Vec<String>,
    /// The source locations of fenced code blocks, each once. Their paths are listed by
    /// [`convert::distinct_paths`].
    pub source_locations: Vec<String>,
    pub root_block_starts: Vec<usize>,
    /// The starts of the HTML blocks whose events were left out.
    pub html_blocks: Vec<usize>,
    pub metadata_blocks: BTreeMap<usize, ParsedMetadataBlock>,
    /// The headings, if they were asked for.
    pub headings: Vec<HeadingText>,
    pub footnote_definitions: Offsets,
    /// Source spans of link reference definitions (`[id]: https://example.com`), which are
    /// consumed by the parser and never appear in any event range.
    pub link_definition_spans: Vec<Range<usize>>,
    pub has_untagged_code_block: bool,
}

/// The model of a [`ParsedMarkdownData`], but for its link definitions.
pub struct DocumentModel {
    pub events: Seq<RangedModel>,
    pub language_names: Seq<Seq<char>>,
    pub source_locations: Seq<Seq<char>>,
    pub root_block_starts: Seq<usize>,
    pub html_blocks: Seq<usize>,
    pub metadata_blocks: Map<usize, MetadataModel>,
    pub headings: Seq<HeadingModel>,
    pub footnote_definitions: Map<Seq<char>, usize>,
    pub has_untagged_code_block: bool,
}

impl View for ParsedMarkdownData {
    type V = DocumentModel;

    open spec fn view(&self) -> DocumentModel {
        DocumentModel {
            events: event::models(self.events@),
            language_names: convert::string_models(self.language_names@),
            source_locations: convert::string_models(self.source_locations@),
            root_block_starts: self.root_block_starts@,
            html_blocks: self.html_blocks@,
            metadata_blocks: convert::metadata_models(self.metadata_blocks@),
            headings: headings::heading_models(self.headings@),
            footnote_definitions: self.footnote_definitions@,
            has_untagged_code_block: self.has_untagged_code_block,
        }
    }
}

/// The document that the parser's events on a text make: the events in their root-level blocks,
/// and what was collected on the way. `None` if an event has no place in the text.
pub open spec fn document(
    b: Seq<u8>,
    events: Seq<RangedSourceModel>,
    parse_html: bool,
    parse_heading_slugs: bool,
    parse_metadata_blocks: bool,
    html: Seq<usize>,
) -> Option<DocumentModel> {
    let options = ConvertOptions { parse_html, parse_metadata_blocks };
    match convert::converted(b, events, options, html, 0, convert::start_of_flow()) {
        Some(f) => {
            let grouped = roots::grouped(f.out);
            match document_headings(b, grouped.events, parse_heading_slugs) {
                Some(headings) => Some(
                    DocumentModel {
                        events: grouped.events,
                        language_names: f.language_names,
                        source_locations: f.source_locations,
                        root_block_starts: grouped.starts,
                        html_blocks: f.html_blocks,
                        metadata_blocks: f.metadata_blocks,
                        headings,
                        footnote_definitions: footnotes::footnote_flow(grouped.events).definitions,
                        has_untagged_code_block: f.has_untagged_code_block,
                    },
                ),
                None => None,
            }
        },
        None => None,
    }
}

/// The headings, if they are asked for.
pub open spec fn document_headings(
    b: Seq<u8>,
    events: Seq<RangedModel>,
    parse_heading_slugs: bool,
) -> Option<Seq<HeadingModel>> {
    if parse_heading_slugs {
        match headings::heading_flow(b, events) {
            Some(f) => Some(f.done),
            None => None,
        }
    } else {
        Some(Seq::empty())
    }
}

/// The bits of the options that a document is parsed with.
pub open spec fn parse_options(parse_metadata_blocks: bool) -> u32 {
    if parse_metadata_blocks {
        cmark::PARSE_OPTIONS | cmark::ENABLE_YAML_STYLE_METADATA_BLOCKS
    } else {
        cmark::PARSE_OPTIONS
    }
}

/// The bits of the options that a document is parsed with: see [`parse_options`].
pub fn document_options(parse_metadata_blocks: bool) -> (r: u32)
    ensures
        r == parse_options(parse_metadata_blocks),
{
    if parse_metadata_blocks {
        cmark::PARSE_OPTIONS | cmark::ENABLE_YAML_STYLE_METADATA_BLOCKS
    } else {
        cmark::PARSE_OPTIONS
    }
}

/// The ranges of the HTML blocks among the parser's events.
pub open spec fn html_ranges(events: Seq<RangedSourceModel>) -> Seq<Range<usize>>
    decreases events.len(),
{
    if events.len() == 0 {
        Seq::empty()
    } else {
        let before = html_ranges(events.drop_last());
        match events.last().0 {
            SourceModel::Start(SourceTagModel::Plain(TagModel::HtmlBlock)) => before.push(
                events.last().1,
            ),
            _ => before,
        }
    }
}

/// The ranges of the HTML blocks among the parser's events, in their order: see [`html_ranges`].
pub fn html_block_ranges(events: &Vec<RangedSource>) -> (r: Vec<Range<usize>>)
    ensures
        r@ == html_ranges(cmark::source_models(events@)),
{
    let ghost all = cmark::source_models(events@);
    let mut r: Vec<Range<usize>> = Vec::new();
    assert(all.take(0).len() == 0);
    for i in 0..events.len()
        invariant
            all == cmark::source_models(events@),
            r@ == html_ranges(all.take(i as int)),
    {
        let (event, range) = &events[i];
        proof {
            assert(all.take(i + 1).drop_last() =~= all.take(i as int));
            assert(all.take(i + 1).last() == (event@, *range));
        }
        if let SourceEvent::Start(SourceTag::Plain(MarkdownTag::HtmlBlock)) = event {
            r.push(range.start..range.end);
        }
    }
    assert(all.take(all.len() as int) =~= all);
    r
}

/// The document of a text. `None` if an event of the parser has no place in it.
pub open spec fn parsed(
    text: &str,
    parse_html: bool,
    parse_heading_slugs: bool,
    parse_metadata_blocks: bool,
    html: Seq<usize>,
) -> Option<DocumentModel> {
    document(
        text.spec_bytes(),
        cmark::cmark_events(text@, parse_options(parse_metadata_blocks)),
        parse_html,
        parse_heading_slugs,
        parse_metadata_blocks,
        html,
    )
}

/// The link definitions of a text, in the order of their starts, and of their ends where they
/// start at one place.
pub open spec fn are_definitions(spans: Seq<Range<usize>>, text: Seq<char>, options: u32) -> bool {
    spans.to_multiset() == cmark::cmark_definitions(text, options) && order::is_ordered(spans)
}

/// The document lists a language, or a source location, exactly if a code block of it names that,
/// and tells of a code block without either exactly if there is one.
pub open spec fn lists_code_blocks(d: DocumentModel) -> bool {
    forall|kind: CodeBlockKindModel|
        !(kind is Indented) ==> (convert::lists_kind(
            d.language_names,
            d.source_locations,
            d.has_untagged_code_block,
            kind,
        ) <==> #[trigger] convert::holds_code_of_kind(d.events, kind))
}

/// What holds of the document of every text: its events are balanced, and so are the marks of its
/// root-level blocks; no link lies in a code block or a metadata block; and it lists its code
/// blocks.
pub open spec fn is_consistent(d: DocumentModel) -> bool {
    &&& nesting::is_balanced(d.events)
    &&& nesting::root_open(d.events) == Some(false)
    &&& convert::no_links_in(Verbatim::Code, d.events)
    &&& convert::no_links_in(Verbatim::Metadata, d.events)
    &&& lists_code_blocks(d)
}

/// Makes a document out of the parser's events on a text: see [`document`]. `html_blocks` are the
/// starts of the HTML blocks whose events are left out, if HTML is of interest. `None` if an event
/// has no place in the text.
pub fn build_document(
    text: &str,
    events: &Vec<RangedSource>,
    parse_html: bool,
    parse_heading_slugs: bool,
    parse_metadata_blocks: bool,
    html_blocks: &Vec<usize>,
    link_definition_spans: Vec<Range<usize>>,
) -> (r: Option<ParsedMarkdownData>)
    ensures
        match document(
            text.spec_bytes(),
            cmark::source_models(events@),
            parse_html,
            parse_heading_slugs,
            parse_metadata_blocks,
            html_blocks@,
        ) {
            Some(data) => r is Some && r->0@ == data && r->0.link_definition_spans
                == link_definition_spans,
            None => r is None,
        },
{
    let options = ConvertOptions { parse_html, parse_metadata_blocks };
    let conversion = match convert::convert(text, events, &options, html_blocks) {
        Some(conversion) => conversion,
        None => {
            return None;
        },
    };
    let headings = if parse_heading_slugs {
        match headings::heading_texts(text, &conversion.events) {
            Some(headings) => headings,
            None => {
                return None;
            },
        }
    } else {
        Vec::new()
    };
    assert(!parse_heading_slugs ==> headings::heading_models(headings@) =~= Seq::empty());
    let footnote_definitions = footnotes::build_footnote_definitions(&conversion.events);
    Some(
        ParsedMarkdownData {
            events: conversion.events,
            language_names: conversion.language_names,
            source_locations: conversion.source_locations,
            root_block_starts: conversion.root_block_starts,
            html_blocks: conversion.html_blocks,
            metadata_blocks: conversion.metadata_blocks,
            headings,
            footnote_definitions,
            link_definition_spans,
            has_untagged_code_block: conversion.has_untagged_code_block,
        },
    )
}

/// Parses a text, if all events of the parser have their place in it.
pub(crate) fn parse_document(
    text: &str,
    parse_html: bool,
    parse_heading_slugs: bool,
    parse_metadata_blocks: bool,
    html_blocks: &Vec<usize>,
) -> (r: Option<ParsedMarkdownData>)
    ensures
        match parsed(text, parse_html, parse_heading_slugs, parse_metadata_blocks, html_blocks@) {
            Some(data) => r is Some && r->0@ == data && are_definitions(
                r->0.link_definition_spans@,
                text@,
                parse_options(parse_metadata_blocks),
            ) && is_consistent(data),
            None => r is None,
        },
{
    let options = document_options(parse_metadata_blocks);
    let link_definition_spans = cmark::link_definitions(text, options);
    let events = cmark::source_events(text, options);
    proof {
        let b = text.spec_bytes();
        let source = cmark::source_models(events@);
        let html = html_blocks@;
        if document(
            b,
            source,
            parse_html,
            parse_heading_slugs,
            parse_metadata_blocks,
            html,
        ) is Some {
            law_documents_are_consistent(
                b,
                source,
                parse_html,
                parse_heading_slugs,
                parse_metadata_blocks,
                html,
            );
        }
    }
    build_document(
        text,
        &events,
        parse_html,
        parse_heading_slugs,
        parse_metadata_blocks,
        html_blocks,
        link_definition_spans,
    )
}

/// Parses a text: see [`parsed`]. `html_blocks` are the starts of the HTML blocks that are shown
/// as a whole, without their events.
pub fn parse_markdown_with_options(
    text: &str,
    parse_html: bool,
    parse_heading_slugs: bool,
    parse_metadata_blocks: bool,
    html_blocks: &Vec<usize>,
) -> (r: ParsedMarkdownData)
    requires
        parsed(text, parse_html, parse_heading_slugs, parse_metadata_blocks, html_blocks@) is Some,
    ensures
        parsed(text, parse_html, parse_heading_slugs, parse_metadata_blocks, html_blocks@) == Some(
            r@,
        ),
        are_definitions(
            r.link_definition_spans@,
            text@,
            parse_options(parse_metadata_blocks),
        ),
        is_consistent(r@),
{
    match parse_document(
        text,
        parse_html,
        parse_heading_slugs,
        parse_metadata_blocks,
        html_blocks,
    ) {
        Some(data) => data,
        None => vstd::pervasive::unreached(),
    }
}

/// Parses a text as [`parse_markdown_with_options`] does; `None` if an event of the parser has no
/// place in it.
pub fn try_parse_markdown_with_options(
    text: &str,
    parse_html: bool,
    parse_heading_slugs: bool,
    parse_metadata_blocks: bool,
    html_blocks: &Vec<usize>,
) -> (r: Option<ParsedMarkdownData>)
    ensures
        match parsed(text, parse_html, parse_heading_slugs, parse_metadata_blocks, html_blocks@) {
            Some(data) => r is Some && r->0@ == data && are_definitions(
                r->0.link_definition_spans@,
                text@,
                parse_options(parse_metadata_blocks),
            ) && is_consistent(data),
            None => r is None,
        },
{
    let fits = parse_document(
        text,
        parse_html,
        parse_heading_slugs,
        parse_metadata_blocks,
        html_blocks,
    ).is_some();
    if fits {
        Some(
            parse_markdown_with_options(
                text,
                parse_html,
                parse_heading_slugs,
                parse_metadata_blocks,
                html_blocks,
            ),
        )
    } else {
        None
    }
}

/// The events of a document are those of its conversion, with marks around its root-level blocks.
/// The marks start where the list of starts says, and number the blocks from 0 on.
pub proof fn law_document_marks_root_blocks(
    b: Seq<u8>,
    events: Seq<RangedSourceModel>,
    parse_html: bool,
    parse_heading_slugs: bool,
    parse_metadata_blocks: bool,
    html: Seq<usize>,
)
    requires
        document(b, events, parse_html, parse_heading_slugs, parse_metadata_blocks, html) is Some,
    ensures
        ({
            let options = ConvertOptions { parse_html, parse_metadata_blocks };
            let f = convert::converted(
                b,
                events,
                options,
                html,
                0,
                convert::start_of_flow(),
            )->0;
            let d = document(
                b,
                events,
                parse_html,
                parse_heading_slugs,
                parse_metadata_blocks,
                html,
            )->0;
            let open = if roots::grouped(f.out).depth > 0 {
                1int
            } else {
                0
            };
            &&& roots::without_markers(d.events) == f.out
            &&& f.out.len() <= usize::MAX ==> roots::root_starts(d.events) == d.root_block_starts
            &&& f.out.len() <= usize::MAX ==> roots::root_ends(d.events) == Seq::new(
                (d.root_block_starts.len() - open) as nat,
                |i: int| i,
            )
        }),
{
    let options = ConvertOptions { parse_html, parse_metadata_blocks };
    let start = convert::start_of_flow();
    let f = convert::converted(b, events, options, html, 0, start)->0;
    convert::lemma_conversion_is_unmarked(b, events, options, html, 0, start);
    roots::law_grouping_keeps_events(f.out);
    if f.out.len() <= usize::MAX {
        roots::law_root_blocks_are_numbered(f.out);
    }
}

/// A document that is not asked for metadata blocks holds none.
pub proof fn law_metadata_blocks_are_omitted_by_default(
    b: Seq<u8>,
    events: Seq<RangedSourceModel>,
    parse_html: bool,
    parse_heading_slugs: bool,
    html: Seq<usize>,
)
    requires
        document(b, events, parse_html, parse_heading_slugs, false, html) is Some,
    ensures
        ({
            let d = document(b, events, parse_html, parse_heading_slugs, false, html)->0;
            &&& d.metadata_blocks == Map::<usize, MetadataModel>::empty()
            &&& forall|i: int|
                0 <= i < d.events.len() ==> !convert::is_metadata_event(
                    (#[trigger] d.events[i]).1,
                )
        }),
{
    let options = ConvertOptions { parse_html, parse_metadata_blocks: false };
    let start = convert::start_of_flow();
    let f = convert::converted(b, events, options, html, 0, start)->0;
    convert::lemma_metadata_blocks_are_omitted(b, events, options, html, 0, start);
    let grouped = roots::grouped(f.out).events;
    assert forall|i: int| 0 <= i < grouped.len() implies !convert::is_metadata_event(
        (#[trigger] grouped[i]).1,
    ) by {
        roots::lemma_grouped_events(f.out, i);
        if f.out.contains(grouped[i]) {
            let k = choose|k: int| 0 <= k < f.out.len() && f.out[k] == grouped[i];
            assert(!convert::is_metadata_event(f.out[k].1));
        }
    }
}

/// Asking for the headings of a document without metadata blocks makes no parse fail.
pub proof fn law_headings_never_fail(
    b: Seq<u8>,
    events: Seq<RangedSourceModel>,
    parse_html: bool,
    html: Seq<usize>,
)
    requires
        valid_utf8(b),
    ensures
        document(b, events, parse_html, true, false, html) is Some <==> document(
            b,
            events,
            parse_html,
            false,
            false,
            html,
        ) is Some,
{
    let options = ConvertOptions { parse_html, parse_metadata_blocks: false };
    let start = convert::start_of_flow();
    if let Some(f) = convert::converted(b, events, options, html, 0, start) {
        convert::lemma_events_show_slices(b, events, options, html, 0, start);
        let grouped = roots::grouped(f.out).events;
        assert forall|i: int|
            0 <= i < grouped.len() && ((#[trigger] grouped[i]).1 is Text || grouped[i].1
                is Code) implies span::is_slice(
            b,
            grouped[i].0.start as int,
            grouped[i].0.end as int,
        ) by {
            roots::lemma_grouped_events(f.out, i);
            let k = choose|k: int| 0 <= k < f.out.len() && f.out[k] == grouped[i];
            assert(f.out[k] == grouped[i]);
        }
        headings::lemma_headings_of_slices(b, grouped);
    }
}

proof fn lemma_grouped_keeps_links_out(kind: Verbatim, out: Seq<RangedModel>)
    requires
        convert::no_links_in(kind, out),
    ensures
        convert::no_links_in(kind, roots::grouped(out).events),
        convert::in_block(
            kind,
            roots::grouped(out).events,
            roots::grouped(out).events.len() as int,
        ) == convert::in_block(kind, out, out.len() as int),
    decreases out.len(),
{
    if out.len() > 0 {
        let init = out.drop_last();
        let e = out.last();
        assert(init.push(e) =~= out);
        assert forall|n: int| 0 <= n <= init.len() implies #[trigger] convert::in_block(
            kind,
            init,
            n,
        ) == convert::in_block(kind, out, n) by {
            convert::lemma_in_block_prefix(kind, init, seq![e], n);
            assert(init + seq![e] =~= out);
        }
        assert forall|n: int|
            0 <= n < init.len() && #[trigger] convert::in_block(
                kind,
                init,
                n,
            ) implies !convert::is_link_event(init[n].1) by {
            assert(convert::in_block(kind, out, n));
            assert(init[n] == out[n]);
        }
        lemma_grouped_keeps_links_out(kind, init);
        assert(convert::in_block(kind, init, init.len() as int) == convert::in_block(
            kind,
            out,
            init.len() as int,
        ));
        let m = roots::grouped(init);
        let start = (e.0, EventModel::RootStart);
        let ended = (e.0, EventModel::RootEnd((m.starts.len() - 1) as usize));
        let ruled = (e.0, EventModel::RootEnd(m.starts.len() as usize));
        convert::lemma_in_block_push(kind, init, e);
        convert::lemma_in_block_push(kind, m.events, e);
        convert::lemma_in_block_push(kind, m.events, start);
        convert::lemma_in_block_push(kind, m.events.push(start), e);
        convert::lemma_in_block_push(kind, m.events.push(e), ended);
        convert::lemma_in_block_push(kind, m.events.push(start).push(e), ruled);
    }
}

/// Code blocks and metadata blocks hold no links: where the parser puts nothing but text into the
/// blocks of a kind, no link starts or ends inside of one, whatever its text holds.
pub proof fn law_verbatim_blocks_hold_no_links(
    kind: Verbatim,
    b: Seq<u8>,
    events: Seq<RangedSourceModel>,
    parse_html: bool,
    parse_heading_slugs: bool,
    parse_metadata_blocks: bool,
    html: Seq<usize>,
)
    requires
        convert::holds_text(kind, events),
        document(b, events, parse_html, parse_heading_slugs, parse_metadata_blocks, html) is Some,
    ensures
        convert::no_links_in(
            kind,
            (document(
                b,
                events,
                parse_html,
                parse_heading_slugs,
                parse_metadata_blocks,
                html,
            )->0).events,
        ),
{
    let options = ConvertOptions { parse_html, parse_metadata_blocks };
    let start = convert::start_of_flow();
    let f = convert::converted(b, events, options, html, 0, start)->0;
    convert::lemma_blocks_hold_no_links(kind, b, events, options, html, 0, start);
    lemma_grouped_keeps_links_out(kind, f.out);
}

/// A document lists each language, each source location and each HTML block once.
pub proof fn law_lists_have_no_duplicates(
    b: Seq<u8>,
    events: Seq<RangedSourceModel>,
    parse_html: bool,
    parse_heading_slugs: bool,
    parse_metadata_blocks: bool,
    html: Seq<usize>,
)
    requires
        document(b, events, parse_html, parse_heading_slugs, parse_metadata_blocks, html) is Some,
    ensures
        ({
            let d = document(
                b,
                events,
                parse_html,
                parse_heading_slugs,
                parse_metadata_blocks,
                html,
            )->0;
            &&& d.language_names.no_duplicates()
            &&& d.source_locations.no_duplicates()
            &&& d.html_blocks.no_duplicates()
        }),
{
    let options = ConvertOptions { parse_html, parse_metadata_blocks };
    let start = convert::start_of_flow();
    convert::lemma_lists_have_no_duplicates(b, events, options, html, 0, start);
}

/// A document that HTML is of no interest for has taken over no HTML block.
pub proof fn law_html_blocks_are_kept_by_default(
    b: Seq<u8>,
    events: Seq<RangedSourceModel>,
    parse_heading_slugs: bool,
    parse_metadata_blocks: bool,
    html: Seq<usize>,
)
    requires
        document(b, events, false, parse_heading_slugs, parse_metadata_blocks, html) is Some,
    ensures
        (document(
            b,
            events,
            false,
            parse_heading_slugs,
            parse_metadata_blocks,
            html,
        )->0).html_blocks.len() == 0,
{
    let options = ConvertOptions { parse_html: false, parse_metadata_blocks };
    let start = convert::start_of_flow();
    convert::lemma_html_blocks_are_kept(b, events, options, html, 0, start);
}

/// A text has one list of link definitions: parsing it again gives the same.
pub proof fn law_definitions_are_unique(
    text: Seq<char>,
    options: u32,
    x: Seq<Range<usize>>,
    y: Seq<Range<usize>>,
)
    requires
        are_definitions(x, text, options),
        are_definitions(y, text, options),
    ensures
        x == y,
{
    order::lemma_order_is_unique(x, y);
}

/// Asking for the headings of a document changes nothing else: a text that is parsed with them and
/// without them gives documents that agree in all but the headings, and the second has none.
pub proof fn law_headings_change_nothing_else(
    text: &str,
    parse_html: bool,
    parse_metadata_blocks: bool,
    html: Seq<usize>,
    with: ParsedMarkdownData,
    without: ParsedMarkdownData,
)
    requires
        parsed(text, parse_html, true, parse_metadata_blocks, html) == Some(with@),
        parsed(text, parse_html, false, parse_metadata_blocks, html) == Some(without@),
        are_definitions(
            with.link_definition_spans@,
            text@,
            parse_options(parse_metadata_blocks),
        ),
        are_definitions(
            without.link_definition_spans@,
            text@,
            parse_options(parse_metadata_blocks),
        ),
    ensures
        with@ == (DocumentModel { headings: with@.headings, ..without@ }),
        with.link_definition_spans@ == without.link_definition_spans@,
        without@.headings.len() == 0,
        !parse_html ==> without@.html_blocks.len() == 0,
        !parse_metadata_blocks ==> without@.metadata_blocks == Map::<
            usize,
            MetadataModel,
        >::empty(),
        !parse_metadata_blocks ==> forall|i: int|
            0 <= i < without@.events.len() ==> !convert::is_metadata_event(
                (#[trigger] without@.events[i]).1,
            ),
{
    law_definitions_are_unique(
        text@,
        parse_options(parse_metadata_blocks),
        with.link_definition_spans@,
        without.link_definition_spans@,
    );
    let b = text.spec_bytes();
    let events = cmark::cmark_events(text@, parse_options(parse_metadata_blocks));
    if !parse_html {
        law_html_blocks_are_kept_by_default(b, events, false, parse_metadata_blocks, html);
    }
    if !parse_metadata_blocks {
        law_metadata_blocks_are_omitted_by_default(b, events, parse_html, false, html);
    }
}

/// The marks of the root-level blocks of a document alternate: a block starts only while none is
/// open, and ends only while one is.
pub proof fn law_root_marks_alternate(
    b: Seq<u8>,
    events: Seq<RangedSourceModel>,
    parse_html: bool,
    parse_heading_slugs: bool,
    parse_metadata_blocks: bool,
    html: Seq<usize>,
)
    requires
        document(b, events, parse_html, parse_heading_slugs, parse_metadata_blocks, html) is Some,
    ensures
        nesting::root_open(
            (document(
                b,
                events,
                parse_html,
                parse_heading_slugs,
                parse_metadata_blocks,
                html,
            )->0).events,
        ) is Some,
{
    let options = ConvertOptions { parse_html, parse_metadata_blocks };
    let start = convert::start_of_flow();
    let f = convert::converted(b, events, options, html, 0, start)->0;
    convert::lemma_conversion_is_unmarked(b, events, options, html, 0, start);
    nesting::law_root_marks_alternate(f.out);
}

/// Balanced events of the parser, whose code blocks, metadata blocks and HTML blocks hold no
/// elements, give a balanced document: each start of an element has its end, elements lie inside
/// each other or apart, and each root-level block that starts ends.
pub proof fn law_documents_are_balanced(
    b: Seq<u8>,
    events: Seq<RangedSourceModel>,
    parse_html: bool,
    parse_heading_slugs: bool,
    parse_metadata_blocks: bool,
    html: Seq<usize>,
)
    requires
        nesting::is_source_balanced(events),
        nesting::has_leaf_blocks(events),
        document(b, events, parse_html, parse_heading_slugs, parse_metadata_blocks, html) is Some,
    ensures
        ({
            let d = document(
                b,
                events,
                parse_html,
                parse_heading_slugs,
                parse_metadata_blocks,
                html,
            )->0;
            nesting::is_balanced(d.events) && nesting::root_open(d.events) == Some(false)
        }),
{
    let options = ConvertOptions { parse_html, parse_metadata_blocks };
    let start = convert::start_of_flow();
    let f = convert::converted(b, events, options, html, 0, start)->0;
    convert::lemma_conversion_is_unmarked(b, events, options, html, 0, start);
    nesting::lemma_conversion_nests_alike(b, events, options, html, 0, start);
    nesting::lemma_grouped_nests_alike(f.out);
    nesting::lemma_depth(f.out);
    nesting::law_root_marks_alternate(f.out);
}

proof fn lemma_code_blocks_are_listed(f: Flow, kind: CodeBlockKindModel)
    requires
        convert::lists_what_is_out(f, kind),
    ensures
        convert::lists_kind(
            f.language_names,
            f.source_locations,
            f.has_untagged_code_block,
            kind,
        ) <==> convert::holds_code_of_kind(roots::grouped(f.out).events, kind),
{
    let grouped = roots::grouped(f.out).events;
    if convert::holds_code_of_kind(f.out, kind) {
        let i = choose|i: int|
            0 <= i < f.out.len() && convert::is_code_of_kind((#[trigger] f.out[i]).1, kind);
        roots::lemma_events_are_grouped(f.out, i);
        let k = choose|k: int| 0 <= k < grouped.len() && grouped[k] == f.out[i];
        assert(convert::is_code_of_kind(grouped[k].1, kind));
    }
    if convert::holds_code_of_kind(grouped, kind) {
        let k = choose|k: int|
            0 <= k < grouped.len() && convert::is_code_of_kind((#[trigger] grouped[k]).1, kind);
        roots::lemma_grouped_events(f.out, k);
        let i = choose|i: int| 0 <= i < f.out.len() && f.out[i] == grouped[k];
        assert(convert::is_code_of_kind(f.out[i].1, kind));
    }
}

/// A document lists the languages and the source locations of its code blocks and no others, and
/// tells of a code block without either exactly if there is one.
pub proof fn law_code_blocks_are_listed(
    b: Seq<u8>,
    events: Seq<RangedSourceModel>,
    parse_html: bool,
    parse_heading_slugs: bool,
    parse_metadata_blocks: bool,
    html: Seq<usize>,
)
    requires
        cmark::has_parser_code_tags(events),
        document(b, events, parse_html, parse_heading_slugs, parse_metadata_blocks, html) is Some,
    ensures
        lists_code_blocks(
            document(
                b,
                events,
                parse_html,
                parse_heading_slugs,
                parse_metadata_blocks,
                html,
            )->0,
        ),
{
    let options = ConvertOptions { parse_html, parse_metadata_blocks };
    let start = convert::start_of_flow();
    let f = convert::converted(b, events, options, html, 0, start)->0;
    let d = document(
        b,
        events,
        parse_html,
        parse_heading_slugs,
        parse_metadata_blocks,
        html,
    )->0;
    assert forall|kind: CodeBlockKindModel| !(kind is Indented) implies (convert::lists_kind(
        d.language_names,
        d.source_locations,
        d.has_untagged_code_block,
        kind,
    ) <==> #[trigger] convert::holds_code_of_kind(d.events, kind)) by {
        convert::lemma_conversion_lists_what_is_out(b, events, options, html, 0, start, kind);
        lemma_code_blocks_are_listed(f, kind);
    }
}

/// Where the parser's events are balanced, and its code blocks, metadata blocks and HTML blocks hold
/// no elements, the document is consistent.
pub proof fn law_documents_are_consistent(
    b: Seq<u8>,
    events: Seq<RangedSourceModel>,
    parse_html: bool,
    parse_heading_slugs: bool,
    parse_metadata_blocks: bool,
    html: Seq<usize>,
)
    requires
        nesting::is_source_balanced(events),
        nesting::has_leaf_blocks(events),
        cmark::has_parser_code_tags(events),
        document(b, events, parse_html, parse_heading_slugs, parse_metadata_blocks, html) is Some,
    ensures
        is_consistent(
            document(
                b,
                events,
                parse_html,
                parse_heading_slugs,
                parse_metadata_blocks,
                html,
            )->0,
        ),
{
    law_documents_are_balanced(
        b,
        events,
        parse_html,
        parse_heading_slugs,
        parse_metadata_blocks,
        html,
    );
    law_code_blocks_are_listed(
        b,
        events,
        parse_html,
        parse_heading_slugs,
        parse_metadata_blocks,
        html,
    );
    nesting::lemma_leaf_blocks_hold_text(Verbatim::Code, events);
    law_verbatim_blocks_hold_no_links(
        Verbatim::Code,
        b,
        events,
        parse_html,
        parse_heading_slugs,
        parse_metadata_blocks,
        html,
    );
    nesting::lemma_leaf_blocks_hold_text(Verbatim::Metadata, events);
    law_verbatim_blocks_hold_no_links(
        Verbatim::Metadata,
        b,
        events,
        parse_html,
        parse_heading_slugs,
        parse_metadata_blocks,
        html,
    );
}

} // verus!
