//! The conversion of the parser's events into [`MarkdownEvent`]s.
use crate::autolink;
use crate::autolink::{PieceModel, TextPiece};
use crate::cmark;
use crate::cmark::{
    RangedSource, RangedSourceModel, SourceEvent, SourceModel, SourceTag, SourceTagModel,
};
use crate::event;
use crate::event::{
    CodeBlockKind, CodeBlockKindModel, CodeBlockMetadata, EventModel, MarkdownEvent, MarkdownTag,
    MarkdownTagEnd, RangedEvent, RangedModel, TagModel,
};
use crate::roots;
use crate::roots::ParseState;
use crate::scan;
use crate::scan::{
    extract_code_block_content_range, extract_code_content_range, is_br_tag,
    parse_metadata_table_rows, MetadataRow,
};
use crate::span;
use std::collections::BTreeMap;
use std::ops::Range;
use vstd::prelude::*;
use vstd::string::StringSliceAdditionalSpecFns;
use vstd::utf8::*;

verus! {

broadcast use {event::lemma_models_push, roots::lemma_grouped_push};

/// A metadata block: the range of its content, and its rows if it is a list of simple pairs.
#[derive(Debug, PartialEq)]
pub struct ParsedMetadataBlock {
    pub content_range: Range<usize>,
    pub rows: Option<Vec<MetadataRow>>,
}

/// The model of a [`ParsedMetadataBlock`].
pub struct MetadataModel {
    pub content_range: Range<usize>,
    pub rows: Option<Seq<MetadataRow>>,
}

impl View for ParsedMetadataBlock {
    type V = MetadataModel;

    open spec fn view(&self) -> MetadataModel {
        MetadataModel {
            content_range: self.content_range,
            rows: match self.rows {
                Some(rows) => Some(rows@),
                None => None,
            },
        }
    }
}

impl Clone for ParsedMetadataBlock {
    fn clone(&self) -> (r: Self)
        ensures
            r@ == self@,
    {
        let rows = match &self.rows {
            Some(rows) => {
                let mut cloned: Vec<MetadataRow> = Vec::new();
                for i in 0..rows.len()
                    invariant
                        cloned@ == rows@.take(i as int),
                {
                    cloned.push(rows[i].clone());
                    assert(cloned@ =~= rows@.take(i + 1));
                }
                assert(rows@.take(rows@.len() as int) =~= rows@);
                Some(cloned)
            },
            None => None,
        };
        ParsedMetadataBlock {
            content_range: self.content_range.start..self.content_range.end,
            rows,
        }
    }
}

/// The model of the metadata blocks of a document, by their starts.
pub open spec fn metadata_models(blocks: Map<usize, ParsedMetadataBlock>) -> Map<
    usize,
    MetadataModel,
> {
    blocks.map_values(|block: ParsedMetadataBlock| block@)
}

/// The model of a list of strings.
pub open spec fn string_models(strings: Seq<String>) -> Seq<Seq<char>> {
    strings.map_values(|s: String| s@)
}

/// What is asked of a conversion.
pub struct ConvertOptions {
    /// HTML is of interest: `<br>` is a line break, and other inline tags are left out of text.
    pub parse_html: bool,
    /// Metadata blocks are of interest; else they are left out.
    pub parse_metadata_blocks: bool,
}

/// Where a conversion stands: what it has put out and which elements it is in.
pub struct Flow {
    pub out: Seq<RangedModel>,
    pub within_link: bool,
    pub within_code_block: bool,
    pub within_metadata: bool,
    pub within_table: bool,
    /// Within an HTML block that was taken over as a whole.
    pub within_html: bool,
    pub metadata_start: Option<usize>,
    pub metadata_range: Option<Range<usize>>,
    pub language_names: Seq<Seq<char>>,
    pub source_locations: Seq<Seq<char>>,
    pub has_untagged_code_block: bool,
    pub html_blocks: Seq<usize>,
    pub metadata_blocks: Map<usize, MetadataModel>,
}

/// Before the first event.
pub open spec fn start_of_flow() -> Flow {
    Flow {
        out: Seq::empty(),
        within_link: false,
        within_code_block: false,
        within_metadata: false,
        within_table: false,
        within_html: false,
        metadata_start: None,
        metadata_range: None,
        language_names: Seq::empty(),
        source_locations: Seq::empty(),
        has_untagged_code_block: false,
        html_blocks: Seq::empty(),
        metadata_blocks: Map::empty(),
    }
}

/// With one more event put out.
pub open spec fn emitted(f: Flow, range: Range<usize>, event: EventModel) -> Flow {
    Flow { out: f.out.push((range, event)), ..f }
}

/// With `x` at the end, unless it is there already.
pub open spec fn added<T>(s: Seq<T>, x: T) -> Seq<T> {
    if s.contains(x) {
        s
    } else {
        s.push(x)
    }
}

/// How often a byte occurs in `i..j`.
pub open spec fn count_byte(b: Seq<u8>, byte: u8, i: int, j: int) -> int
    decreases j - i,
{
    if i < j {
        count_byte(b, byte, i, j - 1) + if b[j - 1] == byte {
            1int
        } else {
            0
        }
    } else {
        0
    }
}

/// `b[i..j]` holds `byte`.
pub open spec fn holds_byte(b: Seq<u8>, byte: u8, i: int, j: int) -> bool {
    exists|k: int| i <= k < j && #[trigger] b[k] == byte
}

/// `b[i..j]` holds an escaped pipe, `\|`.
pub open spec fn holds_escaped_pipe(b: Seq<u8>, i: int, j: int) -> bool {
    exists|k: int| i <= k && k + 1 < j && #[trigger] b[k] == 0x5c && b[k + 1] == 0x7c
}

/// The kind of a fenced code block by its info string: what it names, without white space around
/// it. A name with a slash is a source location, since languages never contain one.
pub open spec fn fenced_kind(info: Seq<char>) -> CodeBlockKindModel {
    let b = encode_utf8(info);
    let i = span::skip_white(b, 0, b.len() as int);
    let j = span::skip_white_back(b, i, b.len() as int);
    let name = span::chars_of(b, i, j);
    if i >= j {
        CodeBlockKindModel::Fenced
    } else if holds_byte(b, 0x2f, i, j) {
        CodeBlockKindModel::FencedSrc(name)
    } else {
        CodeBlockKindModel::FencedLang(name)
    }
}

/// The metadata of the fenced code block at a range of the source.
pub open spec fn fenced_metadata(b: Seq<u8>, range: Range<usize>) -> CodeBlockMetadata {
    let block = b.subrange(range.start as int, range.end as int);
    let (start, end) = scan::fenced_content(block);
    CodeBlockMetadata {
        content_range: (range.start + start) as usize..(range.start + end) as usize,
        line_count: count_byte(b, 10, range.start + start, range.start + end) as usize,
        is_fenced_closed: end < block.len(),
    }
}

/// With an element started. `None` if it has no place in the source.
pub open spec fn started(
    b: Seq<u8>,
    options: ConvertOptions,
    html: Seq<usize>,
    f: Flow,
    tag: SourceTagModel,
    range: Range<usize>,
) -> Option<Flow> {
    match tag {
        SourceTagModel::Plain(TagModel::HtmlBlock) => {
            let f = emitted(f, range, EventModel::Start(TagModel::HtmlBlock));
            if options.parse_html && !span::is_slice(b, range.start as int, range.end as int) {
                None
            } else if options.parse_html && html.contains(range.start) {
                Some(
                    Flow {
                        within_html: true,
                        html_blocks: added(f.html_blocks, range.start),
                        ..f
                    },
                )
            } else {
                Some(f)
            }
        },
        SourceTagModel::Plain(TagModel::MetadataBlock(kind)) => {
            let f = Flow {
                within_metadata: true,
                metadata_start: Some(range.start),
                metadata_range: None,
                ..f
            };
            if options.parse_metadata_blocks {
                Some(emitted(f, range, EventModel::Start(TagModel::MetadataBlock(kind))))
            } else {
                Some(f)
            }
        },
        SourceTagModel::IndentedCode => {
            let metadata = CodeBlockMetadata {
                content_range: range,
                line_count: 1,
                is_fenced_closed: false,
            };
            let tag = TagModel::CodeBlock { kind: CodeBlockKindModel::Indented, metadata };
            Some(
                emitted(Flow { within_code_block: true, ..f }, range, EventModel::Start(tag)),
            )
        },
        SourceTagModel::FencedCode(info) => if !span::is_slice(
            b,
            range.start as int,
            range.end as int,
        ) {
            None
        } else {
            let kind = fenced_kind(info);
            let f = Flow {
                within_code_block: true,
                has_untagged_code_block: f.has_untagged_code_block || kind is Fenced,
                language_names: match kind {
                    CodeBlockKindModel::FencedLang(language) => added(f.language_names, language),
                    _ => f.language_names,
                },
                source_locations: match kind {
                    CodeBlockKindModel::FencedSrc(location) => added(f.source_locations, location),
                    _ => f.source_locations,
                },
                ..f
            };
            let tag = TagModel::CodeBlock { kind, metadata: fenced_metadata(b, range) };
            Some(emitted(f, range, EventModel::Start(tag)))
        },
        SourceTagModel::Plain(tag) => Some(
            emitted(
                Flow {
                    within_link: f.within_link || tag is Link,
                    within_table: f.within_table || tag is Table,
                    ..f
                },
                range,
                EventModel::Start(tag),
            ),
        ),
    }
}

/// With an element ended. `None` if the metadata block that it ends has no place in the source.
pub open spec fn ended(
    b: Seq<u8>,
    options: ConvertOptions,
    f: Flow,
    tag: MarkdownTagEnd,
    range: Range<usize>,
) -> Option<Flow> {
    match tag {
        MarkdownTagEnd::Link => Some(
            emitted(Flow { within_link: false, ..f }, range, EventModel::End(tag)),
        ),
        MarkdownTagEnd::CodeBlock => Some(
            emitted(Flow { within_code_block: false, ..f }, range, EventModel::End(tag)),
        ),
        MarkdownTagEnd::Table => Some(
            emitted(Flow { within_table: false, ..f }, range, EventModel::End(tag)),
        ),
        MarkdownTagEnd::MetadataBlock(_) => {
            let g = Flow {
                within_metadata: false,
                metadata_start: None,
                metadata_range: None,
                ..f
            };
            if !options.parse_metadata_blocks {
                Some(g)
            } else {
                match (f.metadata_start, f.metadata_range) {
                    (Some(start), Some(content)) => if span::is_slice(
                        b,
                        content.start as int,
                        content.end as int,
                    ) {
                        Some(
                            emitted(
                                Flow {
                                    metadata_blocks: g.metadata_blocks.insert(
                                        start,
                                        metadata_block(b, content),
                                    ),
                                    ..g
                                },
                                range,
                                EventModel::End(tag),
                            ),
                        )
                    } else {
                        None
                    },
                    _ => Some(emitted(g, range, EventModel::End(tag))),
                }
            }
        },
        _ => Some(emitted(f, range, EventModel::End(tag))),
    }
}

/// The metadata block with this content.
pub open spec fn metadata_block(b: Seq<u8>, content: Range<usize>) -> MetadataModel {
    MetadataModel {
        content_range: content,
        rows: match scan::metadata_rows(b, content.start as int, content.end as int) {
            Some(rows) if rows.len() > 0 => Some(rows),
            _ => None,
        },
    }
}

/// The smallest range around both ranges; the second if there is no first.
pub open spec fn extended(range: Option<Range<usize>>, more: Range<usize>) -> Range<usize> {
    match range {
        Some(range) => (if range.start < more.start {
            range.start
        } else {
            more.start
        })..(if range.end > more.end {
            range.end
        } else {
            more.end
        }),
        None => more,
    }
}

/// The event goes on with a run of text: it is text, or inline HTML that is left out of the text.
pub open spec fn continues_text(event: SourceModel, parse_html: bool) -> bool {
    match event {
        SourceModel::Text(_) => true,
        SourceModel::InlineHtml(html) => parse_html && !scan::br_tag(encode_utf8(html)),
        _ => false,
    }
}

/// Where the run of text ends that goes on at `i`.
pub open spec fn text_run_end(events: Seq<RangedSourceModel>, i: int, parse_html: bool) -> int
    decreases events.len() - i,
{
    if i < events.len() && continues_text(events[i].0, parse_html) {
        text_run_end(events, i + 1, parse_html)
    } else {
        i
    }
}

/// The piece of text that an event of a run adds to it: HTML adds none.
pub open spec fn text_piece(event: RangedSourceModel) -> PieceModel {
    PieceModel {
        source: event.1,
        parsed: match event.0 {
            SourceModel::Text(text) => encode_utf8(text),
            _ => Seq::empty(),
        },
    }
}

/// The pieces of the run of text from `i` to `j`.
pub open spec fn text_pieces(events: Seq<RangedSourceModel>, i: int, j: int) -> Seq<PieceModel> {
    events.subrange(i, j).map_values(|e: RangedSourceModel| text_piece(e))
}

/// The event for inline code, with the range of its content: code of a table in which a pipe is
/// escaped reads otherwise than the source. `None` if it has no place in the source.
pub open spec fn code_event(b: Seq<u8>, range: Range<usize>, code: Seq<char>, within_table: bool) -> Option<
    RangedModel,
> {
    if !span::is_slice(b, range.start as int, range.end as int) {
        None
    } else {
        let (start, end) = scan::code_content(b.subrange(range.start as int, range.end as int));
        let content = (range.start + start) as usize..(range.start + end) as usize;
        if within_table && holds_escaped_pipe(b, range.start + start, range.start + end) {
            Some((content, EventModel::SubstitutedCode(code)))
        } else {
            Some((content, EventModel::Code))
        }
    }
}

/// What comes of the event at `i`: the flow behind it, and the next event to go on with. `None` if
/// the event has no place in the source.
pub open spec fn step(
    b: Seq<u8>,
    events: Seq<RangedSourceModel>,
    options: ConvertOptions,
    html: Seq<usize>,
    i: int,
    f: Flow,
) -> Option<(Flow, int)> {
    let (event, range) = events[i];
    let one = |f: Option<Flow>|
        match f {
            Some(f) => Some((f, i + 1)),
            None => None::<(Flow, int)>,
        };
    if f.within_html {
        if event == SourceModel::End(MarkdownTagEnd::HtmlBlock) {
            one(
                Some(
                    emitted(
                        Flow { within_html: false, ..f },
                        range,
                        EventModel::End(MarkdownTagEnd::HtmlBlock),
                    ),
                ),
            )
        } else {
            one(Some(f))
        }
    } else if f.within_metadata && !options.parse_metadata_blocks {
        if event matches SourceModel::End(tag) && tag is MetadataBlock {
            one(
                Some(
                    Flow {
                        within_metadata: false,
                        metadata_start: None,
                        metadata_range: None,
                        ..f
                    },
                ),
            )
        } else {
            one(Some(f))
        }
    } else {
        match event {
            SourceModel::Start(tag) => one(started(b, options, html, f, tag, range)),
            SourceModel::End(tag) => one(ended(b, options, f, tag, range)),
            SourceModel::Text(text) => if f.within_metadata {
                one(
                    Some(
                        emitted(
                            Flow {
                                metadata_range: Some(extended(f.metadata_range, range)),
                                ..f
                            },
                            range,
                            EventModel::Text,
                        ),
                    ),
                )
            } else if f.within_code_block {
                one(
                    match autolink::piece_event(
                        b,
                        PieceModel { source: range, parsed: encode_utf8(text) },
                    ) {
                        Some(event) => Some(emitted(f, event.0, event.1)),
                        None => None,
                    },
                )
            } else {
                let end = text_run_end(events, i + 1, options.parse_html);
                match autolink::text_run_events(b, text_pieces(events, i, end), f.within_link) {
                    Some(run) => Some((Flow { out: f.out + run, ..f }, end)),
                    None => None,
                }
            },
            SourceModel::Code(code) => one(
                match code_event(b, range, code, f.within_table) {
                    Some(event) => Some(emitted(f, event.0, event.1)),
                    None => None,
                },
            ),
            SourceModel::Html => one(Some(emitted(f, range, EventModel::Html))),
            SourceModel::InlineHtml(html) => one(
                Some(
                    emitted(
                        f,
                        range,
                        if options.parse_html && scan::br_tag(encode_utf8(html)) {
                            EventModel::HardBreak
                        } else {
                            EventModel::InlineHtml
                        },
                    ),
                ),
            ),
            SourceModel::FootnoteReference(label) => one(
                Some(emitted(f, range, EventModel::FootnoteReference(label))),
            ),
            SourceModel::SoftBreak => one(Some(emitted(f, range, EventModel::SoftBreak))),
            SourceModel::HardBreak => one(Some(emitted(f, range, EventModel::HardBreak))),
            SourceModel::Rule => one(Some(emitted(f, range, EventModel::Rule))),
            SourceModel::TaskListMarker(checked) => one(
                Some(emitted(f, range, EventModel::TaskListMarker(checked))),
            ),
            SourceModel::Math => one(Some(f)),
        }
    }
}

/// What comes of the events from `i` on. `None` if one of them has no place in the source.
pub open spec fn converted(
    b: Seq<u8>,
    events: Seq<RangedSourceModel>,
    options: ConvertOptions,
    html: Seq<usize>,
    i: int,
    f: Flow,
) -> Option<Flow>
    decreases events.len() - i,
    via converted_decreases
{
    if i >= events.len() {
        Some(f)
    } else {
        match step(b, events, options, html, i, f) {
            Some((f, next)) => converted(b, events, options, html, next, f),
            None => None,
        }
    }
}

#[via_fn]
proof fn converted_decreases(
    b: Seq<u8>,
    events: Seq<RangedSourceModel>,
    options: ConvertOptions,
    html: Seq<usize>,
    i: int,
    f: Flow,
) {
    if i < events.len() {
        lemma_text_run_end(events, i + 1, options.parse_html);
    }
}

/// Where a run of text ends.
pub proof fn lemma_text_run_end(events: Seq<RangedSourceModel>, i: int, parse_html: bool)
    requires
        i <= events.len(),
    ensures
        i <= text_run_end(events, i, parse_html) <= events.len(),
    decreases events.len() - i,
{
    if i < events.len() && continues_text(events[i].0, parse_html) {
        lemma_text_run_end(events, i + 1, parse_html);
    }
}

/// Counts a byte.
fn count_byte_in(bytes: &[u8], byte: u8, start: usize, end: usize) -> (r: usize)
    requires
        start <= end <= bytes@.len(),
    ensures
        r == count_byte(bytes@, byte, start as int, end as int),
        r <= end - start,
{
    let mut r: usize = 0;
    let mut i: usize = start;
    while i < end
        invariant
            start <= i <= end <= bytes@.len(),
            r == count_byte(bytes@, byte, start as int, i as int),
            r <= i - start,
        decreases end - i,
    {
        if bytes[i] == byte {
            r += 1;
        }
        i += 1;
    }
    r
}

/// Tests for an escaped pipe.
fn has_escaped_pipe(bytes: &[u8], start: usize, end: usize) -> (r: bool)
    requires
        start <= end <= bytes@.len(),
    ensures
        r == holds_escaped_pipe(bytes@, start as int, end as int),
{
    let mut i: usize = start;
    while i < end && end - i > 1
        invariant
            start <= i <= end <= bytes@.len(),
            forall|k: int|
                start <= k < i && k + 1 < end ==> !(#[trigger] bytes@[k] == 0x5c && bytes@[k + 1]
                    == 0x7c),
        decreases end - i,
    {
        if bytes[i] == 0x5c && bytes[i + 1] == 0x7c {
            assert(bytes@[i as int] == 0x5c && bytes@[i + 1] == 0x7c);
            return true;
        }
        i += 1;
    }
    false
}

/// Adds a string to a list, unless it is there already.
fn add_string(list: &mut Vec<String>, s: String)
    ensures
        string_models(final(list)@) == added(string_models(old(list)@), s@),
{
    let mut i: usize = 0;
    while i < list.len()
        invariant
            i <= list@.len(),
            forall|k: int| 0 <= k < i ==> (#[trigger] list@[k])@ != s@,
        decreases list@.len() - i,
    {
        if list[i] == s {
            proof {
                assert(string_models(list@)[i as int] == s@);
            }
            return ;
        }
        i += 1;
    }
    proof {
        let models = string_models(list@);
        assert(!models.contains(s@)) by {
            assert(forall|k: int| 0 <= k < models.len() ==> models[k] == list@[k]@);
        }
        assert(string_models(list@.push(s)) =~= models.push(s@));
    }
    list.push(s);
}

/// Tests for an offset in a list.
fn has_offset(list: &Vec<usize>, x: usize) -> (r: bool)
    ensures
        r == list@.contains(x),
{
    for i in 0..list.len()
        invariant
            forall|k: int| 0 <= k < i ==> list@[k] != x,
    {
        if list[i] == x {
            return true;
        }
    }
    false
}

/// The kind of a fenced code block: see [`fenced_kind`].
fn fenced_code_kind(info: &str) -> (r: CodeBlockKind)
    ensures
        r@ == fenced_kind(info@),
{
    let bytes = info.as_bytes();
    proof {
        span::lemma_str_bytes(info);
    }
    let start = span::trim_start_at(bytes, 0, bytes.len());
    let end = span::trim_end_at(bytes, start, bytes.len());
    if start >= end {
        CodeBlockKind::Fenced
    } else {
        let name = span::slice(info, start, end);
        let slash = span::find_byte_at(bytes, 0x2f, start, end);
        proof {
            span::lemma_find_byte(info.spec_bytes(), 0x2f, start as int, end as int);
        }
        if slash < end {
            assert(info.spec_bytes()[slash as int] == 0x2f);
            CodeBlockKind::FencedSrc(name.to_owned())
        } else {
            CodeBlockKind::FencedLang(name.to_owned())
        }
    }
}

/// A conversion that is under way. See [`Flow`] for what the fields are.
struct Converter {
    state: ParseState,
    out: Ghost<Seq<RangedModel>>,
    within_link: bool,
    within_code_block: bool,
    within_metadata: bool,
    within_table: bool,
    within_html: bool,
    metadata_start: Option<usize>,
    metadata_range: Option<Range<usize>>,
    language_names: Vec<String>,
    source_locations: Vec<String>,
    has_untagged_code_block: bool,
    html_blocks: Vec<usize>,
    metadata_blocks: BTreeMap<usize, ParsedMetadataBlock>,
}

impl View for Converter {
    type V = Flow;

    closed spec fn view(&self) -> Flow {
        Flow {
            out: self.out@,
            within_link: self.within_link,
            within_code_block: self.within_code_block,
            within_metadata: self.within_metadata,
            within_table: self.within_table,
            within_html: self.within_html,
            metadata_start: self.metadata_start,
            metadata_range: self.metadata_range,
            language_names: string_models(self.language_names@),
            source_locations: string_models(self.source_locations@),
            has_untagged_code_block: self.has_untagged_code_block,
            html_blocks: self.html_blocks@,
            metadata_blocks: metadata_models(self.metadata_blocks@),
        }
    }
}

/// The result of a step agrees with its model.
spec fn steps_to(ok: bool, after: Flow, expected: Option<Flow>) -> bool {
    ok == expected is Some && (expected matches Some(f) ==> after == f)
}

impl Converter {
    /// The events that were put out are grouped in the state.
    spec fn wf(&self) -> bool {
        self.state.wf() && self.state@ == roots::grouped(self.out@)
    }

    fn new() -> (r: Self)
        ensures
            r.wf(),
            r@ == start_of_flow(),
    {
        let r = Converter {
            state: ParseState::new(),
            out: Ghost(Seq::empty()),
            within_link: false,
            within_code_block: false,
            within_metadata: false,
            within_table: false,
            within_html: false,
            metadata_start: None,
            metadata_range: None,
            language_names: Vec::new(),
            source_locations: Vec::new(),
            has_untagged_code_block: false,
            html_blocks: Vec::new(),
            metadata_blocks: BTreeMap::new(),
        };
        assert(r@.language_names =~= Seq::empty());
        assert(r@.source_locations =~= Seq::empty());
        assert(r@.html_blocks =~= Seq::empty());
        assert(r@.metadata_blocks =~= Map::empty());
        r
    }

    /// Puts out an event.
    fn emit(&mut self, range: Range<usize>, event: MarkdownEvent)
        requires
            old(self).wf(),
        ensures
            final(self).wf(),
            final(self)@ == emitted(old(self)@, range, event@),
    {
        proof {
            self.out@ = self.out@.push((range, event@));
        }
        self.state.push_event(range, event);
    }

    /// Puts out a list of events.
    fn emit_all(&mut self, events: Vec<RangedEvent>)
        requires
            old(self).wf(),
        ensures
            final(self).wf(),
            final(self)@ == (Flow { out: old(self)@.out + event::models(events@), ..old(self)@ }),
    {
        let ghost before = self@;
        let ghost all = event::models(events@);
        assert(before.out + all.take(0) =~= before.out);
        for e in iter: events
            invariant
                iter.seq() == events@,
                all == event::models(events@),
                self.wf(),
                self@ == (Flow { out: before.out + all.take(iter.index()), ..before }),
        {
            let (range, event) = e;
            proof {
                let i = iter.index();
                assert(all[i] == (range, event@));
                assert(before.out + all.take(i + 1) =~= (before.out + all.take(i)).push(all[i]));
            }
            self.emit(range, event);
        }
        assert(all.take(all.len() as int) =~= all);
    }

    /// Starts an element: see [`started`].
    fn start(
        &mut self,
        text: &str,
        options: &ConvertOptions,
        html: &Vec<usize>,
        tag: &SourceTag,
        range: Range<usize>,
    ) -> (ok: bool)
        requires
            old(self).wf(),
        ensures
            steps_to(
                ok,
                final(self)@,
                started(text.spec_bytes(), *options, html@, old(self)@, tag@, range),
            ),
            ok ==> final(self).wf(),
    {
        match tag {
            SourceTag::IndentedCode => {
                self.within_code_block = true;
                let metadata = CodeBlockMetadata {
                    content_range: range.start..range.end,
                    line_count: 1,
                    is_fenced_closed: false,
                };
                let tag = MarkdownTag::CodeBlock { kind: CodeBlockKind::Indented, metadata };
                self.emit(range, MarkdownEvent::Start(tag));
                true
            },
            SourceTag::FencedCode(info) => self.start_fenced_code(text, info.as_str(), range),
            SourceTag::Plain(tag) => {
                match tag {
                    MarkdownTag::HtmlBlock => {
                        if options.parse_html && !span::can_slice(text, range.start, range.end) {
                            return false;
                        }
                        self.emit(
                            range.start..range.end,
                            MarkdownEvent::Start(MarkdownTag::HtmlBlock),
                        );
                        if options.parse_html && has_offset(html, range.start) {
                            self.within_html = true;
                            if !has_offset(&self.html_blocks, range.start) {
                                self.html_blocks.push(range.start);
                            }
                        }
                        true
                    },
                    MarkdownTag::MetadataBlock(_) => {
                        self.within_metadata = true;
                        self.metadata_start = Some(range.start);
                        self.metadata_range = None;
                        if options.parse_metadata_blocks {
                            self.emit(range, MarkdownEvent::Start(tag.clone()));
                        }
                        true
                    },
                    _ => {
                        if let MarkdownTag::Link { .. } = tag {
                            self.within_link = true;
                        }
                        if let MarkdownTag::Table(_) = tag {
                            self.within_table = true;
                        }
                        self.emit(range, MarkdownEvent::Start(tag.clone()));
                        true
                    },
                }
            },
        }
    }

    /// Starts a fenced code block.
    fn start_fenced_code(&mut self, text: &str, info: &str, range: Range<usize>) -> (ok: bool)
        requires
            old(self).wf(),
        ensures
            forall|options: ConvertOptions, html: Seq<usize>|
                steps_to(
                    ok,
                    final(self)@,
                    #[trigger] started(
                        text.spec_bytes(),
                        options,
                        html,
                        old(self)@,
                        SourceTagModel::FencedCode(info@),
                        range,
                    ),
                ),
            ok ==> final(self).wf(),
    {
        if !span::can_slice(text, range.start, range.end) {
            return false;
        }
        self.within_code_block = true;
        let block = span::slice(text, range.start, range.end);
        let content = extract_code_block_content_range(block);
        let is_fenced_closed = content.end < block.as_bytes().len();
        let content_range = content.start + range.start..content.end + range.start;
        let line_count = count_byte_in(
            text.as_bytes(),
            10,
            content_range.start,
            content_range.end,
        );
        let metadata = CodeBlockMetadata { content_range, line_count, is_fenced_closed };
        let kind = fenced_code_kind(info);
        match &kind {
            CodeBlockKind::Fenced => {
                self.has_untagged_code_block = true;
            },
            CodeBlockKind::FencedLang(language) => {
                add_string(&mut self.language_names, language.clone());
            },
            CodeBlockKind::FencedSrc(location) => {
                add_string(&mut self.source_locations, location.clone());
            },
            _ => {},
        }
        self.emit(range, MarkdownEvent::Start(MarkdownTag::CodeBlock { kind, metadata }));
        true
    }

    /// Ends an element: see [`ended`].
    fn end(
        &mut self,
        text: &str,
        options: &ConvertOptions,
        tag: MarkdownTagEnd,
        range: Range<usize>,
    ) -> (ok: bool)
        requires
            old(self).wf(),
        ensures
            steps_to(
                ok,
                final(self)@,
                ended(text.spec_bytes(), *options, old(self)@, tag, range),
            ),
            ok ==> final(self).wf(),
    {
        match tag {
            MarkdownTagEnd::Link => {
                self.within_link = false;
            },
            MarkdownTagEnd::CodeBlock => {
                self.within_code_block = false;
            },
            MarkdownTagEnd::Table => {
                self.within_table = false;
            },
            MarkdownTagEnd::MetadataBlock(_) => {
                self.within_metadata = false;
                let block_start = self.metadata_start.take();
                let content_range = self.metadata_range.take();
                if !options.parse_metadata_blocks {
                    return true;
                }
                if let (Some(block_start), Some(content)) = (block_start, content_range) {
                    if !span::can_slice(text, content.start, content.end) {
                        return false;
                    }
                    self.add_metadata_block(text, block_start, content);
                }
            },
            _ => {},
        }
        self.emit(range, MarkdownEvent::End(tag));
        true
    }

    /// Adds a metadata block with its content.
    fn add_metadata_block(&mut self, text: &str, start: usize, content: Range<usize>)
        requires
            old(self).wf(),
            span::is_slice(text.spec_bytes(), content.start as int, content.end as int),
        ensures
            final(self).wf(),
            final(self)@ == (Flow {
                metadata_blocks: old(self)@.metadata_blocks.insert(
                    start,
                    metadata_block(text.spec_bytes(), content),
                ),
                ..old(self)@
            }),
    {
        let rows = parse_metadata_table_rows(text, content.start..content.end);
        let block = ParsedMetadataBlock { content_range: content, rows };
        assert(metadata_models(self.metadata_blocks@.insert(start, block)) =~= metadata_models(
            self.metadata_blocks@,
        ).insert(start, block@));
        self.metadata_blocks.insert(start, block);
    }

    /// Puts out an event if there is one.
    fn emit_optional(&mut self, event: Option<RangedEvent>) -> (ok: bool)
        requires
            old(self).wf(),
        ensures
            ok == event is Some,
            final(self).wf(),
            event matches Some(e) ==> final(self)@ == emitted(old(self)@, e.0, e.1@),
    {
        match event {
            Some((range, event)) => {
                self.emit(range, event);
                true
            },
            None => false,
        }
    }

    /// Converts the event at `i`: see [`step`]. Returns the index of the next event.
    fn step(
        &mut self,
        text: &str,
        events: &Vec<RangedSource>,
        options: &ConvertOptions,
        html: &Vec<usize>,
        i: usize,
    ) -> (r: Option<usize>)
        requires
            old(self).wf(),
            i < events@.len(),
        ensures
            match step(
                text.spec_bytes(),
                cmark::source_models(events@),
                *options,
                html@,
                i as int,
                old(self)@,
            ) {
                Some((f, next)) => r == Some(next as usize) && i < next <= events@.len()
                    && final(self)@ == f && final(self).wf(),
                None => r is None,
            },
    {
        let ghost models = cmark::source_models(events@);
        let (event, source) = &events[i];
        assert(i < events.len());
        assert(models[i as int] == (event@, *source));
        let range = source.start..source.end;
        if self.within_html {
            if let SourceEvent::End(MarkdownTagEnd::HtmlBlock) = event {
                self.within_html = false;
                self.emit(range, MarkdownEvent::End(MarkdownTagEnd::HtmlBlock));
            }
            return Some(i + 1);
        }
        if self.within_metadata && !options.parse_metadata_blocks {
            if let SourceEvent::End(MarkdownTagEnd::MetadataBlock(_)) = event {
                self.within_metadata = false;
                self.metadata_start = None;
                self.metadata_range = None;
            }
            return Some(i + 1);
        }
        let ok = match event {
            SourceEvent::Start(tag) => self.start(text, options, html, tag, range),
            SourceEvent::End(tag) => self.end(text, options, *tag, range),
            SourceEvent::Text(parsed) => {
                if self.within_metadata {
                    self.extend_metadata(&range);
                    self.emit(range, MarkdownEvent::Text);
                    true
                } else if self.within_code_block {
                    self.emit_optional(autolink::event_for(text, range, parsed.as_str()))
                } else {
                    return self.text_run(text, events, options, i);
                }
            },
            SourceEvent::Code(code) => self.emit_optional(
                code_event_for(text, range, code, self.within_table),
            ),
            SourceEvent::Html => {
                self.emit(range, MarkdownEvent::Html);
                true
            },
            SourceEvent::InlineHtml(html) => {
                if options.parse_html && is_br_tag(html.as_str()) {
                    self.emit(range, MarkdownEvent::HardBreak);
                } else {
                    self.emit(range, MarkdownEvent::InlineHtml);
                }
                true
            },
            SourceEvent::FootnoteReference(label) => {
                self.emit(range, MarkdownEvent::FootnoteReference(label.clone()));
                true
            },
            SourceEvent::SoftBreak => {
                self.emit(range, MarkdownEvent::SoftBreak);
                true
            },
            SourceEvent::HardBreak => {
                self.emit(range, MarkdownEvent::HardBreak);
                true
            },
            SourceEvent::Rule => {
                self.emit(range, MarkdownEvent::Rule);
                true
            },
            SourceEvent::TaskListMarker(checked) => {
                self.emit(range, MarkdownEvent::TaskListMarker(*checked));
                true
            },
            SourceEvent::Math => true,
        };
        if ok {
            Some(i + 1)
        } else {
            None
        }
    }

    /// Extends the range of the content of the metadata block.
    fn extend_metadata(&mut self, range: &Range<usize>)
        requires
            old(self).wf(),
        ensures
            final(self).wf(),
            final(self)@ == (Flow {
                metadata_range: Some(extended(old(self)@.metadata_range, *range)),
                ..old(self)@
            }),
    {
        let content = match &self.metadata_range {
            Some(content) => {
                let start = if content.start < range.start {
                    content.start
                } else {
                    range.start
                };
                let end = if content.end > range.end {
                    content.end
                } else {
                    range.end
                };
                start..end
            },
            None => range.start..range.end,
        };
        self.metadata_range = Some(content);
    }

    /// Converts the run of text that starts at `i`.
    fn text_run(
        &mut self,
        text: &str,
        events: &Vec<RangedSource>,
        options: &ConvertOptions,
        i: usize,
    ) -> (r: Option<usize>)
        requires
            old(self).wf(),
            i < events@.len(),
            events@[i as int].0 is Text,
        ensures
            ({
                let models = cmark::source_models(events@);
                let end = text_run_end(models, i + 1, options.parse_html);
                match autolink::text_run_events(
                    text.spec_bytes(),
                    text_pieces(models, i as int, end),
                    old(self)@.within_link,
                ) {
                    Some(run) => r == Some(end as usize) && i < end <= events@.len()
                        && final(self).wf() && final(self)@ == (Flow {
                        out: old(self)@.out + run,
                        ..old(self)@
                    }),
                    None => r is None,
                }
            }),
    {
        let ghost models = cmark::source_models(events@);
        let ghost parse_html = options.parse_html;
        let mut pieces: Vec<TextPiece> = Vec::new();
        let mut j: usize = i;
        proof {
            assert(autolink::piece_models(pieces@) =~= text_pieces(models, i as int, i as int));
            lemma_text_run_end(models, i + 1, parse_html);
        }
        while j < events.len() && (j == i || goes_on(&events[j].0, options.parse_html))
            invariant
                i <= j <= events@.len(),
                i < events@.len(),
                events@[i as int].0 is Text,
                models == cmark::source_models(events@),
                parse_html == options.parse_html,
                j > i ==> text_run_end(models, j as int, parse_html) == text_run_end(
                    models,
                    i + 1,
                    parse_html,
                ),
                autolink::piece_models(pieces@) == text_pieces(models, i as int, j as int),
            decreases events@.len() - j,
        {
            let (event, source) = &events[j];
            let parsed = match event {
                SourceEvent::Text(parsed) => parsed.clone(),
                _ => String::new(),
            };
            let piece = TextPiece { source: source.start..source.end, parsed };
            proof {
                assert(models[j as int] == (event@, *source));
                lemma_encode_empty();
                assert(piece@ == text_piece(models[j as int]));
                assert(text_pieces(models, i as int, j + 1) =~= text_pieces(
                    models,
                    i as int,
                    j as int,
                ).push(piece@));
                assert(autolink::piece_models(pieces@.push(piece)) =~= autolink::piece_models(
                    pieces@,
                ).push(piece@));
            }
            pieces.push(piece);
            j += 1;
        }
        assert(j == text_run_end(models, i + 1, parse_html));
        match autolink::text_run(text, pieces, self.within_link) {
            Some(run) => {
                self.emit_all(run);
                Some(j)
            },
            None => None,
        }
    }
}

proof fn lemma_encode_empty()
    ensures
        encode_utf8(Seq::<char>::empty()) == Seq::<u8>::empty(),
{
    reveal_with_fuel(encode_utf8, 1);
}

/// Tests whether an event goes on with a run of text.
fn goes_on(event: &SourceEvent, parse_html: bool) -> (r: bool)
    ensures
        r == continues_text(event@, parse_html),
{
    match event {
        SourceEvent::Text(_) => true,
        SourceEvent::InlineHtml(html) => parse_html && !is_br_tag(html.as_str()),
        _ => false,
    }
}

/// The event for inline code: see [`code_event`].
fn code_event_for(text: &str, range: Range<usize>, code: &String, within_table: bool) -> (r: Option<
    RangedEvent,
>)
    ensures
        match code_event(text.spec_bytes(), range, code@, within_table) {
            Some(event) => r is Some && event::ranged_model(r->0) == event,
            None => r is None,
        },
{
    if !span::can_slice(text, range.start, range.end) {
        return None;
    }
    let content = extract_code_content_range(span::slice(text, range.start, range.end));
    let content = range.start + content.start..range.start + content.end;
    if within_table && has_escaped_pipe(text.as_bytes(), content.start, content.end) {
        Some((content, MarkdownEvent::SubstitutedCode(code.clone())))
    } else {
        Some((content, MarkdownEvent::Code))
    }
}

/// What a conversion gives. See [`Flow`] for what the fields are.
pub struct Conversion {
    pub events: Vec<RangedEvent>,
    pub root_block_starts: Vec<usize>,
    pub language_names: Vec<String>,
    pub source_locations: Vec<String>,
    pub has_untagged_code_block: bool,
    pub html_blocks: Vec<usize>,
    pub metadata_blocks: BTreeMap<usize, ParsedMetadataBlock>,
}

impl Conversion {
    /// The conversion gives what the flow holds, with its events in root-level blocks.
    pub open spec fn gives(&self, f: Flow) -> bool {
        &&& event::models(self.events@) == roots::grouped(f.out).events
        &&& self.root_block_starts@ == roots::grouped(f.out).starts
        &&& string_models(self.language_names@) == f.language_names
        &&& string_models(self.source_locations@) == f.source_locations
        &&& self.has_untagged_code_block == f.has_untagged_code_block
        &&& self.html_blocks@ == f.html_blocks
        &&& metadata_models(self.metadata_blocks@) == f.metadata_blocks
    }
}

/// Runs a conversion to its end.
fn run(
    text: &str,
    events: &Vec<RangedSource>,
    options: &ConvertOptions,
    html: &Vec<usize>,
) -> (r: Option<Converter>)
    ensures
        match converted(
            text.spec_bytes(),
            cmark::source_models(events@),
            *options,
            html@,
            0,
            start_of_flow(),
        ) {
            Some(f) => r is Some && r->0.wf() && r->0@ == f,
            None => r is None,
        },
{
    let ghost b = text.spec_bytes();
    let ghost models = cmark::source_models(events@);
    let ghost whole = converted(b, models, *options, html@, 0, start_of_flow());
    let mut converter = Converter::new();
    let mut i: usize = 0;
    while i < events.len()
        invariant
            i <= events@.len(),
            b == text.spec_bytes(),
            models == cmark::source_models(events@),
            whole == converted(b, models, *options, html@, 0, start_of_flow()),
            converter.wf(),
            whole == converted(b, models, *options, html@, i as int, converter@),
        decreases events@.len() - i,
    {
        match converter.step(text, events, options, html, i) {
            Some(next) => {
                i = next;
            },
            None => {
                return None;
            },
        }
    }
    Some(converter)
}

/// Converts the parser's events on a text: see [`converted`]. `None` if an event has no place
/// in the text.
pub fn convert(
    text: &str,
    events: &Vec<RangedSource>,
    options: &ConvertOptions,
    html: &Vec<usize>,
) -> (r: Option<Conversion>)
    ensures
        match converted(
            text.spec_bytes(),
            cmark::source_models(events@),
            *options,
            html@,
            0,
            start_of_flow(),
        ) {
            Some(f) => r is Some && r->0.gives(f),
            None => r is None,
        },
{
    match run(text, events, options, html) {
        Some(converter) => {
            let (events, root_block_starts) = converter.state.into_parts();
            Some(
                Conversion {
                    events,
                    root_block_starts,
                    language_names: converter.language_names,
                    source_locations: converter.source_locations,
                    has_untagged_code_block: converter.has_untagged_code_block,
                    html_blocks: converter.html_blocks,
                    metadata_blocks: converter.metadata_blocks,
                },
            )
        },
        None => None,
    }
}

/// Text inside a code block is put out as it is: as one event of text, without links.
pub proof fn law_code_blocks_are_not_linked(
    b: Seq<u8>,
    events: Seq<RangedSourceModel>,
    options: ConvertOptions,
    html: Seq<usize>,
    i: int,
    f: Flow,
)
    requires
        0 <= i < events.len(),
        f.within_code_block,
        !f.within_html,
        !f.within_metadata,
        events[i].0 is Text,
        step(b, events, options, html, i, f) is Some,
    ensures
        ({
            let (g, next) = step(b, events, options, html, i, f)->0;
            let event = g.out.last().1;
            &&& next == i + 1
            &&& g == emitted(f, events[i].1, event)
            &&& event is Text || event is SubstitutedText
        }),
{
}

/// A code block lasts from its start to its end, whatever stands between.
pub proof fn law_code_blocks_last(
    b: Seq<u8>,
    events: Seq<RangedSourceModel>,
    options: ConvertOptions,
    html: Seq<usize>,
    i: int,
    f: Flow,
)
    requires
        0 <= i < events.len(),
        f.within_code_block,
        events[i].0 != SourceModel::End(MarkdownTagEnd::CodeBlock),
        step(b, events, options, html, i, f) is Some,
    ensures
        (step(b, events, options, html, i, f)->0).0.within_code_block,
{
}

/// Text inside a metadata block that is of interest is put out verbatim, whatever the parser made
/// of it.
pub proof fn law_metadata_text_is_verbatim(
    b: Seq<u8>,
    events: Seq<RangedSourceModel>,
    options: ConvertOptions,
    html: Seq<usize>,
    i: int,
    f: Flow,
)
    requires
        0 <= i < events.len(),
        f.within_metadata,
        options.parse_metadata_blocks,
        !f.within_html,
        events[i].0 is Text,
    ensures
        step(b, events, options, html, i, f) matches Some((g, next)) && next == i + 1 && g.out
            == f.out.push((events[i].1, EventModel::Text)),
{
}

/// The event starts or ends a metadata block.
pub open spec fn is_metadata_event(event: EventModel) -> bool {
    match event {
        EventModel::Start(tag) => tag is MetadataBlock,
        EventModel::End(tag) => tag is MetadataBlock,
        _ => false,
    }
}

/// No metadata block has been put out or stored.
pub open spec fn has_no_metadata(f: Flow) -> bool {
    &&& f.metadata_blocks == Map::<usize, MetadataModel>::empty()
    &&& forall|i: int| 0 <= i < f.out.len() ==> !is_metadata_event((#[trigger] f.out[i]).1)
}

proof fn lemma_step_omits_metadata(
    b: Seq<u8>,
    events: Seq<RangedSourceModel>,
    options: ConvertOptions,
    html: Seq<usize>,
    i: int,
    f: Flow,
)
    requires
        0 <= i < events.len(),
        !options.parse_metadata_blocks,
        has_no_metadata(f),
        step(b, events, options, html, i, f) is Some,
    ensures
        has_no_metadata((step(b, events, options, html, i, f)->0).0),
{
    if events[i].0 is Text && !f.within_html && !f.within_metadata && !f.within_code_block {
        let end = text_run_end(events, i + 1, options.parse_html);
        let pieces = text_pieces(events, i, end);
        let text = autolink::merged(pieces);
        let links = if f.within_link {
            Seq::empty()
        } else {
            autolink::url_ranges(decode_utf8(text))
        };
        autolink::law_runs_give_text_and_links(b, pieces, 0, text, links);
        let run = autolink::linked(b, pieces, 0, text, links)->0;
        assert forall|k: int| 0 <= k < run.len() implies !is_metadata_event(
            (#[trigger] run[k]).1,
        ) by {
            assert(autolink::is_run_event(run[k].1));
        }
    }
}

/// A conversion that is not asked for metadata blocks leaves them out.
pub proof fn lemma_metadata_blocks_are_omitted(
    b: Seq<u8>,
    events: Seq<RangedSourceModel>,
    options: ConvertOptions,
    html: Seq<usize>,
    i: int,
    f: Flow,
)
    requires
        0 <= i <= events.len(),
        !options.parse_metadata_blocks,
        has_no_metadata(f),
        converted(b, events, options, html, i, f) is Some,
    ensures
        has_no_metadata(converted(b, events, options, html, i, f)->0),
    decreases events.len() - i,
{
    if i < events.len() {
        lemma_text_run_end(events, i + 1, options.parse_html);
        lemma_step_omits_metadata(b, events, options, html, i, f);
        let (g, next) = step(b, events, options, html, i, f)->0;
        lemma_metadata_blocks_are_omitted(b, events, options, html, next, g);
    }
}

/// Languages, source locations and HTML blocks are listed once each.
pub open spec fn lists_once(f: Flow) -> bool {
    f.language_names.no_duplicates() && f.source_locations.no_duplicates()
        && f.html_blocks.no_duplicates()
}

/// A conversion lists each language, each source location and each HTML block once.
pub proof fn lemma_lists_have_no_duplicates(
    b: Seq<u8>,
    events: Seq<RangedSourceModel>,
    options: ConvertOptions,
    html: Seq<usize>,
    i: int,
    f: Flow,
)
    requires
        0 <= i <= events.len(),
        lists_once(f),
        converted(b, events, options, html, i, f) is Some,
    ensures
        lists_once(converted(b, events, options, html, i, f)->0),
    decreases events.len() - i,
{
    if i < events.len() {
        lemma_text_run_end(events, i + 1, options.parse_html);
        let (g, next) = step(b, events, options, html, i, f)->0;
        lemma_lists_have_no_duplicates(b, events, options, html, next, g);
    }
}

proof fn lemma_step_is_unmarked(
    b: Seq<u8>,
    events: Seq<RangedSourceModel>,
    options: ConvertOptions,
    html: Seq<usize>,
    i: int,
    f: Flow,
)
    requires
        0 <= i < events.len(),
        roots::unmarked(f.out),
        step(b, events, options, html, i, f) is Some,
    ensures
        roots::unmarked((step(b, events, options, html, i, f)->0).0.out),
{
    if events[i].0 is Text && !f.within_html && !f.within_metadata && !f.within_code_block {
        let end = text_run_end(events, i + 1, options.parse_html);
        let pieces = text_pieces(events, i, end);
        let text = autolink::merged(pieces);
        let links = if f.within_link {
            Seq::empty()
        } else {
            autolink::url_ranges(decode_utf8(text))
        };
        autolink::law_runs_give_text_and_links(b, pieces, 0, text, links);
        let run = autolink::linked(b, pieces, 0, text, links)->0;
        assert forall|k: int| 0 <= k < run.len() implies !roots::is_root_marker(
            (#[trigger] run[k]).1,
        ) by {
            assert(autolink::is_run_event(run[k].1));
        }
    }
}

/// A conversion puts out no marks of root-level blocks of its own.
pub proof fn lemma_conversion_is_unmarked(
    b: Seq<u8>,
    events: Seq<RangedSourceModel>,
    options: ConvertOptions,
    html: Seq<usize>,
    i: int,
    f: Flow,
)
    requires
        0 <= i <= events.len(),
        roots::unmarked(f.out),
        converted(b, events, options, html, i, f) is Some,
    ensures
        roots::unmarked((converted(b, events, options, html, i, f)->0).out),
    decreases events.len() - i,
{
    if i < events.len() {
        lemma_text_run_end(events, i + 1, options.parse_html);
        lemma_step_is_unmarked(b, events, options, html, i, f);
        let (g, next) = step(b, events, options, html, i, f)->0;
        lemma_conversion_is_unmarked(b, events, options, html, next, g);
    }
}

/// Nothing inside an HTML block that was taken over as a whole is put out but its end.
pub proof fn law_html_blocks_are_left_out(
    b: Seq<u8>,
    events: Seq<RangedSourceModel>,
    options: ConvertOptions,
    html: Seq<usize>,
    i: int,
    f: Flow,
)
    requires
        0 <= i < events.len(),
        f.within_html,
    ensures
        ({
            let end = EventModel::End(MarkdownTagEnd::HtmlBlock);
            if events[i].0 == SourceModel::End(MarkdownTagEnd::HtmlBlock) {
                step(b, events, options, html, i, f) == Some(
                    (emitted(Flow { within_html: false, ..f }, events[i].1, end), i + 1),
                )
            } else {
                step(b, events, options, html, i, f) == Some((f, i + 1))
            }
        }),
{
}

/// An inline `<br>` ends a run of text and breaks the line, if HTML is of interest; other inline
/// HTML, and all of it if HTML is of no interest, never breaks the line.
pub proof fn law_br_breaks_the_line(
    b: Seq<u8>,
    events: Seq<RangedSourceModel>,
    options: ConvertOptions,
    html: Seq<usize>,
    i: int,
    f: Flow,
    tag: Seq<char>,
)
    requires
        0 <= i < events.len(),
        !f.within_html,
        !f.within_metadata,
        events[i].0 == SourceModel::InlineHtml(tag),
    ensures
        options.parse_html && scan::br_tag(encode_utf8(tag)) ==> text_run_end(
            events,
            i,
            options.parse_html,
        ) == i,
        step(b, events, options, html, i, f) == Some(
            (
                emitted(
                    f,
                    events[i].1,
                    if options.parse_html && scan::br_tag(encode_utf8(tag)) {
                        EventModel::HardBreak
                    } else {
                        EventModel::InlineHtml
                    },
                ),
                i + 1,
            ),
        ),
{
}

/// Inline code reads as in the source, unless it stands in a table and a pipe in it is escaped.
pub proof fn law_only_pipes_in_tables_are_decoded(
    b: Seq<u8>,
    range: Range<usize>,
    code: Seq<char>,
    within_table: bool,
)
    requires
        code_event(b, range, code, within_table) is Some,
    ensures
        ({
            let (content, event) = code_event(b, range, code, within_table)->0;
            event == (if within_table && holds_escaped_pipe(
                b,
                content.start as int,
                content.end as int,
            ) {
                EventModel::SubstitutedCode(code)
            } else {
                EventModel::Code
            })
        }),
{
    scan::lemma_code_content(b.subrange(range.start as int, range.end as int));
}

proof fn lemma_code_event_shows_slice(
    b: Seq<u8>,
    range: Range<usize>,
    code: Seq<char>,
    within_table: bool,
)
    requires
        valid_utf8(b),
        code_event(b, range, code, within_table) is Some,
    ensures
        span::is_slice(
            b,
            (code_event(b, range, code, within_table)->0).0.start as int,
            (code_event(b, range, code, within_table)->0).0.end as int,
        ),
{
    let from = range.start as int;
    let to = range.end as int;
    let source = b.subrange(from, to);
    span::lemma_slice_valid(b, from, to);
    span::lemma_run_end_boundary(source, 0x60, 0, source.len() as int);
    span::lemma_run_start_boundary(source, 0x60, 0, source.len() as int);
    let (start, end) = scan::code_content(source);
    scan::lemma_code_content(source);
    span::lemma_boundary_within(b, from, to, start);
    span::lemma_boundary_within(b, from, to, end);
}

proof fn lemma_step_shows_slices(
    b: Seq<u8>,
    events: Seq<RangedSourceModel>,
    options: ConvertOptions,
    html: Seq<usize>,
    i: int,
    f: Flow,
)
    requires
        valid_utf8(b),
        0 <= i < events.len(),
        !options.parse_metadata_blocks,
        autolink::show_slices(b, f.out),
        step(b, events, options, html, i, f) is Some,
    ensures
        autolink::show_slices(b, (step(b, events, options, html, i, f)->0).0.out),
{
    match events[i].0 {
        SourceModel::Code(code) => {
            if code_event(b, events[i].1, code, f.within_table) is Some {
                lemma_code_event_shows_slice(b, events[i].1, code, f.within_table);
            }
        },
        SourceModel::Text(_) => {
            if !f.within_html && !f.within_metadata && !f.within_code_block {
                let end = text_run_end(events, i + 1, options.parse_html);
                let pieces = text_pieces(events, i, end);
                let text = autolink::merged(pieces);
                let links = if f.within_link {
                    Seq::empty()
                } else {
                    autolink::url_ranges(decode_utf8(text))
                };
                autolink::law_runs_show_slices(b, pieces, 0, text, links);
            }
        },
        _ => {},
    }
}

/// What the events show of the source are slices of it, if metadata blocks are left out.
pub proof fn lemma_events_show_slices(
    b: Seq<u8>,
    events: Seq<RangedSourceModel>,
    options: ConvertOptions,
    html: Seq<usize>,
    i: int,
    f: Flow,
)
    requires
        valid_utf8(b),
        0 <= i <= events.len(),
        !options.parse_metadata_blocks,
        autolink::show_slices(b, f.out),
        converted(b, events, options, html, i, f) is Some,
    ensures
        autolink::show_slices(b, (converted(b, events, options, html, i, f)->0).out),
    decreases events.len() - i,
{
    if i < events.len() {
        lemma_text_run_end(events, i + 1, options.parse_html);
        lemma_step_shows_slices(b, events, options, html, i, f);
        let (g, next) = step(b, events, options, html, i, f)->0;
        lemma_events_show_slices(b, events, options, html, next, g);
    }
}

/// The blocks whose text is shown as it is written.
pub enum Verbatim {
    Code,
    Metadata,
}

/// The event starts a block of this kind.
pub open spec fn starts(kind: Verbatim, event: EventModel) -> bool {
    match (kind, event) {
        (Verbatim::Code, EventModel::Start(tag)) => tag is CodeBlock,
        (Verbatim::Metadata, EventModel::Start(tag)) => tag is MetadataBlock,
        _ => false,
    }
}

/// The event ends a block of this kind.
pub open spec fn ends(kind: Verbatim, event: EventModel) -> bool {
    match (kind, event) {
        (Verbatim::Code, EventModel::End(tag)) => tag is CodeBlock,
        (Verbatim::Metadata, EventModel::End(tag)) => tag is MetadataBlock,
        _ => false,
    }
}

/// The event of the parser starts a block of this kind.
pub open spec fn source_starts(kind: Verbatim, event: SourceModel) -> bool {
    match (kind, event) {
        (Verbatim::Code, SourceModel::Start(tag)) => tag is IndentedCode || tag is FencedCode,
        (Verbatim::Metadata, SourceModel::Start(SourceTagModel::Plain(tag))) => tag
            is MetadataBlock,
        _ => false,
    }
}

/// The event of the parser ends a block of this kind.
pub open spec fn source_ends(kind: Verbatim, event: SourceModel) -> bool {
    match (kind, event) {
        (Verbatim::Code, SourceModel::End(tag)) => tag is CodeBlock,
        (Verbatim::Metadata, SourceModel::End(tag)) => tag is MetadataBlock,
        _ => false,
    }
}

/// The parser is inside a block of this kind before its event at `i`.
pub open spec fn source_in(kind: Verbatim, events: Seq<RangedSourceModel>, i: int) -> bool
    decreases i,
{
    if i <= 0 {
        false
    } else if source_starts(kind, events[i - 1].0) {
        true
    } else if source_ends(kind, events[i - 1].0) {
        false
    } else {
        source_in(kind, events, i - 1)
    }
}

/// The parser puts nothing but text into blocks of this kind.
pub open spec fn holds_text(kind: Verbatim, events: Seq<RangedSourceModel>) -> bool {
    &&& cmark::has_parser_code_tags(events)
    &&& forall|i: int|
        #![trigger events[i]]
        0 <= i < events.len() && source_in(kind, events, i) ==> events[i].0 is Text || source_ends(
            kind,
            events[i].0,
        )
}

/// The events are inside a block of this kind behind the first `n` of them.
pub open spec fn in_block(kind: Verbatim, out: Seq<RangedModel>, n: int) -> bool
    decreases n,
{
    if n <= 0 {
        false
    } else if starts(kind, out[n - 1].1) {
        true
    } else if ends(kind, out[n - 1].1) {
        false
    } else {
        in_block(kind, out, n - 1)
    }
}

/// The event starts or ends a link.
pub open spec fn is_link_event(event: EventModel) -> bool {
    match event {
        EventModel::Start(tag) => tag is Link,
        EventModel::End(tag) => tag is Link,
        _ => false,
    }
}

/// No link starts or ends inside a block of this kind.
pub open spec fn no_links_in(kind: Verbatim, out: Seq<RangedModel>) -> bool {
    forall|n: int|
        0 <= n < out.len() && #[trigger] in_block(kind, out, n) ==> !is_link_event(out[n].1)
}

/// A conversion knows when it is inside a block of this kind, and has put out no link inside of
/// one.
pub open spec fn keeps_links_out(
    kind: Verbatim,
    events: Seq<RangedSourceModel>,
    options: ConvertOptions,
    i: int,
    f: Flow,
) -> bool {
    let within = match kind {
        Verbatim::Code => f.within_code_block,
        Verbatim::Metadata => f.within_metadata && options.parse_metadata_blocks,
    };
    &&& in_block(kind, f.out, f.out.len() as int) == within
    &&& no_links_in(kind, f.out)
    &&& within ==> source_in(kind, events, i) && !f.within_html
    &&& within && f.within_metadata ==> options.parse_metadata_blocks
}

/// Events behind the first `n` do not matter to whether those end inside a block of this kind.
pub proof fn lemma_in_block_prefix(
    kind: Verbatim,
    out: Seq<RangedModel>,
    more: Seq<RangedModel>,
    n: int,
)
    requires
        n <= out.len(),
    ensures
        in_block(kind, out + more, n) == in_block(kind, out, n),
    decreases n,
{
    if n > 0 {
        lemma_in_block_prefix(kind, out, more, n - 1);
        assert((out + more)[n - 1] == out[n - 1]);
    }
}

/// Whether the events are inside a block of this kind behind one more of them.
pub proof fn lemma_in_block_push(kind: Verbatim, out: Seq<RangedModel>, e: RangedModel)
    requires
        no_links_in(kind, out),
        in_block(kind, out, out.len() as int) ==> !is_link_event(e.1),
    ensures
        in_block(kind, out.push(e), out.push(e).len() as int) == (if starts(kind, e.1) {
            true
        } else if ends(kind, e.1) {
            false
        } else {
            in_block(kind, out, out.len() as int)
        }),
        no_links_in(kind, out.push(e)),
{
    assert(out + seq![e] =~= out.push(e));
    assert forall|n: int| 0 <= n <= out.len() implies #[trigger] in_block(kind, out.push(e), n)
        == in_block(kind, out, n) by {
        lemma_in_block_prefix(kind, out, seq![e], n);
    }
    assert(in_block(kind, out.push(e), out.len() as int) == in_block(
        kind,
        out,
        out.len() as int,
    ));
    assert forall|n: int|
        0 <= n < out.push(e).len() && #[trigger] in_block(
            kind,
            out.push(e),
            n,
        ) implies !is_link_event(out.push(e)[n].1) by {
        assert(in_block(kind, out, n));
    }
}

proof fn lemma_in_block_run(kind: Verbatim, out: Seq<RangedModel>, run: Seq<RangedModel>)
    requires
        no_links_in(kind, out),
        !in_block(kind, out, out.len() as int),
        autolink::are_run_events(run),
    ensures
        !in_block(kind, out + run, (out + run).len() as int),
        no_links_in(kind, out + run),
    decreases run.len(),
{
    if run.len() > 0 {
        let init = run.drop_last();
        assert(autolink::are_run_events(init)) by {
            assert forall|i: int| 0 <= i < init.len() implies autolink::is_run_event(
                (#[trigger] init[i]).1,
            ) by {
                assert(init[i] == run[i]);
            }
        }
        lemma_in_block_run(kind, out, init);
        assert(autolink::is_run_event(run[run.len() - 1].1));
        lemma_in_block_push(kind, out + init, run.last());
        assert((out + init).push(run.last()) =~= out + run);
    } else {
        assert(out + run =~= out);
    }
}

proof fn lemma_step_keeps_links_out(
    kind: Verbatim,
    b: Seq<u8>,
    events: Seq<RangedSourceModel>,
    options: ConvertOptions,
    html: Seq<usize>,
    i: int,
    f: Flow,
)
    requires
        0 <= i < events.len(),
        holds_text(kind, events),
        keeps_links_out(kind, events, options, i, f),
        step(b, events, options, html, i, f) is Some,
    ensures
        ({
            let (g, next) = step(b, events, options, html, i, f)->0;
            keeps_links_out(kind, events, options, next, g)
        }),
{
    let (g, next) = step(b, events, options, html, i, f)->0;
    assert(source_in(kind, events, i) ==> events[i].0 is Text || source_ends(kind, events[i].0));
    if g.out.len() == f.out.len() + 1 {
        let e = g.out.last();
        if g.out =~= f.out.push(e) {
            lemma_in_block_push(kind, f.out, e);
        }
    }
    if events[i].0 is Text && !f.within_html && !f.within_metadata && !f.within_code_block {
        let end = text_run_end(events, i + 1, options.parse_html);
        let pieces = text_pieces(events, i, end);
        let text = autolink::merged(pieces);
        let links = if f.within_link {
            Seq::empty()
        } else {
            autolink::url_ranges(decode_utf8(text))
        };
        autolink::law_runs_give_text_and_links(b, pieces, 0, text, links);
        lemma_in_block_run(kind, f.out, autolink::linked(b, pieces, 0, text, links)->0);
    }
}

/// Where the parser puts nothing but text into the blocks of a kind, a conversion puts no links
/// into them.
pub proof fn lemma_blocks_hold_no_links(
    kind: Verbatim,
    b: Seq<u8>,
    events: Seq<RangedSourceModel>,
    options: ConvertOptions,
    html: Seq<usize>,
    i: int,
    f: Flow,
)
    requires
        0 <= i <= events.len(),
        holds_text(kind, events),
        keeps_links_out(kind, events, options, i, f),
        converted(b, events, options, html, i, f) is Some,
    ensures
        no_links_in(kind, (converted(b, events, options, html, i, f)->0).out),
    decreases events.len() - i,
{
    if i < events.len() {
        lemma_text_run_end(events, i + 1, options.parse_html);
        lemma_step_keeps_links_out(kind, b, events, options, html, i, f);
        let (g, next) = step(b, events, options, html, i, f)->0;
        lemma_blocks_hold_no_links(kind, b, events, options, html, next, g);
    }
}

/// A conversion for which HTML is of no interest takes over no HTML block.
pub proof fn lemma_html_blocks_are_kept(
    b: Seq<u8>,
    events: Seq<RangedSourceModel>,
    options: ConvertOptions,
    html: Seq<usize>,
    i: int,
    f: Flow,
)
    requires
        0 <= i <= events.len(),
        !options.parse_html,
        converted(b, events, options, html, i, f) is Some,
    ensures
        (converted(b, events, options, html, i, f)->0).html_blocks == f.html_blocks,
    decreases events.len() - i,
{
    if i < events.len() {
        lemma_text_run_end(events, i + 1, options.parse_html);
        let (g, next) = step(b, events, options, html, i, f)->0;
        lemma_html_blocks_are_kept(b, events, options, html, next, g);
    }
}

/// The values of a list, each once, in the order in which they come.
pub open spec fn distinct<T>(s: Seq<T>) -> Seq<T>
    decreases s.len(),
{
    if s.len() == 0 {
        Seq::empty()
    } else {
        added(distinct(s.drop_last()), s.last())
    }
}

/// The paths of the source locations of a document, each once: the languages of code blocks can
/// be told by them. `paths` are the paths of the locations.
pub fn distinct_paths(paths: &Vec<String>) -> (r: Vec<String>)
    ensures
        string_models(r@) == distinct(string_models(paths@)),
        string_models(r@).no_duplicates(),
        string_models(r@).to_set() == string_models(paths@).to_set(),
{
    let ghost all = string_models(paths@);
    let mut r: Vec<String> = Vec::new();
    assert(string_models(r@) =~= Seq::empty());
    assert(all.take(0).len() == 0);
    for i in 0..paths.len()
        invariant
            all == string_models(paths@),
            string_models(r@) == distinct(all.take(i as int)),
    {
        assert(all.take(i + 1).drop_last() =~= all.take(i as int));
        add_string(&mut r, paths[i].clone());
    }
    proof {
        assert(all.take(all.len() as int) =~= all);
        lemma_distinct(all);
    }
    r
}

/// A list of distinct values has no duplicates and holds the values of the list.
pub proof fn lemma_distinct<T>(s: Seq<T>)
    ensures
        distinct(s).no_duplicates(),
        distinct(s).to_set() == s.to_set(),
    decreases s.len(),
{
    if s.len() == 0 {
        assert(distinct(s).to_set() =~= s.to_set());
    } else {
        let init = s.drop_last();
        lemma_distinct(init);
        assert forall|x: T| distinct(s).contains(x) <==> s.contains(x) by {
            assert(distinct(init).to_set().contains(x) == init.to_set().contains(x));
            assert(distinct(init).contains(x) == init.contains(x));
            assert(init.push(s.last()) =~= s);
            if init.contains(x) {
                let k = choose|k: int| 0 <= k < init.len() && init[k] == x;
                assert(s[k] == x);
            }
            if s.contains(x) && x != s.last() {
                let k = choose|k: int| 0 <= k < s.len() && s[k] == x;
                assert(init[k] == x);
            }
            let before = distinct(init);
            let after = before.push(s.last());
            if before.contains(x) {
                let k = choose|k: int| 0 <= k < before.len() && before[k] == x;
                assert(after[k] == x);
            }
            assert(after[before.len() as int] == s.last());
            if after.contains(x) && x != s.last() {
                let k = choose|k: int| 0 <= k < after.len() && after[k] == x;
                assert(before[k] == x);
            }
            assert(s[s.len() - 1] == s.last());
        }
        assert(distinct(s).to_set() =~= s.to_set());
    }
}

/// The event starts a code block that is written in this way.
pub open spec fn is_code_of_kind(event: EventModel, kind: CodeBlockKindModel) -> bool {
    event matches EventModel::Start(TagModel::CodeBlock { kind: k, .. }) && k == kind
}

/// A code block that is written in this way starts among the events.
pub open spec fn holds_code_of_kind(out: Seq<RangedModel>, kind: CodeBlockKindModel) -> bool {
    exists|i: int| 0 <= i < out.len() && is_code_of_kind((#[trigger] out[i]).1, kind)
}

/// What is listed of the ways in which code blocks are written: languages, source locations, and
/// whether one has neither.
pub open spec fn lists_kind(
    language_names: Seq<Seq<char>>,
    source_locations: Seq<Seq<char>>,
    has_untagged_code_block: bool,
    kind: CodeBlockKindModel,
) -> bool {
    match kind {
        CodeBlockKindModel::FencedLang(language) => language_names.contains(language),
        CodeBlockKindModel::FencedSrc(location) => source_locations.contains(location),
        CodeBlockKindModel::Fenced => has_untagged_code_block,
        CodeBlockKindModel::Indented => true,
    }
}

/// A flow lists a way of writing code blocks exactly if it has put out such a code block.
pub open spec fn lists_what_is_out(f: Flow, kind: CodeBlockKindModel) -> bool {
    lists_kind(f.language_names, f.source_locations, f.has_untagged_code_block, kind)
        <==> holds_code_of_kind(f.out, kind)
}

proof fn lemma_added<T>(s: Seq<T>, x: T, y: T)
    ensures
        added(s, x).contains(y) <==> s.contains(y) || y == x,
{
    if !s.contains(x) {
        let after = s.push(x);
        if s.contains(y) {
            let k = choose|k: int| 0 <= k < s.len() && s[k] == y;
            assert(after[k] == y);
        }
        assert(after[s.len() as int] == x);
        if after.contains(y) && y != x {
            let k = choose|k: int| 0 <= k < after.len() && after[k] == y;
            assert(s[k] == y);
        }
    }
}

proof fn lemma_code_of_kind_concat(
    x: Seq<RangedModel>,
    y: Seq<RangedModel>,
    kind: CodeBlockKindModel,
)
    ensures
        holds_code_of_kind(x + y, kind) <==> holds_code_of_kind(x, kind) || holds_code_of_kind(
            y,
            kind,
        ),
{
    if holds_code_of_kind(x, kind) {
        let i = choose|i: int| 0 <= i < x.len() && is_code_of_kind((#[trigger] x[i]).1, kind);
        assert((x + y)[i] == x[i]);
    }
    if holds_code_of_kind(y, kind) {
        let i = choose|i: int| 0 <= i < y.len() && is_code_of_kind((#[trigger] y[i]).1, kind);
        assert((x + y)[x.len() + i] == y[i]);
    }
    if holds_code_of_kind(x + y, kind) {
        let i = choose|i: int|
            0 <= i < (x + y).len() && is_code_of_kind((#[trigger] (x + y)[i]).1, kind);
        if i < x.len() {
            assert(is_code_of_kind(x[i].1, kind));
        } else {
            assert(is_code_of_kind(y[i - x.len()].1, kind));
        }
    }
}

proof fn lemma_step_lists_what_is_out(
    b: Seq<u8>,
    events: Seq<RangedSourceModel>,
    options: ConvertOptions,
    html: Seq<usize>,
    i: int,
    f: Flow,
    kind: CodeBlockKindModel,
)
    requires
        0 <= i < events.len(),
        !(events[i].0 matches SourceModel::Start(SourceTagModel::Plain(tag)) && tag is CodeBlock),
        !(kind is Indented),
        lists_what_is_out(f, kind),
        step(b, events, options, html, i, f) is Some,
    ensures
        lists_what_is_out((step(b, events, options, html, i, f)->0).0, kind),
{
    let (g, next) = step(b, events, options, html, i, f)->0;
    if events[i].0 is Text && !f.within_html && !f.within_metadata && !f.within_code_block {
        let end = text_run_end(events, i + 1, options.parse_html);
        let pieces = text_pieces(events, i, end);
        let text = autolink::merged(pieces);
        let links = if f.within_link {
            Seq::empty()
        } else {
            autolink::url_ranges(decode_utf8(text))
        };
        autolink::law_runs_give_text_and_links(b, pieces, 0, text, links);
        let run = autolink::linked(b, pieces, 0, text, links)->0;
        assert(!holds_code_of_kind(run, kind)) by {
            assert forall|k: int| 0 <= k < run.len() implies !is_code_of_kind(
                (#[trigger] run[k]).1,
                kind,
            ) by {
                assert(autolink::is_run_event(run[k].1));
            }
        }
        lemma_code_of_kind_concat(f.out, run, kind);
    } else {
        if g.out.len() == f.out.len() + 1 {
            let e = g.out.last();
            if g.out =~= f.out + seq![e] {
                lemma_code_of_kind_concat(f.out, seq![e], kind);
                assert(seq![e][0] == e);
                assert(holds_code_of_kind(seq![e], kind) <==> is_code_of_kind(e.1, kind));
            }
        }
        match (kind, events[i].0) {
            (
                CodeBlockKindModel::FencedLang(language),
                SourceModel::Start(SourceTagModel::FencedCode(info)),
            ) => {
                if let CodeBlockKindModel::FencedLang(found) = fenced_kind(info) {
                    lemma_added(f.language_names, found, language);
                }
            },
            (
                CodeBlockKindModel::FencedSrc(location),
                SourceModel::Start(SourceTagModel::FencedCode(info)),
            ) => {
                if let CodeBlockKindModel::FencedSrc(found) = fenced_kind(info) {
                    lemma_added(f.source_locations, found, location);
                }
            },
            _ => {},
        }
    }
}

/// A conversion lists the ways in which its code blocks are written.
pub proof fn lemma_conversion_lists_what_is_out(
    b: Seq<u8>,
    events: Seq<RangedSourceModel>,
    options: ConvertOptions,
    html: Seq<usize>,
    i: int,
    f: Flow,
    kind: CodeBlockKindModel,
)
    requires
        0 <= i <= events.len(),
        cmark::has_parser_code_tags(events),
        !(kind is Indented),
        lists_what_is_out(f, kind),
        converted(b, events, options, html, i, f) is Some,
    ensures
        lists_what_is_out(converted(b, events, options, html, i, f)->0, kind),
    decreases events.len() - i,
{
    if i < events.len() {
        lemma_text_run_end(events, i + 1, options.parse_html);
        lemma_step_lists_what_is_out(b, events, options, html, i, f, kind);
        let (g, next) = step(b, events, options, html, i, f)->0;
        lemma_conversion_lists_what_is_out(b, events, options, html, next, g, kind);
    }
}

} // verus!
