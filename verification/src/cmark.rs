//! The Markdown parser: its options, and its events as plain values.
use crate::event::{MarkdownTag, MarkdownTagEnd, TagModel};
use crate::nesting;
use crate::order;
use pulldown_cmark::CodeBlockKind as Fencing;
use pulldown_cmark::{CowStr, Event, Options, Parser, Tag};
use std::ops::Range;
use vstd::multiset::Multiset;
use vstd::prelude::*;

verus! {

pub const ENABLE_TABLES: u32 = 1u32 << 1;

pub const ENABLE_FOOTNOTES: u32 = 1u32 << 2;

pub const ENABLE_STRIKETHROUGH: u32 = 1u32 << 3;

pub const ENABLE_TASKLISTS: u32 = 1u32 << 4;

pub const ENABLE_SMART_PUNCTUATION: u32 = 1u32 << 5;

pub const ENABLE_HEADING_ATTRIBUTES: u32 = 1u32 << 6;

pub const ENABLE_YAML_STYLE_METADATA_BLOCKS: u32 = 1u32 << 7;

pub const ENABLE_PLUSES_DELIMITED_METADATA_BLOCKS: u32 = 1u32 << 8;

pub const ENABLE_OLD_FOOTNOTES: u32 = (1u32 << 9) | (1u32 << 2);

pub const ENABLE_GFM: u32 = 1u32 << 11;

pub const ENABLE_SUPERSCRIPT: u32 = 1u32 << 13;

pub const ENABLE_SUBSCRIPT: u32 = 1u32 << 14;

/// The bits of the parser options that every document is parsed with.
pub const PARSE_OPTIONS: u32 = ENABLE_TABLES | ENABLE_FOOTNOTES | ENABLE_STRIKETHROUGH
    | ENABLE_TASKLISTS | ENABLE_SMART_PUNCTUATION | ENABLE_HEADING_ATTRIBUTES
    | ENABLE_PLUSES_DELIMITED_METADATA_BLOCKS | ENABLE_OLD_FOOTNOTES | ENABLE_GFM
    | ENABLE_SUPERSCRIPT | ENABLE_SUBSCRIPT;

/// `pulldown_cmark::CowStr`: an opaque string.
#[verifier::external_type_specification]
#[verifier::external_body]
pub struct ExCowStr<'a>(CowStr<'a>);

/// `pulldown_cmark::CodeBlockKind`, read with its variants.
#[verifier::external_type_specification]
pub struct ExFencing<'a>(Fencing<'a>);

/// `pulldown_cmark::Tag`, read with its variants.
#[verifier::external_type_specification]
pub struct ExTag<'a>(Tag<'a>);

/// `pulldown_cmark::Event`, read with its variants.
#[verifier::external_type_specification]
pub struct ExEvent<'a>(Event<'a>);

/// An event of the parser, as a plain value.
#[derive(Debug, PartialEq)]
pub enum SourceEvent {
    Start(SourceTag),
    End(MarkdownTagEnd),
    Text(String),
    Code(String),
    /// Inline or display math.
    Math,
    Html,
    InlineHtml(String),
    FootnoteReference(String),
    SoftBreak,
    HardBreak,
    Rule,
    TaskListMarker(bool),
}

/// A tag of the parser. Code blocks come without the range of their content.
#[derive(Debug, PartialEq)]
pub enum SourceTag {
    IndentedCode,
    /// A fenced code block with its info string.
    FencedCode(String),
    Plain(MarkdownTag),
}

/// The model of a [`SourceEvent`].
pub enum SourceModel {
    Start(SourceTagModel),
    End(MarkdownTagEnd),
    Text(Seq<char>),
    Code(Seq<char>),
    Math,
    Html,
    InlineHtml(Seq<char>),
    FootnoteReference(Seq<char>),
    SoftBreak,
    HardBreak,
    Rule,
    TaskListMarker(bool),
}

/// The model of a [`SourceTag`].
pub enum SourceTagModel {
    IndentedCode,
    FencedCode(Seq<char>),
    Plain(TagModel),
}

impl View for SourceTag {
    type V = SourceTagModel;

    open spec fn view(&self) -> SourceTagModel {
        match *self {
            SourceTag::IndentedCode => SourceTagModel::IndentedCode,
            SourceTag::FencedCode(info) => SourceTagModel::FencedCode(info@),
            SourceTag::Plain(tag) => SourceTagModel::Plain(tag@),
        }
    }
}

impl View for SourceEvent {
    type V = SourceModel;

    open spec fn view(&self) -> SourceModel {
        match *self {
            SourceEvent::Start(tag) => SourceModel::Start(tag@),
            SourceEvent::End(tag) => SourceModel::End(tag),
            SourceEvent::Text(text) => SourceModel::Text(text@),
            SourceEvent::Code(code) => SourceModel::Code(code@),
            SourceEvent::Math => SourceModel::Math,
            SourceEvent::Html => SourceModel::Html,
            SourceEvent::InlineHtml(html) => SourceModel::InlineHtml(html@),
            SourceEvent::FootnoteReference(label) => SourceModel::FootnoteReference(label@),
            SourceEvent::SoftBreak => SourceModel::SoftBreak,
            SourceEvent::HardBreak => SourceModel::HardBreak,
            SourceEvent::Rule => SourceModel::Rule,
            SourceEvent::TaskListMarker(checked) => SourceModel::TaskListMarker(checked),
        }
    }
}

/// A parser event with its range in the source.
pub type RangedSource = (SourceEvent, Range<usize>);

/// The model of a parser event with its range in the source.
pub type RangedSourceModel = (SourceModel, Range<usize>);

/// The model of a list of parser events.
pub open spec fn source_models(events: Seq<RangedSource>) -> Seq<RangedSourceModel> {
    events.map_values(|e: RangedSource| (e.0@, e.1))
}

/// The characters that a `pulldown_cmark::CowStr` holds.
pub uninterp spec fn cow_chars(cow: CowStr<'_>) -> Seq<char>;

/// Calls `pulldown_cmark::CowStr::into_string`, which hands over the characters that the string
/// holds.
#[verifier::external_body]
fn cow_into_string(cow: CowStr<'_>) -> (r: String)
    ensures
        r@ == cow_chars(cow),
{
    cow.into_string()
}

/// The characters of an optional string of the parser.
pub open spec fn optional_cow_chars(cow: Option<CowStr<'_>>) -> Option<Seq<char>> {
    match cow {
        Some(cow) => Some(cow_chars(cow)),
        None => None,
    }
}

/// The model of a tag of the parser.
pub open spec fn tag_model(tag: Tag<'_>) -> SourceTagModel {
    match tag {
        Tag::CodeBlock(Fencing::Indented) => SourceTagModel::IndentedCode,
        Tag::CodeBlock(Fencing::Fenced(info)) => SourceTagModel::FencedCode(
            cow_chars(info),
        ),
        Tag::Paragraph => SourceTagModel::Plain(TagModel::Paragraph),
        Tag::Heading { level, id, classes, attrs } => SourceTagModel::Plain(
            TagModel::Heading {
                level,
                id: optional_cow_chars(id),
                classes: classes@.map_values(|c: CowStr<'_>| cow_chars(c)),
                attrs: attrs@.map_values(
                    |a: (CowStr<'_>, Option<CowStr<'_>>)| (cow_chars(a.0), optional_cow_chars(a.1)),
                ),
            },
        ),
        Tag::BlockQuote(kind) => SourceTagModel::Plain(TagModel::BlockQuote(kind)),
        Tag::HtmlBlock => SourceTagModel::Plain(TagModel::HtmlBlock),
        Tag::List(start) => SourceTagModel::Plain(TagModel::List(start)),
        Tag::Item => SourceTagModel::Plain(TagModel::Item),
        Tag::FootnoteDefinition(label) => SourceTagModel::Plain(
            TagModel::FootnoteDefinition(cow_chars(label)),
        ),
        Tag::Table(alignments) => SourceTagModel::Plain(TagModel::Table(alignments@)),
        Tag::TableHead => SourceTagModel::Plain(TagModel::TableHead),
        Tag::TableRow => SourceTagModel::Plain(TagModel::TableRow),
        Tag::TableCell => SourceTagModel::Plain(TagModel::TableCell),
        Tag::Emphasis => SourceTagModel::Plain(TagModel::Emphasis),
        Tag::Strong => SourceTagModel::Plain(TagModel::Strong),
        Tag::Strikethrough => SourceTagModel::Plain(TagModel::Strikethrough),
        Tag::Superscript => SourceTagModel::Plain(TagModel::Superscript),
        Tag::Subscript => SourceTagModel::Plain(TagModel::Subscript),
        Tag::Link { link_type, dest_url, title, id } => SourceTagModel::Plain(
            TagModel::Link {
                link_type,
                dest_url: cow_chars(dest_url),
                title: cow_chars(title),
                id: cow_chars(id),
            },
        ),
        Tag::Image { link_type, dest_url, title, id } => SourceTagModel::Plain(
            TagModel::Image {
                link_type,
                dest_url: cow_chars(dest_url),
                title: cow_chars(title),
                id: cow_chars(id),
            },
        ),
        Tag::MetadataBlock(kind) => SourceTagModel::Plain(TagModel::MetadataBlock(kind)),
        Tag::DefinitionList => SourceTagModel::Plain(TagModel::DefinitionList),
        Tag::DefinitionListTitle => SourceTagModel::Plain(TagModel::DefinitionListTitle),
        Tag::DefinitionListDefinition => SourceTagModel::Plain(TagModel::DefinitionListDefinition),
    }
}

/// The model of an event of the parser.
pub open spec fn event_model(event: Event<'_>) -> SourceModel {
    match event {
        Event::Start(tag) => SourceModel::Start(tag_model(tag)),
        Event::End(tag) => SourceModel::End(tag),
        Event::Text(text) => SourceModel::Text(cow_chars(text)),
        Event::Code(code) => SourceModel::Code(cow_chars(code)),
        Event::InlineMath(_) | Event::DisplayMath(_) => SourceModel::Math,
        Event::Html(_) => SourceModel::Html,
        Event::InlineHtml(html) => SourceModel::InlineHtml(cow_chars(html)),
        Event::FootnoteReference(label) => SourceModel::FootnoteReference(cow_chars(label)),
        Event::SoftBreak => SourceModel::SoftBreak,
        Event::HardBreak => SourceModel::HardBreak,
        Event::Rule => SourceModel::Rule,
        Event::TaskListMarker(checked) => SourceModel::TaskListMarker(checked),
    }
}

/// The model of a list of events of the parser.
pub open spec fn event_models(events: Seq<(Event<'_>, Range<usize>)>) -> Seq<RangedSourceModel> {
    events.map_values(|e: (Event<'_>, Range<usize>)| (event_model(e.0), e.1))
}

/// The events, each with its range in the source, that `pulldown_cmark` parses a text into with
/// the options whose bits are given.
pub uninterp spec fn cmark_events(text: Seq<char>, options: u32) -> Seq<RangedSourceModel>;

/// Calls `pulldown_cmark::Parser::new_ext` and collects what `into_offset_iter` yields: the
/// events of the text, which depend on the text and the options alone. The starts and the ends of
/// elements are balanced. Code blocks and metadata blocks hold nothing but text, and HTML blocks
/// nothing but text and HTML: each is built from its lines alone.
#[verifier::external_body]
fn cmark_parse<'a>(text: &'a str, options: u32) -> (r: Vec<(Event<'a>, Range<usize>)>)
    ensures
        event_models(r@) == cmark_events(text@, options),
        nesting::is_source_balanced(event_models(r@)),
        nesting::has_leaf_blocks(event_models(r@)),
{
    Parser::new_ext(text, Options::from_bits_truncate(options)).into_offset_iter().collect()
}

/// The ranges in the source of the link reference definitions that `pulldown_cmark` finds in a
/// text with the options whose bits are given.
pub uninterp spec fn cmark_definitions(text: Seq<char>, options: u32) -> Multiset<Range<usize>>;

/// Calls `pulldown_cmark::Parser::reference_definitions` and picks the span of each definition.
/// They come in no particular order.
#[verifier::external_body]
fn cmark_definition_spans(text: &str, options: u32) -> (r: Vec<Range<usize>>)
    ensures
        r@.to_multiset() == cmark_definitions(text@, options),
{
    Parser::new_ext(text, Options::from_bits_truncate(options))
        .reference_definitions()
        .iter()
        .map(|(_, definition)| definition.span.clone())
        .collect()
}

fn optional_into_string(cow: Option<CowStr<'_>>) -> (r: Option<String>)
    ensures
        crate::event::optional_chars(r) == optional_cow_chars(cow),
{
    match cow {
        Some(cow) => Some(cow_into_string(cow)),
        None => None,
    }
}

fn classes_into_strings(classes: Vec<CowStr<'_>>) -> (r: Vec<String>)
    ensures
        r@.map_values(|c: String| c@) == classes@.map_values(|c: CowStr<'_>| cow_chars(c)),
{
    let mut r: Vec<String> = Vec::new();
    let ghost all = classes@;
    for class in iter: classes
        invariant
            iter.seq() == all,
            r@.len() == iter.index(),
            forall|k: int| 0 <= k < r@.len() ==> (#[trigger] r@[k])@ == cow_chars(all[k]),
    {
        r.push(cow_into_string(class));
    }
    assert(r@.map_values(|c: String| c@) =~= all.map_values(|c: CowStr<'_>| cow_chars(c)));
    r
}

fn attrs_into_strings(attrs: Vec<(CowStr<'_>, Option<CowStr<'_>>)>) -> (r: Vec<
    (String, Option<String>),
>)
    ensures
        r@.map_values(|a: (String, Option<String>)| (a.0@, crate::event::optional_chars(a.1)))
            == attrs@.map_values(
            |a: (CowStr<'_>, Option<CowStr<'_>>)| (cow_chars(a.0), optional_cow_chars(a.1)),
        ),
{
    let mut r: Vec<(String, Option<String>)> = Vec::new();
    let ghost all = attrs@;
    for attr in iter: attrs
        invariant
            iter.seq() == all,
            r@.len() == iter.index(),
            forall|k: int|
                0 <= k < r@.len() ==> (#[trigger] r@[k]).0@ == cow_chars(all[k].0)
                    && crate::event::optional_chars(r@[k].1) == optional_cow_chars(all[k].1),
    {
        r.push((cow_into_string(attr.0), optional_into_string(attr.1)));
    }
    assert(r@.map_values(|a: (String, Option<String>)| (a.0@, crate::event::optional_chars(a.1)))
        =~= all.map_values(
        |a: (CowStr<'_>, Option<CowStr<'_>>)| (cow_chars(a.0), optional_cow_chars(a.1)),
    ));
    r
}

fn source_tag(tag: Tag<'_>) -> (r: SourceTag)
    ensures
        r@ == tag_model(tag),
{
    match tag {
        Tag::CodeBlock(Fencing::Indented) => SourceTag::IndentedCode,
        Tag::CodeBlock(Fencing::Fenced(info)) => SourceTag::FencedCode(
            cow_into_string(info),
        ),
        Tag::Paragraph => SourceTag::Plain(MarkdownTag::Paragraph),
        Tag::Heading { level, id, classes, attrs } => SourceTag::Plain(
            MarkdownTag::Heading {
                level,
                id: optional_into_string(id),
                classes: classes_into_strings(classes),
                attrs: attrs_into_strings(attrs),
            },
        ),
        Tag::BlockQuote(kind) => SourceTag::Plain(MarkdownTag::BlockQuote(kind)),
        Tag::HtmlBlock => SourceTag::Plain(MarkdownTag::HtmlBlock),
        Tag::List(start) => SourceTag::Plain(MarkdownTag::List(start)),
        Tag::Item => SourceTag::Plain(MarkdownTag::Item),
        Tag::FootnoteDefinition(label) => SourceTag::Plain(
            MarkdownTag::FootnoteDefinition(cow_into_string(label)),
        ),
        Tag::Table(alignments) => SourceTag::Plain(MarkdownTag::Table(alignments)),
        Tag::TableHead => SourceTag::Plain(MarkdownTag::TableHead),
        Tag::TableRow => SourceTag::Plain(MarkdownTag::TableRow),
        Tag::TableCell => SourceTag::Plain(MarkdownTag::TableCell),
        Tag::Emphasis => SourceTag::Plain(MarkdownTag::Emphasis),
        Tag::Strong => SourceTag::Plain(MarkdownTag::Strong),
        Tag::Strikethrough => SourceTag::Plain(MarkdownTag::Strikethrough),
        Tag::Superscript => SourceTag::Plain(MarkdownTag::Superscript),
        Tag::Subscript => SourceTag::Plain(MarkdownTag::Subscript),
        Tag::Link { link_type, dest_url, title, id } => SourceTag::Plain(
            MarkdownTag::Link {
                link_type,
                dest_url: cow_into_string(dest_url),
                title: cow_into_string(title),
                id: cow_into_string(id),
            },
        ),
        Tag::Image { link_type, dest_url, title, id } => SourceTag::Plain(
            MarkdownTag::Image {
                link_type,
                dest_url: cow_into_string(dest_url),
                title: cow_into_string(title),
                id: cow_into_string(id),
            },
        ),
        Tag::MetadataBlock(kind) => SourceTag::Plain(MarkdownTag::MetadataBlock(kind)),
        Tag::DefinitionList => SourceTag::Plain(MarkdownTag::DefinitionList),
        Tag::DefinitionListTitle => SourceTag::Plain(MarkdownTag::DefinitionListTitle),
        Tag::DefinitionListDefinition => SourceTag::Plain(MarkdownTag::DefinitionListDefinition),
    }
}

fn source_event(event: Event<'_>) -> (r: SourceEvent)
    ensures
        r@ == event_model(event),
{
    match event {
        Event::Start(tag) => SourceEvent::Start(source_tag(tag)),
        Event::End(tag) => SourceEvent::End(tag),
        Event::Text(text) => SourceEvent::Text(cow_into_string(text)),
        Event::Code(code) => SourceEvent::Code(cow_into_string(code)),
        Event::InlineMath(_) | Event::DisplayMath(_) => SourceEvent::Math,
        Event::Html(_) => SourceEvent::Html,
        Event::InlineHtml(html) => SourceEvent::InlineHtml(cow_into_string(html)),
        Event::FootnoteReference(label) => SourceEvent::FootnoteReference(cow_into_string(label)),
        Event::SoftBreak => SourceEvent::SoftBreak,
        Event::HardBreak => SourceEvent::HardBreak,
        Event::Rule => SourceEvent::Rule,
        Event::TaskListMarker(checked) => SourceEvent::TaskListMarker(checked),
    }
}

/// The code blocks of the parser come with its own tags for them.
pub open spec fn has_parser_code_tags(events: Seq<RangedSourceModel>) -> bool {
    forall|i: int|
        #![trigger events[i]]
        0 <= i < events.len() ==> !(events[i].0 matches SourceModel::Start(
            SourceTagModel::Plain(tag),
        ) && tag is CodeBlock)
}

/// Parses a text into the parser's events.
pub fn source_events(text: &str, options: u32) -> (r: Vec<RangedSource>)
    ensures
        source_models(r@) == cmark_events(text@, options),
        has_parser_code_tags(source_models(r@)),
        nesting::is_source_balanced(source_models(r@)),
        nesting::has_leaf_blocks(source_models(r@)),
{
    let parsed = cmark_parse(text, options);
    let ghost all = parsed@;
    let mut r: Vec<RangedSource> = Vec::new();
    for event in iter: parsed
        invariant
            iter.seq() == all,
            r@.len() == iter.index(),
            forall|k: int|
                0 <= k < r@.len() ==> (#[trigger] r@[k]).0@ == event_model(all[k].0) && r@[k].1
                    == all[k].1,
    {
        let (event, range) = event;
        r.push((source_event(event), range));
    }
    assert(source_models(r@) =~= event_models(all));
    r
}

/// The ranges in the source of the link reference definitions, in the order of their starts, and
/// of their ends where they start at one place.
pub fn link_definitions(text: &str, options: u32) -> (r: Vec<Range<usize>>)
    ensures
        r@.to_multiset() == cmark_definitions(text@, options),
        order::is_ordered(r@),
{
    let spans = cmark_definition_spans(text, options);
    proof {
        order::lemma_sorted(spans@);
    }
    order::sort(spans)
}

} // verus!
