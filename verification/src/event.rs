//! The events a document is turned into, their tags, and the models that contracts speak of.
use pulldown_cmark::{Alignment, BlockQuoteKind, HeadingLevel, LinkType, MetadataBlockKind};
use std::ops::Range;
use vstd::prelude::*;

pub use pulldown_cmark::TagEnd as MarkdownTagEnd;

verus! {

/// `pulldown_cmark::HeadingLevel`, read with its variants.
#[verifier::external_type_specification]
pub struct ExHeadingLevel(HeadingLevel);

/// `pulldown_cmark::Alignment`, read with its variants.
#[verifier::external_type_specification]
pub struct ExAlignment(Alignment);

/// `pulldown_cmark::BlockQuoteKind`, read with its variants.
#[verifier::external_type_specification]
pub struct ExBlockQuoteKind(BlockQuoteKind);

/// `pulldown_cmark::LinkType`, read with its variants.
#[verifier::external_type_specification]
pub struct ExLinkType(LinkType);

/// `pulldown_cmark::MetadataBlockKind`, read with its variants.
#[verifier::external_type_specification]
pub struct ExMetadataBlockKind(MetadataBlockKind);

/// `pulldown_cmark::TagEnd`, read with its variants.
#[verifier::external_type_specification]
pub struct ExTagEnd(pulldown_cmark::TagEnd);

/// What a document is turned into: a static-lifetime equivalent of the parser's own events, so
/// that the result of a parse can be cached for rendering.
#[derive(Debug, PartialEq)]
pub enum MarkdownEvent {
    /// Start of a tagged element. Events that are yielded after this event
    /// and before its corresponding `End` event are inside this element.
    /// Start and end events are guaranteed to be balanced.
    Start(MarkdownTag),
    /// End of a tagged element.
    End(MarkdownTagEnd),
    /// Text that uses the associated range from the markdown source.
    Text,
    /// Text that differs from the markdown source - typically due to substitution of HTML entities
    /// and smart punctuation.
    SubstitutedText(String),
    /// An inline code node.
    Code,
    /// An inline code node that differs from the markdown source due to escape decoding.
    SubstitutedCode(String),
    /// An HTML node.
    Html,
    /// An inline HTML node.
    InlineHtml,
    /// A reference to a footnote with given label, which may or may not be defined
    /// by an event with a `MarkdownTag::FootnoteDefinition` tag. Definitions and references to
    /// them may occur in any order.
    FootnoteReference(String),
    /// A soft line break.
    SoftBreak,
    /// A hard line break.
    HardBreak,
    /// A horizontal ruler.
    Rule,
    /// A task list marker, rendered as a checkbox in HTML. Contains a true when it is checked.
    TaskListMarker(bool),
    /// Start of a root-level block (a top-level structural element like a paragraph, heading, list, etc.).
    RootStart,
    /// End of a root-level block. Contains the root block index.
    RootEnd(usize),
}

/// Tags for elements that can contain other elements.
#[derive(Debug, PartialEq)]
#[allow(inconsistent_fields)]
pub enum MarkdownTag {
    /// A paragraph of text and other inline elements.
    Paragraph,
    /// A heading, with optional identifier, classes and custom attributes.
    /// The identifier is prefixed with `#` and the last one in the attributes
    /// list is chosen, classes are prefixed with `.` and custom attributes
    /// have no prefix and can optionally have a value (`myattr` o `myattr=myvalue`).
    Heading {
        level: HeadingLevel,
        id: Option<String>,
        classes: Vec<String>,
        /// The first item of the tuple is the attr and second one the value.
        attrs: Vec<(String, Option<String>)>,
    },
    BlockQuote(Option<BlockQuoteKind>),
    /// A code block.
    CodeBlock { kind: CodeBlockKind, metadata: CodeBlockMetadata },
    /// A HTML block.
    HtmlBlock,
    /// A list. If the list is ordered the field indicates the number of the first item.
    /// Contains only list items.
    List(Option<u64>),
    /// A list item.
    Item,
    /// A footnote definition. The value contained is the footnote's label by which it can
    /// be referred to.
    FootnoteDefinition(String),
    /// A table. Contains a vector describing the text-alignment for each of its columns.
    Table(Vec<Alignment>),
    /// A table header. Contains only `TableCell`s. Note that the table body starts immediately
    /// after the closure of the `TableHead` tag. There is no `TableBody` tag.
    TableHead,
    /// A table row. Is used both for header rows as body rows. Contains only `TableCell`s.
    TableRow,
    TableCell,
    // span-level tags
    Emphasis,
    Strong,
    Strikethrough,
    Superscript,
    Subscript,
    /// A link.
    Link {
        link_type: LinkType,
        dest_url: String,
        title: String,
        /// Identifier of reference links, e.g. `world` in the link `[hello][world]`.
        id: String,
    },
    /// An image. The first field is the link type, the second the destination URL and the third is a title,
    /// the fourth is the link identifier.
    Image {
        link_type: LinkType,
        dest_url: String,
        title: String,
        /// Identifier of reference links, e.g. `world` in the link `[hello][world]`.
        id: String,
    },
    /// A metadata block.
    MetadataBlock(MetadataBlockKind),
    DefinitionList,
    DefinitionListTitle,
    DefinitionListDefinition,
}

/// How a code block is written.
#[derive(Debug, PartialEq)]
pub enum CodeBlockKind {
    Indented,
    /// "Fenced" means "surrounded by triple backticks."
    /// There can optionally be either a language after the backticks (like in traditional Markdown)
    /// or a path to a source location in the project,
    /// e.g. ```path/to/foo.rs#L123-456 instead of ```rust
    Fenced,
    FencedLang(String),
    /// The source location as it is written behind the backticks.
    FencedSrc(String),
}

/// Where the content of a code block lies.
#[derive(Debug, PartialEq)]
pub struct CodeBlockMetadata {
    pub content_range: Range<usize>,
    pub line_count: usize,
    pub is_fenced_closed: bool,
}

impl Default for CodeBlockMetadata {
    fn default() -> (r: Self)
        ensures
            r == (CodeBlockMetadata { content_range: 0..0, line_count: 0, is_fenced_closed: false }),
    {
        CodeBlockMetadata { content_range: 0..0, line_count: 0, is_fenced_closed: false }
    }
}

impl Clone for CodeBlockMetadata {
    fn clone(&self) -> (r: Self)
        ensures
            r == *self,
    {
        CodeBlockMetadata {
            content_range: self.content_range.start..self.content_range.end,
            line_count: self.line_count,
            is_fenced_closed: self.is_fenced_closed,
        }
    }
}

/// The model of a [`MarkdownEvent`]: the same event over plain character sequences.
pub enum EventModel {
    Start(TagModel),
    End(MarkdownTagEnd),
    Text,
    SubstitutedText(Seq<char>),
    Code,
    SubstitutedCode(Seq<char>),
    Html,
    InlineHtml,
    FootnoteReference(Seq<char>),
    SoftBreak,
    HardBreak,
    Rule,
    TaskListMarker(bool),
    RootStart,
    RootEnd(usize),
}

/// The model of a [`MarkdownTag`].
#[allow(inconsistent_fields)]
pub enum TagModel {
    Paragraph,
    Heading {
        level: HeadingLevel,
        id: Option<Seq<char>>,
        classes: Seq<Seq<char>>,
        attrs: Seq<(Seq<char>, Option<Seq<char>>)>,
    },
    BlockQuote(Option<BlockQuoteKind>),
    CodeBlock { kind: CodeBlockKindModel, metadata: CodeBlockMetadata },
    HtmlBlock,
    List(Option<u64>),
    Item,
    FootnoteDefinition(Seq<char>),
    Table(Seq<Alignment>),
    TableHead,
    TableRow,
    TableCell,
    Emphasis,
    Strong,
    Strikethrough,
    Superscript,
    Subscript,
    Link { link_type: LinkType, dest_url: Seq<char>, title: Seq<char>, id: Seq<char> },
    Image { link_type: LinkType, dest_url: Seq<char>, title: Seq<char>, id: Seq<char> },
    MetadataBlock(MetadataBlockKind),
    DefinitionList,
    DefinitionListTitle,
    DefinitionListDefinition,
}

/// The model of a [`CodeBlockKind`].
pub enum CodeBlockKindModel {
    Indented,
    Fenced,
    FencedLang(Seq<char>),
    FencedSrc(Seq<char>),
}

/// The characters of an optional string.
pub open spec fn optional_chars(s: Option<String>) -> Option<Seq<char>> {
    match s {
        Some(s) => Some(s@),
        None => None,
    }
}

impl View for CodeBlockKind {
    type V = CodeBlockKindModel;

    open spec fn view(&self) -> CodeBlockKindModel {
        match *self {
            CodeBlockKind::Indented => CodeBlockKindModel::Indented,
            CodeBlockKind::Fenced => CodeBlockKindModel::Fenced,
            CodeBlockKind::FencedLang(language) => CodeBlockKindModel::FencedLang(language@),
            CodeBlockKind::FencedSrc(location) => CodeBlockKindModel::FencedSrc(location@),
        }
    }
}

impl View for MarkdownTag {
    type V = TagModel;

    open spec fn view(&self) -> TagModel {
        match *self {
            MarkdownTag::Paragraph => TagModel::Paragraph,
            MarkdownTag::Heading { level, id, classes, attrs } => TagModel::Heading {
                level,
                id: optional_chars(id),
                classes: classes@.map_values(|c: String| c@),
                attrs: attrs@.map_values(
                    |a: (String, Option<String>)| (a.0@, optional_chars(a.1)),
                ),
            },
            MarkdownTag::BlockQuote(kind) => TagModel::BlockQuote(kind),
            MarkdownTag::CodeBlock { kind, metadata } => TagModel::CodeBlock {
                kind: kind@,
                metadata,
            },
            MarkdownTag::HtmlBlock => TagModel::HtmlBlock,
            MarkdownTag::List(start) => TagModel::List(start),
            MarkdownTag::Item => TagModel::Item,
            MarkdownTag::FootnoteDefinition(label) => TagModel::FootnoteDefinition(label@),
            MarkdownTag::Table(alignments) => TagModel::Table(alignments@),
            MarkdownTag::TableHead => TagModel::TableHead,
            MarkdownTag::TableRow => TagModel::TableRow,
            MarkdownTag::TableCell => TagModel::TableCell,
            MarkdownTag::Emphasis => TagModel::Emphasis,
            MarkdownTag::Strong => TagModel::Strong,
            MarkdownTag::Strikethrough => TagModel::Strikethrough,
            MarkdownTag::Superscript => TagModel::Superscript,
            MarkdownTag::Subscript => TagModel::Subscript,
            MarkdownTag::Link { link_type, dest_url, title, id } => TagModel::Link {
                link_type,
                dest_url: dest_url@,
                title: title@,
                id: id@,
            },
            MarkdownTag::Image { link_type, dest_url, title, id } => TagModel::Image {
                link_type,
                dest_url: dest_url@,
                title: title@,
                id: id@,
            },
            MarkdownTag::MetadataBlock(kind) => TagModel::MetadataBlock(kind),
            MarkdownTag::DefinitionList => TagModel::DefinitionList,
            MarkdownTag::DefinitionListTitle => TagModel::DefinitionListTitle,
            MarkdownTag::DefinitionListDefinition => TagModel::DefinitionListDefinition,
        }
    }
}

impl View for MarkdownEvent {
    type V = EventModel;

    open spec fn view(&self) -> EventModel {
        match *self {
            MarkdownEvent::Start(tag) => EventModel::Start(tag@),
            MarkdownEvent::End(tag) => EventModel::End(tag),
            MarkdownEvent::Text => EventModel::Text,
            MarkdownEvent::SubstitutedText(text) => EventModel::SubstitutedText(text@),
            MarkdownEvent::Code => EventModel::Code,
            MarkdownEvent::SubstitutedCode(code) => EventModel::SubstitutedCode(code@),
            MarkdownEvent::Html => EventModel::Html,
            MarkdownEvent::InlineHtml => EventModel::InlineHtml,
            MarkdownEvent::FootnoteReference(label) => EventModel::FootnoteReference(label@),
            MarkdownEvent::SoftBreak => EventModel::SoftBreak,
            MarkdownEvent::HardBreak => EventModel::HardBreak,
            MarkdownEvent::Rule => EventModel::Rule,
            MarkdownEvent::TaskListMarker(checked) => EventModel::TaskListMarker(checked),
            MarkdownEvent::RootStart => EventModel::RootStart,
            MarkdownEvent::RootEnd(index) => EventModel::RootEnd(index),
        }
    }
}

fn clone_strings(strings: &Vec<String>) -> (r: Vec<String>)
    ensures
        r@.map_values(|c: String| c@) == strings@.map_values(|c: String| c@),
{
    let mut r: Vec<String> = Vec::new();
    for i in 0..strings.len()
        invariant
            r@.len() == i,
            forall|k: int| 0 <= k < i ==> #[trigger] r@[k] == strings@[k],
    {
        r.push(strings[i].clone());
    }
    assert(r@.map_values(|c: String| c@) =~= strings@.map_values(|c: String| c@));
    r
}

fn clone_optional(s: &Option<String>) -> (r: Option<String>)
    ensures
        r == *s,
{
    match s {
        Some(s) => Some(s.clone()),
        None => None,
    }
}

impl Clone for CodeBlockKind {
    fn clone(&self) -> (r: Self)
        ensures
            r@ == self@,
    {
        match self {
            CodeBlockKind::Indented => CodeBlockKind::Indented,
            CodeBlockKind::Fenced => CodeBlockKind::Fenced,
            CodeBlockKind::FencedLang(language) => CodeBlockKind::FencedLang(language.clone()),
            CodeBlockKind::FencedSrc(location) => CodeBlockKind::FencedSrc(location.clone()),
        }
    }
}

impl Clone for MarkdownTag {
    fn clone(&self) -> (r: Self)
        ensures
            r@ == self@,
    {
        match self {
            MarkdownTag::Paragraph => MarkdownTag::Paragraph,
            MarkdownTag::Heading { level, id, classes, attrs } => {
                let mut cloned: Vec<(String, Option<String>)> = Vec::new();
                for i in 0..attrs.len()
                    invariant
                        cloned@.len() == i,
                        forall|k: int| 0 <= k < i ==> #[trigger] cloned@[k] == attrs@[k],
                {
                    cloned.push((attrs[i].0.clone(), clone_optional(&attrs[i].1)));
                }
                assert(cloned@ =~= attrs@);
                MarkdownTag::Heading {
                    level: *level,
                    id: clone_optional(id),
                    classes: clone_strings(classes),
                    attrs: cloned,
                }
            },
            MarkdownTag::BlockQuote(kind) => MarkdownTag::BlockQuote(*kind),
            MarkdownTag::CodeBlock { kind, metadata } => {
                MarkdownTag::CodeBlock { kind: kind.clone(), metadata: metadata.clone() }
            },
            MarkdownTag::HtmlBlock => MarkdownTag::HtmlBlock,
            MarkdownTag::List(start) => MarkdownTag::List(*start),
            MarkdownTag::Item => MarkdownTag::Item,
            MarkdownTag::FootnoteDefinition(label) => MarkdownTag::FootnoteDefinition(
                label.clone(),
            ),
            MarkdownTag::Table(alignments) => {
                let mut cloned: Vec<Alignment> = Vec::new();
                for i in 0..alignments.len()
                    invariant
                        cloned@.len() == i,
                        forall|k: int| 0 <= k < i ==> #[trigger] cloned@[k] == alignments@[k],
                {
                    cloned.push(alignments[i]);
                }
                assert(cloned@ =~= alignments@);
                MarkdownTag::Table(cloned)
            },
            MarkdownTag::TableHead => MarkdownTag::TableHead,
            MarkdownTag::TableRow => MarkdownTag::TableRow,
            MarkdownTag::TableCell => MarkdownTag::TableCell,
            MarkdownTag::Emphasis => MarkdownTag::Emphasis,
            MarkdownTag::Strong => MarkdownTag::Strong,
            MarkdownTag::Strikethrough => MarkdownTag::Strikethrough,
            MarkdownTag::Superscript => MarkdownTag::Superscript,
            MarkdownTag::Subscript => MarkdownTag::Subscript,
            MarkdownTag::Link { link_type, dest_url, title, id } => MarkdownTag::Link {
                link_type: *link_type,
                dest_url: dest_url.clone(),
                title: title.clone(),
                id: id.clone(),
            },
            MarkdownTag::Image { link_type, dest_url, title, id } => MarkdownTag::Image {
                link_type: *link_type,
                dest_url: dest_url.clone(),
                title: title.clone(),
                id: id.clone(),
            },
            MarkdownTag::MetadataBlock(kind) => MarkdownTag::MetadataBlock(*kind),
            MarkdownTag::DefinitionList => MarkdownTag::DefinitionList,
            MarkdownTag::DefinitionListTitle => MarkdownTag::DefinitionListTitle,
            MarkdownTag::DefinitionListDefinition => MarkdownTag::DefinitionListDefinition,
        }
    }
}

impl Clone for MarkdownEvent {
    fn clone(&self) -> (r: Self)
        ensures
            r@ == self@,
    {
        match self {
            MarkdownEvent::Start(tag) => MarkdownEvent::Start(tag.clone()),
            MarkdownEvent::End(tag) => MarkdownEvent::End(*tag),
            MarkdownEvent::Text => MarkdownEvent::Text,
            MarkdownEvent::SubstitutedText(text) => MarkdownEvent::SubstitutedText(text.clone()),
            MarkdownEvent::Code => MarkdownEvent::Code,
            MarkdownEvent::SubstitutedCode(code) => MarkdownEvent::SubstitutedCode(code.clone()),
            MarkdownEvent::Html => MarkdownEvent::Html,
            MarkdownEvent::InlineHtml => MarkdownEvent::InlineHtml,
            MarkdownEvent::FootnoteReference(label) => MarkdownEvent::FootnoteReference(
                label.clone(),
            ),
            MarkdownEvent::SoftBreak => MarkdownEvent::SoftBreak,
            MarkdownEvent::HardBreak => MarkdownEvent::HardBreak,
            MarkdownEvent::Rule => MarkdownEvent::Rule,
            MarkdownEvent::TaskListMarker(checked) => MarkdownEvent::TaskListMarker(*checked),
            MarkdownEvent::RootStart => MarkdownEvent::RootStart,
            MarkdownEvent::RootEnd(index) => MarkdownEvent::RootEnd(*index),
        }
    }
}

/// An event with its range in the source.
pub type RangedEvent = (Range<usize>, MarkdownEvent);

/// The model of an event with its range in the source.
pub type RangedModel = (Range<usize>, EventModel);

/// The model of an event with its range.
pub open spec fn ranged_model(event: RangedEvent) -> RangedModel {
    (event.0, event.1@)
}

/// The model of a list of events.
pub open spec fn models(events: Seq<RangedEvent>) -> Seq<RangedModel> {
    events.map_values(|e: RangedEvent| ranged_model(e))
}

/// A list of events, if there is one, has this model.
pub open spec fn agree(events: Option<Vec<RangedEvent>>, model: Option<Seq<RangedModel>>) -> bool {
    match (events, model) {
        (Some(events), Some(model)) => models(events@) == model,
        (None, None) => true,
        _ => false,
    }
}

/// The model of a list follows the list when an event is pushed.
pub broadcast proof fn lemma_models_push(events: Seq<RangedEvent>, event: RangedEvent)
    ensures
        #[trigger] models(events.push(event)) == models(events).push((event.0, event.1@)),
{
    assert(models(events.push(event)) =~= models(events).push((event.0, event.1@)));
}

} // verus!
