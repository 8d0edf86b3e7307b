//! The blocks and markers of a live preview.
use crate::order;
use std::ops::Range;
use vstd::prelude::*;

verus! {

/// A root-level block of a document.
#[derive(Debug, PartialEq)]
pub struct MarkdownLivePreviewBlock {
    pub source_range: Range<usize>,
    pub replacement_range: Range<usize>,
    pub source: String,
    pub display_text: String,
    pub image_destination: Option<String>,
    pub kind: MarkdownLivePreviewBlockKind,
}

/// The model of a [`MarkdownLivePreviewBlock`].
pub struct BlockModel {
    pub source_range: Range<usize>,
    pub replacement_range: Range<usize>,
    pub source: Seq<char>,
    pub display_text: Seq<char>,
    pub image_destination: Option<Seq<char>>,
    pub kind: MarkdownLivePreviewBlockKind,
}

impl View for MarkdownLivePreviewBlock {
    type V = BlockModel;

    open spec fn view(&self) -> BlockModel {
        BlockModel {
            source_range: self.source_range,
            replacement_range: self.replacement_range,
            source: self.source@,
            display_text: self.display_text@,
            image_destination: crate::event::optional_chars(self.image_destination),
            kind: self.kind,
        }
    }
}

impl Clone for MarkdownLivePreviewBlock {
    fn clone(&self) -> (r: Self)
        ensures
            r@ == self@,
    {
        MarkdownLivePreviewBlock {
            source_range: self.source_range.start..self.source_range.end,
            replacement_range: self.replacement_range.start..self.replacement_range.end,
            source: self.source.clone(),
            display_text: self.display_text.clone(),
            image_destination: match &self.image_destination {
                Some(destination) => Some(destination.clone()),
                None => None,
            },
            kind: self.kind,
        }
    }
}

/// What a block is.
#[derive(Clone, Copy, Debug, Eq, PartialEq, Structural)]
pub enum MarkdownLivePreviewBlockKind {
    Paragraph,
    Image,
    Heading(u8),
    List,
    Item,
    BlockQuote,
    CodeBlock { is_indented: bool, is_mermaid: bool },
    Table,
    Rule,
    Other,
}

/// The kinds of block that are replaced as a whole.
pub open spec fn rich(kind: MarkdownLivePreviewBlockKind) -> bool {
    kind is Image || kind is CodeBlock || kind is Table || kind is Rule
}

impl MarkdownLivePreviewBlockKind {
    /// Whether the block is rendered as a replacement block instead of being
    /// shown inline with its syntax markers hidden.
    pub fn is_rich(self) -> (r: bool)
        ensures
            r == rich(self),
    {
        match self {
            Self::Image => true,
            Self::CodeBlock { .. } => true,
            Self::Table => true,
            Self::Rule => true,
            _ => false,
        }
    }

    /// Whether the block is a code block.
    pub fn is_code_block(self) -> (r: bool)
        ensures
            r == self is CodeBlock,
    {
        match self {
            Self::CodeBlock { .. } => true,
            _ => false,
        }
    }

    /// Whether the block is a code block that is made by its indentation.
    pub fn is_indented_code_block(self) -> (r: bool)
        ensures
            r == (self matches Self::CodeBlock { is_indented, .. } && is_indented),
    {
        match self {
            Self::CodeBlock { is_indented, .. } => is_indented,
            _ => false,
        }
    }

    /// Whether the block is a Mermaid diagram.
    pub fn is_mermaid_code_block(self) -> (r: bool)
        ensures
            r == (self matches Self::CodeBlock { is_mermaid, .. } && is_mermaid),
    {
        match self {
            Self::CodeBlock { is_mermaid, .. } => is_mermaid,
            _ => false,
        }
    }
}

/// What a live preview shows in place of the source.
#[derive(Debug, PartialEq)]
pub struct MarkdownLivePreviewLayout {
    /// Blocks that are rendered as replacement blocks in the editor.
    pub blocks: Vec<MarkdownLivePreviewBlock>,
    /// Inline syntax markers that are hidden or substituted in place.
    pub inline_markers: Vec<MarkdownLivePreviewInlineMarker>,
}

/// A piece of inline syntax.
#[derive(Debug, Eq, PartialEq)]
pub struct MarkdownLivePreviewInlineMarker {
    pub range: Range<usize>,
    pub kind: MarkdownLivePreviewInlineMarkerKind,
}

impl Clone for MarkdownLivePreviewInlineMarker {
    fn clone(&self) -> (r: Self)
        ensures
            r == *self,
    {
        MarkdownLivePreviewInlineMarker {
            range: self.range.start..self.range.end,
            kind: self.kind,
        }
    }
}

impl order::Keyed for MarkdownLivePreviewInlineMarker {
    open spec fn key(&self) -> (int, int) {
        (self.range.start as int, self.range.end as int)
    }

    fn is_before(&self, other: &Self) -> (r: bool) {
        self.range.start < other.range.start || (self.range.start == other.range.start
            && self.range.end < other.range.end)
    }
}

/// What is shown in place of a piece of inline syntax.
#[derive(Clone, Copy, Debug, Eq, PartialEq, Structural)]
pub enum MarkdownLivePreviewInlineMarkerKind {
    /// Syntax that is hidden entirely, such as emphasis delimiters or heading hashes.
    Hidden,
    /// An unordered list marker, rendered as a bullet.
    Bullet,
    /// A task list marker, rendered as a checkbox.
    TaskListMarker { checked: bool },
    /// A block quote marker, rendered as a vertical bar.
    BlockQuote,
}

} // verus!
