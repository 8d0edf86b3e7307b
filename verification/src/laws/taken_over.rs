//! What is taken over from the parser as it is, and what the models of events stand for.
use crate::cmark;
use crate::cmark::{SourceModel, SourceTagModel};
use crate::event;
use crate::event::{
    CodeBlockKind, CodeBlockKindModel, EventModel, MarkdownEvent, MarkdownTag, TagModel,
};
use pulldown_cmark::CodeBlockKind as Fencing;
use pulldown_cmark::{Event, Tag};
use vstd::prelude::*;

verus! {

/// The tag is called the same as the parser's tag.
pub open spec fn is_the_same_tag(model: TagModel, tag: Tag<'_>) -> bool {
    match model {
        TagModel::Paragraph => tag is Paragraph,
        TagModel::Heading { .. } => tag is Heading,
        TagModel::BlockQuote(_) => tag is BlockQuote,
        TagModel::CodeBlock { .. } => tag is CodeBlock,
        TagModel::HtmlBlock => tag is HtmlBlock,
        TagModel::List(_) => tag is List,
        TagModel::Item => tag is Item,
        TagModel::FootnoteDefinition(_) => tag is FootnoteDefinition,
        TagModel::Table(_) => tag is Table,
        TagModel::TableHead => tag is TableHead,
        TagModel::TableRow => tag is TableRow,
        TagModel::TableCell => tag is TableCell,
        TagModel::Emphasis => tag is Emphasis,
        TagModel::Strong => tag is Strong,
        TagModel::Strikethrough => tag is Strikethrough,
        TagModel::Superscript => tag is Superscript,
        TagModel::Subscript => tag is Subscript,
        TagModel::Link { .. } => tag is Link,
        TagModel::Image { .. } => tag is Image,
        TagModel::MetadataBlock(_) => tag is MetadataBlock,
        TagModel::DefinitionList => tag is DefinitionList,
        TagModel::DefinitionListTitle => tag is DefinitionListTitle,
        TagModel::DefinitionListDefinition => tag is DefinitionListDefinition,
    }
}

/// Each tag of the parser is taken over as the one of its name, and a code block with its info
/// string.
pub proof fn law_tags_keep_their_names(tag: Tag<'_>)
    ensures
        match cmark::tag_model(tag) {
            SourceTagModel::IndentedCode => tag matches Tag::CodeBlock(Fencing::Indented),
            SourceTagModel::FencedCode(info) => tag matches Tag::CodeBlock(Fencing::Fenced(text))
                && info == cmark::cow_chars(text),
            SourceTagModel::Plain(model) => !(tag is CodeBlock) && is_the_same_tag(model, tag),
        },
{
}

/// The tags of the parser are taken over with what they hold.
pub proof fn law_tags_keep_what_they_hold(tag: Tag<'_>)
    ensures
        tag matches Tag::Heading { level, id, classes, attrs } ==> (cmark::tag_model(tag) matches
            SourceTagModel::Plain(TagModel::Heading { level: l, id: i, classes: c, attrs: a }) && l
            == level && c.len() == classes@.len() && a.len() == attrs@.len() && (i is Some) == (id
            is Some) && (id matches Some(id) ==> i == Some(cmark::cow_chars(id))) && (forall|k: int|
            0 <= k < c.len() ==> #[trigger] c[k] == cmark::cow_chars(classes@[k])) && (forall|k:
            int|
            0 <= k < a.len() ==> (#[trigger] a[k]).0 == cmark::cow_chars(attrs@[k].0) && a[k].1
                == cmark::optional_cow_chars(attrs@[k].1))),
        tag matches Tag::BlockQuote(kind) ==> cmark::tag_model(tag) == SourceTagModel::Plain(
            TagModel::BlockQuote(kind),
        ),
        tag matches Tag::List(start) ==> cmark::tag_model(tag) == SourceTagModel::Plain(
            TagModel::List(start),
        ),
        tag matches Tag::FootnoteDefinition(label) ==> cmark::tag_model(tag)
            == SourceTagModel::Plain(TagModel::FootnoteDefinition(cmark::cow_chars(label))),
        tag matches Tag::Table(alignments) ==> cmark::tag_model(tag) == SourceTagModel::Plain(
            TagModel::Table(alignments@),
        ),
        tag matches Tag::MetadataBlock(kind) ==> cmark::tag_model(tag) == SourceTagModel::Plain(
            TagModel::MetadataBlock(kind),
        ),
        tag matches Tag::Link { link_type, dest_url, title, id } ==> (cmark::tag_model(
            tag,
        ) matches SourceTagModel::Plain(
            TagModel::Link { link_type: l, dest_url: d, title: t, id: i },
        ) && l == link_type && d == cmark::cow_chars(dest_url) && t == cmark::cow_chars(title) && i
            == cmark::cow_chars(id)),
        tag matches Tag::Image { link_type, dest_url, title, id } ==> (cmark::tag_model(
            tag,
        ) matches SourceTagModel::Plain(
            TagModel::Image { link_type: l, dest_url: d, title: t, id: i },
        ) && l == link_type && d == cmark::cow_chars(dest_url) && t == cmark::cow_chars(title) && i
            == cmark::cow_chars(id)),
{
}

/// Each event of the parser is taken over as the one of its name, with what it holds; both kinds of
/// math are one.
pub proof fn law_events_keep_their_names(event: Event<'_>)
    ensures
        match cmark::event_model(event) {
            SourceModel::Start(model) => event matches Event::Start(tag) && model
                == cmark::tag_model(tag),
            SourceModel::End(model) => event matches Event::End(tag) && model == tag,
            SourceModel::Text(chars) => event matches Event::Text(text) && chars
                == cmark::cow_chars(text),
            SourceModel::Code(chars) => event matches Event::Code(text) && chars
                == cmark::cow_chars(text),
            SourceModel::Math => event is InlineMath || event is DisplayMath,
            SourceModel::Html => event is Html,
            SourceModel::InlineHtml(chars) => event matches Event::InlineHtml(text) && chars
                == cmark::cow_chars(text),
            SourceModel::FootnoteReference(chars) => event matches Event::FootnoteReference(text)
                && chars == cmark::cow_chars(text),
            SourceModel::SoftBreak => event is SoftBreak,
            SourceModel::HardBreak => event is HardBreak,
            SourceModel::Rule => event is Rule,
            SourceModel::TaskListMarker(model) => event matches Event::TaskListMarker(checked)
                && model == checked,
        },
{
}

/// The model of a tag is the one of its name, with what it holds.
pub proof fn law_models_of_tags_keep_their_names(tag: MarkdownTag)
    ensures
        match tag@ {
            TagModel::Paragraph => tag is Paragraph,
            TagModel::Heading { level, id, classes, attrs } => tag matches MarkdownTag::Heading {
                level: l,
                id: i,
                classes: c,
                attrs: a,
            } && level == l && id == event::optional_chars(i) && classes.len() == c@.len()
                && attrs.len() == a@.len() && (forall|k: int|
                0 <= k < classes.len() ==> #[trigger] classes[k] == c@[k]@) && (forall|k: int|
                0 <= k < attrs.len() ==> (#[trigger] attrs[k]).0 == a@[k].0@ && attrs[k].1
                    == event::optional_chars(a@[k].1)),
            TagModel::BlockQuote(kind) => tag matches MarkdownTag::BlockQuote(k) && k == kind,
            TagModel::CodeBlock { kind, metadata } => tag matches MarkdownTag::CodeBlock {
                kind: k,
                metadata: m,
            } && kind == k@ && metadata == m,
            TagModel::HtmlBlock => tag is HtmlBlock,
            TagModel::List(start) => tag matches MarkdownTag::List(s) && s == start,
            TagModel::Item => tag is Item,
            TagModel::FootnoteDefinition(label) => tag matches MarkdownTag::FootnoteDefinition(l)
                && l@ == label,
            TagModel::Table(alignments) => tag matches MarkdownTag::Table(a) && a@ == alignments,
            TagModel::TableHead => tag is TableHead,
            TagModel::TableRow => tag is TableRow,
            TagModel::TableCell => tag is TableCell,
            TagModel::Emphasis => tag is Emphasis,
            TagModel::Strong => tag is Strong,
            TagModel::Strikethrough => tag is Strikethrough,
            TagModel::Superscript => tag is Superscript,
            TagModel::Subscript => tag is Subscript,
            TagModel::Link { link_type, dest_url, title, id } => tag matches MarkdownTag::Link {
                link_type: l,
                dest_url: d,
                title: t,
                id: i,
            } && link_type == l && dest_url == d@ && title == t@ && id == i@,
            TagModel::Image { link_type, dest_url, title, id } => tag matches MarkdownTag::Image {
                link_type: l,
                dest_url: d,
                title: t,
                id: i,
            } && link_type == l && dest_url == d@ && title == t@ && id == i@,
            TagModel::MetadataBlock(kind) => tag matches MarkdownTag::MetadataBlock(k) && k == kind,
            TagModel::DefinitionList => tag is DefinitionList,
            TagModel::DefinitionListTitle => tag is DefinitionListTitle,
            TagModel::DefinitionListDefinition => tag is DefinitionListDefinition,
        },
{
}

/// The model of a code block's kind is the one of its name, with what it holds.
pub proof fn law_models_of_code_keep_their_names(kind: CodeBlockKind)
    ensures
        match kind@ {
            CodeBlockKindModel::Indented => kind is Indented,
            CodeBlockKindModel::Fenced => kind is Fenced,
            CodeBlockKindModel::FencedLang(language) => kind matches CodeBlockKind::FencedLang(l)
                && l@ == language,
            CodeBlockKindModel::FencedSrc(location) => kind matches CodeBlockKind::FencedSrc(l)
                && l@ == location,
        },
{
}

/// The model of an event is the one of its name, with what it holds.
pub proof fn law_models_of_events_keep_their_names(event: MarkdownEvent)
    ensures
        match event@ {
            EventModel::Start(model) => event matches MarkdownEvent::Start(tag) && tag@ == model,
            EventModel::End(model) => event matches MarkdownEvent::End(tag) && tag == model,
            EventModel::Text => event is Text,
            EventModel::SubstitutedText(text) => event matches MarkdownEvent::SubstitutedText(s)
                && s@ == text,
            EventModel::Code => event is Code,
            EventModel::SubstitutedCode(code) => event matches MarkdownEvent::SubstitutedCode(s)
                && s@ == code,
            EventModel::Html => event is Html,
            EventModel::InlineHtml => event is InlineHtml,
            EventModel::FootnoteReference(label) => event matches MarkdownEvent::FootnoteReference(
                s,
            ) && s@ == label,
            EventModel::SoftBreak => event is SoftBreak,
            EventModel::HardBreak => event is HardBreak,
            EventModel::Rule => event is Rule,
            EventModel::TaskListMarker(checked) => event matches MarkdownEvent::TaskListMarker(c)
                && c == checked,
            EventModel::RootStart => event is RootStart,
            EventModel::RootEnd(index) => event matches MarkdownEvent::RootEnd(i) && i == index,
        },
{
}

} // verus!
