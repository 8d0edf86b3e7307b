//! The root-level blocks of a document.
use crate::block_text;
use crate::event;
use crate::event::{
    CodeBlockKind, CodeBlockKindModel, EventModel, MarkdownEvent, MarkdownTag, RangedEvent,
    RangedModel, TagModel,
};
use crate::preview::{BlockModel, MarkdownLivePreviewBlock, MarkdownLivePreviewBlockKind};
use crate::scan;
use crate::span;
use pulldown_cmark::HeadingLevel;
use std::ops::Range;
use vstd::prelude::*;
use vstd::slice::slice_subrange;
use vstd::string::StringSliceAdditionalSpecFns;
use vstd::utf8::*;

verus! {

/// The number of a heading level.
pub open spec fn level_number(level: HeadingLevel) -> u8 {
    match level {
        HeadingLevel::H1 => 1,
        HeadingLevel::H2 => 2,
        HeadingLevel::H3 => 3,
        HeadingLevel::H4 => 4,
        HeadingLevel::H5 => 5,
        HeadingLevel::H6 => 6,
    }
}

/// The kind of block that an event shows its block to be.
pub open spec fn kind_of(event: EventModel) -> Option<MarkdownLivePreviewBlockKind> {
    match event {
        EventModel::Rule => Some(MarkdownLivePreviewBlockKind::Rule),
        EventModel::Start(TagModel::Paragraph) => Some(MarkdownLivePreviewBlockKind::Paragraph),
        EventModel::Start(TagModel::Heading { level, .. }) => Some(
            MarkdownLivePreviewBlockKind::Heading(level_number(level)),
        ),
        EventModel::Start(TagModel::List(_)) => Some(MarkdownLivePreviewBlockKind::List),
        EventModel::Start(TagModel::Item) => Some(MarkdownLivePreviewBlockKind::Item),
        EventModel::Start(TagModel::BlockQuote(_)) => Some(
            MarkdownLivePreviewBlockKind::BlockQuote,
        ),
        EventModel::Start(TagModel::CodeBlock { kind, .. }) => Some(
            MarkdownLivePreviewBlockKind::CodeBlock {
                is_indented: kind is Indented,
                is_mermaid: match kind {
                    CodeBlockKindModel::FencedLang(language) => scan::names_mermaid(
                        encode_utf8(language),
                    ),
                    _ => false,
                },
            },
        ),
        EventModel::Start(TagModel::Table(_)) => Some(MarkdownLivePreviewBlockKind::Table),
        _ => None,
    }
}

/// The kind of block that the first event shows that shows one.
pub open spec fn first_kind(events: Seq<RangedModel>) -> MarkdownLivePreviewBlockKind
    decreases events.len(),
{
    if events.len() == 0 {
        MarkdownLivePreviewBlockKind::Other
    } else {
        match kind_of(events[0].1) {
            Some(kind) => kind,
            None => first_kind(events.drop_first()),
        }
    }
}

/// Where the first image among the events leads.
pub open spec fn first_image(events: Seq<RangedModel>) -> Option<Seq<char>>
    decreases events.len(),
{
    if events.len() == 0 {
        None
    } else {
        match events[0].1 {
            EventModel::Start(TagModel::Image { dest_url, .. }) => Some(dest_url),
            _ => first_image(events.drop_first()),
        }
    }
}

/// The kind of a block: an image if it holds one, else what its first telling event shows.
pub open spec fn block_kind(events: Seq<RangedModel>) -> MarkdownLivePreviewBlockKind {
    if first_image(events) is Some {
        MarkdownLivePreviewBlockKind::Image
    } else {
        first_kind(events)
    }
}

/// The least start of the ranges of some events.
pub open spec fn min_start(events: Seq<RangedModel>) -> usize
    decreases events.len(),
{
    if events.len() <= 1 {
        events[0].0.start
    } else {
        let before = min_start(events.drop_last());
        if events.last().0.start < before {
            events.last().0.start
        } else {
            before
        }
    }
}

/// The greatest end of the ranges of some events.
pub open spec fn max_end(events: Seq<RangedModel>) -> usize
    decreases events.len(),
{
    if events.len() <= 1 {
        events[0].0.end
    } else {
        let before = max_end(events.drop_last());
        if events.last().0.end > before {
            events.last().0.end
        } else {
            before
        }
    }
}

/// The range of the source that a block's events span, up to `end` at least. A code block starts
/// with its line; other blocks are trimmed at both ends. `None` if there is no such range in the
/// source.
pub open spec fn block_range(b: Seq<u8>, events: Seq<RangedModel>, end: usize) -> Option<(int, int)> {
    let is_code = block_kind(events) is CodeBlock;
    let first = min_start(events) as int;
    let to = if max_end(events) > end {
        max_end(events) as int
    } else {
        end as int
    };
    if is_code && !span::is_slice(b, 0, first) {
        None
    } else {
        let from = if is_code {
            span::line_start(b, first)
        } else {
            first
        };
        if from < to && !span::is_slice(b, from, to) {
            None
        } else {
            Some(scan::preview_range(b, from, to, !is_code))
        }
    }
}

/// The block that the events between the marks of a root-level block make, which ends at `end` at
/// least. No block if nothing but white space is there; `None` if an event has no place in the
/// source.
pub open spec fn root_block(b: Seq<u8>, events: Seq<RangedModel>, end: usize) -> Option<
    Option<BlockModel>,
> {
    if events.len() == 0 {
        Some(None)
    } else {
        match block_range(b, events, end) {
            None => None,
            Some((from, to)) => if from >= to {
                Some(None)
            } else {
                match block_text::block_text(b, events, block_kind(events)) {
                    None => None,
                    Some(display_text) => Some(
                        Some(
                            BlockModel {
                                source_range: from as usize..to as usize,
                                replacement_range: from as usize..to as usize,
                                source: span::chars_of(b, from, to),
                                display_text,
                                image_destination: first_image(events),
                                kind: block_kind(events),
                            },
                        ),
                    ),
                }
            },
        }
    }
}

/// A block with the range of the indices of its events.
pub type RootBlock = (MarkdownLivePreviewBlock, Range<usize>);

/// The model of a [`RootBlock`].
pub type RootBlockModel = (BlockModel, Range<usize>);

/// The model of a list of root-level blocks.
pub open spec fn root_models(blocks: Seq<RootBlock>) -> Seq<RootBlockModel> {
    blocks.map_values(|block: RootBlock| (block.0@, block.1))
}

/// The blocks that have ended, and the index behind the mark that opened the one that is open.
pub struct BlockFlow {
    pub blocks: Seq<RootBlockModel>,
    pub open: Option<usize>,
}

/// With the event at `i`. `None` if an event of a block has no place in the source.
pub open spec fn block_step(b: Seq<u8>, events: Seq<RangedModel>, i: int, f: BlockFlow) -> Option<
    BlockFlow,
> {
    match (events[i].1, f.open) {
        (EventModel::RootStart, _) => Some(BlockFlow { open: Some((i + 1) as usize), ..f }),
        (EventModel::RootEnd(_), Some(start)) => match root_block(
            b,
            events.subrange(start as int, i),
            events[i].0.end,
        ) {
            Some(Some(block)) => Some(
                BlockFlow { blocks: f.blocks.push((block, start..i as usize)), open: None },
            ),
            Some(None) => Some(BlockFlow { open: None, ..f }),
            None => None,
        },
        _ => Some(f),
    }
}

/// The blocks of the first `n` events.
pub open spec fn block_flow(b: Seq<u8>, events: Seq<RangedModel>, n: int) -> Option<BlockFlow>
    decreases n,
{
    if n <= 0 {
        Some(BlockFlow { blocks: Seq::empty(), open: None })
    } else {
        match block_flow(b, events, n - 1) {
            Some(f) => block_step(b, events, n - 1, f),
            None => None,
        }
    }
}

/// A block before one that starts at `next_start`. If nothing but white space lies between the
/// two, the block is replaced up to the last character of it.
pub open spec fn with_replacement(b: Seq<u8>, block: BlockModel, next_start: usize) -> BlockModel {
    let end = block.source_range.end as int;
    if end < next_start && span::skip_white(b, end, next_start as int) == next_start {
        BlockModel {
            replacement_range: block.replacement_range.start..span::previous_start(
                b,
                next_start as int,
            ) as usize,
            ..block
        }
    } else {
        block
    }
}

/// Each block ends in the source where the next one starts, or before that.
pub open spec fn are_apart(b: Seq<u8>, blocks: Seq<RootBlockModel>) -> bool {
    forall|k: int|
        0 <= k && k + 1 < blocks.len() ==> span::is_slice(
            b,
            (#[trigger] blocks[k]).0.source_range.end as int,
            blocks[k + 1].0.source_range.start as int,
        )
}

/// The blocks with what is replaced of the white space between them.
pub open spec fn with_replacements(b: Seq<u8>, blocks: Seq<RootBlockModel>) -> Seq<RootBlockModel> {
    Seq::new(
        blocks.len(),
        |k: int|
            if k + 1 < blocks.len() {
                (
                    with_replacement(b, blocks[k].0, blocks[k + 1].0.source_range.start),
                    blocks[k].1,
                )
            } else {
                blocks[k]
            },
    )
}

/// The root-level blocks of a document. `None` if an event of a block has no place in the source.
pub open spec fn root_blocks(b: Seq<u8>, events: Seq<RangedModel>) -> Option<Seq<RootBlockModel>> {
    match block_flow(b, events, events.len() as int) {
        Some(f) => if are_apart(b, f.blocks) {
            Some(with_replacements(b, f.blocks))
        } else {
            None
        },
        None => None,
    }
}

/// The blocks come from ranges of the first `n` events.
pub open spec fn come_from(blocks: Seq<RootBlockModel>, n: int) -> bool {
    forall|k: int|
        0 <= k < blocks.len() ==> (#[trigger] blocks[k]).1.start <= blocks[k].1.end <= n
}

proof fn lemma_blocks_come_from(b: Seq<u8>, events: Seq<RangedModel>, n: int)
    requires
        0 <= n <= events.len() <= usize::MAX,
        block_flow(b, events, n) is Some,
    ensures
        come_from((block_flow(b, events, n)->0).blocks, n),
        (block_flow(b, events, n)->0).open matches Some(start) ==> start <= n,
    decreases n,
{
    if n > 0 {
        lemma_blocks_come_from(b, events, n - 1);
    }
}

/// Each root-level block comes from a range of the events.
pub proof fn lemma_root_blocks_come_from(b: Seq<u8>, events: Seq<RangedModel>)
    requires
        events.len() <= usize::MAX,
        root_blocks(b, events) is Some,
    ensures
        come_from(root_blocks(b, events)->0, events.len() as int),
{
    lemma_blocks_come_from(b, events, events.len() as int);
    let f = block_flow(b, events, events.len() as int)->0;
    assert forall|k: int| 0 <= k < f.blocks.len() implies (#[trigger] with_replacements(
        b,
        f.blocks,
    )[k]).1 == f.blocks[k].1 by {}
}

/// Where the first image leads: see [`first_image`].
fn live_preview_block_image_destination(events: &[RangedEvent]) -> (r: Option<String>)
    ensures
        event::optional_chars(r) == first_image(event::models(events@)),
{
    let ghost models = event::models(events@);
    let mut i: usize = 0;
    assert(models.skip(0) =~= models);
    while i < events.len()
        invariant
            i <= events@.len(),
            models == event::models(events@),
            first_image(models) == first_image(models.skip(i as int)),
        decreases events@.len() - i,
    {
        proof {
            assert(models.skip(i as int)[0] == event::ranged_model(events@[i as int]));
            assert(models.skip(i as int).drop_first() =~= models.skip(i + 1));
        }
        if let MarkdownEvent::Start(MarkdownTag::Image { dest_url, .. }) = &events[i].1 {
            return Some(dest_url.clone());
        }
        i += 1;
    }
    None
}

/// The kind of block that an event shows: see [`kind_of`].
fn kind_shown(event: &MarkdownEvent) -> (r: Option<MarkdownLivePreviewBlockKind>)
    ensures
        r == kind_of(event@),
{
    match event {
        MarkdownEvent::Rule => Some(MarkdownLivePreviewBlockKind::Rule),
        MarkdownEvent::Start(tag) => match tag {
            MarkdownTag::Paragraph => Some(MarkdownLivePreviewBlockKind::Paragraph),
            MarkdownTag::Heading { level, .. } => Some(
                MarkdownLivePreviewBlockKind::Heading(
                    match level {
                        HeadingLevel::H1 => 1,
                        HeadingLevel::H2 => 2,
                        HeadingLevel::H3 => 3,
                        HeadingLevel::H4 => 4,
                        HeadingLevel::H5 => 5,
                        HeadingLevel::H6 => 6,
                    },
                ),
            ),
            MarkdownTag::List(_) => Some(MarkdownLivePreviewBlockKind::List),
            MarkdownTag::Item => Some(MarkdownLivePreviewBlockKind::Item),
            MarkdownTag::BlockQuote(_) => Some(MarkdownLivePreviewBlockKind::BlockQuote),
            MarkdownTag::CodeBlock { kind, .. } => {
                let is_indented = match kind {
                    CodeBlockKind::Indented => true,
                    _ => false,
                };
                let is_mermaid = match kind {
                    CodeBlockKind::FencedLang(language) => scan::is_mermaid_code_block_language(
                        language.as_str(),
                    ),
                    _ => false,
                };
                Some(MarkdownLivePreviewBlockKind::CodeBlock { is_indented, is_mermaid })
            },
            MarkdownTag::Table(_) => Some(MarkdownLivePreviewBlockKind::Table),
            _ => None,
        },
        _ => None,
    }
}

/// The kind of a block: see [`block_kind`].
fn live_preview_block_kind(events: &[RangedEvent]) -> (r: MarkdownLivePreviewBlockKind)
    ensures
        r == block_kind(event::models(events@)),
{
    let ghost models = event::models(events@);
    if live_preview_block_image_destination(events).is_some() {
        return MarkdownLivePreviewBlockKind::Image;
    }
    let mut i: usize = 0;
    assert(models.skip(0) =~= models);
    while i < events.len()
        invariant
            i <= events@.len(),
            models == event::models(events@),
            first_image(models) is None,
            first_kind(models) == first_kind(models.skip(i as int)),
        decreases events@.len() - i,
    {
        proof {
            assert(models.skip(i as int)[0] == event::ranged_model(events@[i as int]));
            assert(models.skip(i as int).drop_first() =~= models.skip(i + 1));
        }
        if let Some(kind) = kind_shown(&events[i].1) {
            return kind;
        }
        i += 1;
    }
    MarkdownLivePreviewBlockKind::Other
}

/// The least start and the greatest end of the ranges of some events.
pub fn extent(events: &[RangedEvent]) -> (r: (usize, usize))
    requires
        events@.len() > 0,
    ensures
        r.0 == min_start(event::models(events@)),
        r.1 == max_end(event::models(events@)),
{
    let ghost models = event::models(events@);
    let mut start: usize = events[0].0.start;
    let mut end: usize = events[0].0.end;
    let mut i: usize = 1;
    proof {
        assert(models.take(1)[0] == event::ranged_model(events@[0]));
    }
    while i < events.len()
        invariant
            1 <= i <= events@.len(),
            models == event::models(events@),
            start == min_start(models.take(i as int)),
            end == max_end(models.take(i as int)),
        decreases events@.len() - i,
    {
        proof {
            assert(models.take(i + 1).drop_last() =~= models.take(i as int));
            assert(models[i as int] == event::ranged_model(events@[i as int]));
        }
        if events[i].0.start < start {
            start = events[i].0.start;
        }
        if events[i].0.end > end {
            end = events[i].0.end;
        }
        i += 1;
    }
    assert(models.take(models.len() as int) =~= models);
    (start, end)
}

/// The range of a block: see [`block_range`].
fn live_preview_block_range(
    text: &str,
    events: &[RangedEvent],
    end: usize,
    kind: MarkdownLivePreviewBlockKind,
) -> (r: Option<Range<usize>>)
    requires
        events@.len() > 0,
        kind == block_kind(event::models(events@)),
    ensures
        match block_range(text.spec_bytes(), event::models(events@), end) {
            Some((from, to)) => r matches Some(range) && range.start == from && range.end == to && (
            from < to ==> span::is_slice(text.spec_bytes(), from, to)),
            None => r is None,
        },
{
    let (first, last) = extent(events);
    let to = if last > end {
        last
    } else {
        end
    };
    let from = if kind.is_code_block() {
        if !span::can_slice(text, 0, first) {
            return None;
        }
        scan::live_preview_line_start(text, first)
    } else {
        first
    };
    if from < to && !span::can_slice(text, from, to) {
        return None;
    }
    Some(scan::trim_live_preview_source_range(text, from..to, !kind.is_code_block()))
}

/// The result of a block agrees with its model.
spec fn block_agrees(
    r: Option<Option<MarkdownLivePreviewBlock>>,
    expected: Option<Option<BlockModel>>,
) -> bool {
    match expected {
        Some(Some(block)) => r is Some && r->0 is Some && (r->0)->0@ == block,
        Some(None) => r is Some && r->0 is None,
        None => r is None,
    }
}

/// The block that some events make: see [`root_block`].
fn live_preview_root_block(text: &str, events: &[RangedEvent], end: usize) -> (r: Option<
    Option<MarkdownLivePreviewBlock>,
>)
    ensures
        block_agrees(r, root_block(text.spec_bytes(), event::models(events@), end)),
{
    if events.len() == 0 {
        return Some(None);
    }
    let kind = live_preview_block_kind(events);
    match live_preview_block_range(text, events, end, kind) {
        None => None,
        Some(range) => {
            if range.start >= range.end {
                return Some(None);
            }
            match block_text::live_preview_block_text(text, events, kind) {
                None => None,
                Some(display_text) => Some(
                    Some(
                        MarkdownLivePreviewBlock {
                            source_range: range.start..range.end,
                            replacement_range: range.start..range.end,
                            source: span::slice(text, range.start, range.end).to_owned(),
                            display_text,
                            image_destination: live_preview_block_image_destination(events),
                            kind,
                        },
                    ),
                ),
            }
        },
    }
}

proof fn lemma_block_flow_none(b: Seq<u8>, events: Seq<RangedModel>, i: int, n: int)
    requires
        0 <= i <= n,
        block_flow(b, events, i) is None,
    ensures
        block_flow(b, events, n) is None,
    decreases n - i,
{
    if i < n {
        lemma_block_flow_none(b, events, i, n - 1);
    }
}

/// The blocks, before what is replaced between them is known.
fn collect_root_blocks(text: &str, events: &Vec<RangedEvent>) -> (r: Option<Vec<RootBlock>>)
    ensures
        match block_flow(text.spec_bytes(), event::models(events@), events@.len() as int) {
            Some(f) => r is Some && root_models(r->0@) == f.blocks,
            None => r is None,
        },
{
    let ghost b = text.spec_bytes();
    let ghost models = event::models(events@);
    let mut blocks: Vec<RootBlock> = Vec::new();
    let mut open: Option<usize> = None;
    assert(root_models(blocks@) =~= Seq::empty());
    for i in 0..events.len()
        invariant
            b == text.spec_bytes(),
            models == event::models(events@),
            open matches Some(start) ==> start <= i,
            block_flow(b, models, i as int) == Some(
                BlockFlow { blocks: root_models(blocks@), open },
            ),
    {
        proof {
            assert(models[i as int] == event::ranged_model(events@[i as int]));
        }
        match &events[i].1 {
            MarkdownEvent::RootStart => {
                open = Some(i + 1);
            },
            MarkdownEvent::RootEnd(_) => {
                if let Some(start) = open.take() {
                    let inner = slice_subrange(events.as_slice(), start, i);
                    assert(event::models(inner@) =~= models.subrange(start as int, i as int));
                    match live_preview_root_block(text, inner, events[i].0.end) {
                        Some(Some(block)) => {
                            let root = (block, start..i);
                            assert(root_models(blocks@.push(root)) =~= root_models(blocks@).push(
                                (block@, start..i),
                            ));
                            blocks.push(root);
                        },
                        Some(None) => {},
                        None => {
                            proof {
                                lemma_block_flow_none(b, models, i + 1, models.len() as int);
                            }
                            return None;
                        },
                    }
                }
            },
            _ => {},
        }
    }
    Some(blocks)
}

/// The last character of a stretch of white space between two blocks, if there is nothing else
/// between them.
fn last_separator_start(text: &str, end: usize, next_start: usize) -> (r: Option<usize>)
    requires
        span::is_slice(text.spec_bytes(), end as int, next_start as int),
    ensures
        r == (if end < next_start && span::skip_white(
            text.spec_bytes(),
            end as int,
            next_start as int,
        ) == next_start {
            Some(span::previous_start(text.spec_bytes(), next_start as int) as usize)
        } else {
            None
        }),
{
    proof {
        span::lemma_str_bytes(text);
    }
    let bytes = text.as_bytes();
    if end < next_start && span::trim_start_at(bytes, end, next_start) == next_start {
        Some(span::start_before(bytes, next_start))
    } else {
        None
    }
}

/// Splits the document into root-level blocks: see [`root_blocks`]. Each block is paired with the
/// range of indices of the events that produced it. `None` if an event of a block has no place in
/// the text.
pub fn live_preview_root_blocks(text: &str, events: &Vec<RangedEvent>) -> (r: Option<Vec<RootBlock>>)
    ensures
        match root_blocks(text.spec_bytes(), event::models(events@)) {
            Some(blocks) => r is Some && root_models(r->0@) == blocks,
            None => r is None,
        },
{
    let ghost b = text.spec_bytes();
    let mut blocks = match collect_root_blocks(text, events) {
        Some(blocks) => blocks,
        None => {
            return None;
        },
    };
    let ghost plain = root_models(blocks@);
    let ghost whole = with_replacements(b, plain);
    let mut k: usize = 0;
    while k < blocks.len() && blocks.len() - k > 1
        invariant
            k <= blocks@.len(),
            b == text.spec_bytes(),
            root_blocks(b, event::models(events@)) == (if are_apart(b, plain) {
                Some(whole)
            } else {
                None
            }),
            whole == with_replacements(b, plain),
            root_models(blocks@).len() == plain.len(),
            k > 0 ==> k < plain.len(),
            forall|j: int|
                0 <= j < plain.len() ==> #[trigger] root_models(blocks@)[j] == (if j < k {
                    whole[j]
                } else {
                    plain[j]
                }),
            forall|j: int|
                0 <= j < k ==> span::is_slice(
                    b,
                    (#[trigger] plain[j]).0.source_range.end as int,
                    plain[j + 1].0.source_range.start as int,
                ),
        decreases blocks@.len() - k,
    {
        let ghost before = root_models(blocks@);
        proof {
            assert(before[k as int] == plain[k as int]);
            assert(before[k + 1] == plain[k + 1]);
        }
        let end = blocks[k].0.source_range.end;
        let next_start = blocks[k + 1].0.source_range.start;
        if !span::can_slice(text, end, next_start) {
            assert(!are_apart(b, plain)) by {
                assert(plain[k as int].0.source_range.end == end);
            }
            return None;
        }
        if let Some(last) = last_separator_start(text, end, next_start) {
            let (block, indices) = &blocks[k];
            let mut block = block.clone();
            block.replacement_range = block.replacement_range.start..last;
            let indices = indices.start..indices.end;
            blocks.set(k, (block, indices));
        }
        proof {
            assert(root_models(blocks@)[k as int] == whole[k as int]);
            assert forall|j: int| 0 <= j < plain.len() && j != k implies #[trigger] root_models(
                blocks@,
            )[j] == before[j] by {}
        }
        k += 1;
    }
    proof {
        assert(are_apart(b, plain));
        assert(root_models(blocks@) =~= whole);
    }
    Some(blocks)
}

/// The block shows a range of the source that is not empty, and is replaced from its start on and
/// to its end at least.
pub open spec fn is_sound(b: Seq<u8>, block: BlockModel) -> bool {
    let source = block.source_range;
    &&& source.start < source.end
    &&& span::is_slice(b, source.start as int, source.end as int)
    &&& block.source == span::chars_of(b, source.start as int, source.end as int)
    &&& block.replacement_range.start == source.start
    &&& source.end <= block.replacement_range.end
}

proof fn lemma_block_range(b: Seq<u8>, events: Seq<RangedModel>, end: usize)
    requires
        valid_utf8(b),
        b.len() <= usize::MAX,
    ensures
        block_range(b, events, end) matches Some((from, to)) ==> from < to ==> span::is_slice(
            b,
            from,
            to,
        ),
{
    let is_code = block_kind(events) is CodeBlock;
    let first = min_start(events) as int;
    let to = if max_end(events) > end {
        max_end(events) as int
    } else {
        end as int
    };
    let from = if is_code {
        span::line_start(b, first)
    } else {
        first
    };
    if from < to && span::is_slice(b, from, to) {
        span::lemma_skip_white(b, from, to);
        let start = if is_code {
            from
        } else {
            span::skip_white(b, from, to)
        };
        span::lemma_skip_white_back(b, start, to);
    }
}

/// Before what is replaced between them is known, blocks are sound and replaced as they stand.
pub proof fn lemma_blocks_are_sound(b: Seq<u8>, events: Seq<RangedModel>, n: int)
    requires
        valid_utf8(b),
        b.len() <= usize::MAX,
        0 <= n <= events.len(),
        block_flow(b, events, n) is Some,
    ensures
        forall|k: int|
            0 <= k < (block_flow(b, events, n)->0).blocks.len() ==> is_sound(
                b,
                (#[trigger] (block_flow(b, events, n)->0).blocks[k]).0,
            ) && (block_flow(b, events, n)->0).blocks[k].0.replacement_range.end == (block_flow(
                b,
                events,
                n,
            )->0).blocks[k].0.source_range.end,
    decreases n,
{
    if n > 0 {
        lemma_blocks_are_sound(b, events, n - 1);
        let f = block_flow(b, events, n - 1)->0;
        if let Some(start) = f.open {
            lemma_block_range(b, events.subrange(start as int, n - 1), events[n - 1].0.end);
        }
    }
}

/// Every root-level block shows a range of the source that is not empty, as it stands there. It is
/// replaced from its start on, to its end at least. It reaches no further than the start of the
/// next block, and leaves the last character between the two alone.
pub proof fn law_blocks_are_apart(b: Seq<u8>, events: Seq<RangedModel>)
    requires
        valid_utf8(b),
        b.len() <= usize::MAX,
        root_blocks(b, events) is Some,
    ensures
        ({
            let blocks = root_blocks(b, events)->0;
            &&& forall|k: int| 0 <= k < blocks.len() ==> is_sound(b, (#[trigger] blocks[k]).0)
            &&& forall|k: int|
                0 <= k && k + 1 < blocks.len() ==> {
                    let end = (#[trigger] blocks[k]).0.replacement_range.end;
                    let next_start = blocks[k + 1].0.source_range.start;
                    &&& end <= next_start
                    &&& blocks[k].0.source_range.end < next_start ==> end < next_start
                }
        }),
{
    lemma_blocks_are_sound(b, events, events.len() as int);
    let plain = (block_flow(b, events, events.len() as int)->0).blocks;
    let blocks = root_blocks(b, events)->0;
    assert forall|k: int| 0 <= k < blocks.len() implies is_sound(b, (#[trigger] blocks[k]).0) && (
    k + 1 < blocks.len() ==> {
        let end = blocks[k].0.replacement_range.end;
        let next_start = blocks[k + 1].0.source_range.start;
        &&& end <= next_start
        &&& blocks[k].0.source_range.end < next_start ==> end < next_start
    }) by {
        assert(is_sound(b, plain[k].0));
        if k + 1 < blocks.len() {
            assert(blocks[k + 1].0.source_range == plain[k + 1].0.source_range);
            let end = plain[k].0.source_range.end as int;
            let next_start = plain[k + 1].0.source_range.start as int;
            assert(span::is_slice(b, end, next_start));
            if end < next_start {
                span::lemma_previous_scalar(b, next_start);
                if span::previous_start(b, next_start) < end {
                    assert(is_continuation_byte(b[end]));
                }
            }
        }
    }
}

/// What the ends of the ranges of some events are bounded by.
pub proof fn lemma_extent(events: Seq<RangedModel>, lo: int, hi: int)
    requires
        events.len() > 0,
        forall|i: int|
            0 <= i < events.len() ==> lo <= (#[trigger] events[i]).0.start && events[i].0.start
                <= events[i].0.end && events[i].0.end <= hi,
    ensures
        lo <= min_start(events) <= hi,
        lo <= max_end(events) <= hi,
    decreases events.len(),
{
    let last = events[events.len() - 1];
    if events.len() > 1 {
        assert forall|i: int| 0 <= i < events.drop_last().len() implies lo <= (
        #[trigger] events.drop_last()[i]).0.start && events.drop_last()[i].0.start
            <= events.drop_last()[i].0.end && events.drop_last()[i].0.end <= hi by {
            assert(events.drop_last()[i] == events[i]);
        }
        lemma_extent(events.drop_last(), lo, hi);
    }
}

} // verus!
