//! The live preview of a document.
use crate::blocks;
use crate::blocks::{RootBlock, RootBlockModel};
use crate::event;
use crate::event::{RangedEvent, RangedModel};
use crate::markers;
use crate::order;
use crate::parse;
use crate::preview;
use crate::preview::{
    BlockModel, MarkdownLivePreviewBlock, MarkdownLivePreviewInlineMarker as Marker,
    MarkdownLivePreviewLayout,
};
use vstd::prelude::*;
use vstd::slice::slice_subrange;
use vstd::string::StringSliceAdditionalSpecFns;

verus! {

/// The model of a list of blocks.
pub open spec fn block_models(blocks: Seq<MarkdownLivePreviewBlock>) -> Seq<BlockModel> {
    blocks.map_values(|block: MarkdownLivePreviewBlock| block@)
}

/// The blocks without the indices of their events.
pub open spec fn plain_blocks(blocks: Seq<RootBlockModel>) -> Seq<BlockModel> {
    blocks.map_values(|block: RootBlockModel| block.0)
}

/// The blocks that are replaced as a whole.
pub open spec fn rich_blocks(blocks: Seq<RootBlockModel>) -> Seq<BlockModel>
    decreases blocks.len(),
{
    if blocks.len() == 0 {
        Seq::empty()
    } else if preview::rich(blocks.last().0.kind) {
        rich_blocks(blocks.drop_last()).push(blocks.last().0)
    } else {
        rich_blocks(blocks.drop_last())
    }
}

/// The markers of the blocks that are not replaced as a whole. `None` if an event has no place in
/// the source.
pub open spec fn inline_markers(
    b: Seq<u8>,
    events: Seq<RangedModel>,
    blocks: Seq<RootBlockModel>,
) -> Option<Seq<Marker>>
    decreases blocks.len(),
{
    if blocks.len() == 0 {
        Some(Seq::empty())
    } else {
        let (block, indices) = blocks.last();
        match inline_markers(b, events, blocks.drop_last()) {
            None => None,
            Some(before) => if preview::rich(block.kind) {
                Some(before)
            } else {
                match markers::block_markers(
                    b,
                    events.subrange(indices.start as int, indices.end as int),
                ) {
                    Some(found) => Some(before + found),
                    None => None,
                }
            },
        }
    }
}

/// The markers without those that are empty or start before the end of the last one kept.
pub open spec fn deduplicated(markers: Seq<Marker>) -> Seq<Marker>
    decreases markers.len(),
{
    if markers.len() == 0 {
        Seq::empty()
    } else {
        let before = deduplicated(markers.drop_last());
        let marker = markers.last();
        if marker.range.start >= marker.range.end {
            before
        } else if before.len() > 0 && marker.range.start < before.last().range.end {
            before
        } else {
            before.push(marker)
        }
    }
}

/// The model of a [`MarkdownLivePreviewLayout`].
pub struct LayoutModel {
    pub blocks: Seq<BlockModel>,
    pub inline_markers: Seq<Marker>,
}

impl View for MarkdownLivePreviewLayout {
    type V = LayoutModel;

    open spec fn view(&self) -> LayoutModel {
        LayoutModel { blocks: block_models(self.blocks@), inline_markers: self.inline_markers@ }
    }
}

impl Clone for MarkdownLivePreviewLayout {
    fn clone(&self) -> (r: Self)
        ensures
            r@ == self@,
    {
        let mut blocks: Vec<MarkdownLivePreviewBlock> = Vec::new();
        for i in 0..self.blocks.len()
            invariant
                block_models(blocks@) == block_models(self.blocks@).take(i as int),
        {
            let ghost before = blocks@;
            let block = self.blocks[i].clone();
            blocks.push(block);
            assert(block_models(blocks@) =~= block_models(before).push(block@));
            assert(block_models(self.blocks@).take(i + 1) =~= block_models(before).push(block@));
        }
        let mut inline_markers: Vec<Marker> = Vec::new();
        for i in 0..self.inline_markers.len()
            invariant
                inline_markers@ == self.inline_markers@.take(i as int),
        {
            inline_markers.push(self.inline_markers[i].clone());
            assert(inline_markers@ =~= self.inline_markers@.take(i + 1));
        }
        assert(block_models(self.blocks@).take(self.blocks@.len() as int) =~= block_models(
            self.blocks@,
        ));
        assert(self.inline_markers@.take(self.inline_markers@.len() as int)
            =~= self.inline_markers@);
        MarkdownLivePreviewLayout { blocks, inline_markers }
    }
}

/// The live preview of a document with these events: the blocks that are replaced as a whole, and
/// the markers of the others in the order in which they stand. `None` if an event has no place in
/// the source.
pub open spec fn layout(b: Seq<u8>, events: Seq<RangedModel>) -> Option<LayoutModel> {
    match blocks::root_blocks(b, events) {
        None => None,
        Some(blocks) => match inline_markers(b, events, blocks) {
            None => None,
            Some(markers) => Some(
                LayoutModel {
                    blocks: rich_blocks(blocks),
                    inline_markers: deduplicated(order::sorted(markers)),
                },
            ),
        },
    }
}

/// The events of a text, as a live preview shows them.
pub open spec fn preview_events(text: &str) -> Option<Seq<RangedModel>> {
    match parse::parsed(text, false, false, false, Seq::empty()) {
        Some(document) => Some(document.events),
        None => None,
    }
}

/// The blocks of a text. `None` if an event of the parser has no place in it.
pub open spec fn preview_blocks(text: &str) -> Option<Seq<BlockModel>> {
    match preview_events(text) {
        Some(events) => match blocks::root_blocks(text.spec_bytes(), events) {
            Some(blocks) => Some(plain_blocks(blocks)),
            None => None,
        },
        None => None,
    }
}

/// The live preview of a text. `None` if an event of the parser has no place in it.
pub open spec fn preview_layout(text: &str) -> Option<LayoutModel> {
    match preview_events(text) {
        Some(events) => layout(text.spec_bytes(), events),
        None => None,
    }
}

proof fn lemma_inline_markers_none(
    b: Seq<u8>,
    events: Seq<RangedModel>,
    blocks: Seq<RootBlockModel>,
    i: int,
)
    requires
        0 <= i <= blocks.len(),
        inline_markers(b, events, blocks.take(i)) is None,
    ensures
        inline_markers(b, events, blocks) is None,
    decreases blocks.len() - i,
{
    if i < blocks.len() {
        assert(blocks.take(i + 1).drop_last() =~= blocks.take(i));
        lemma_inline_markers_none(b, events, blocks, i + 1);
    } else {
        assert(blocks.take(i) =~= blocks);
    }
}

/// Collects the markers of the blocks that are not replaced: see [`inline_markers`].
fn collect_markers(text: &str, events: &Vec<RangedEvent>, roots: &Vec<RootBlock>) -> (r: Option<
    Vec<Marker>,
>)
    requires
        blocks::come_from(blocks::root_models(roots@), events@.len() as int),
    ensures
        match inline_markers(
            text.spec_bytes(),
            event::models(events@),
            blocks::root_models(roots@),
        ) {
            Some(markers) => r is Some && r->0@ == markers,
            None => r is None,
        },
{
    let ghost b = text.spec_bytes();
    let ghost models = event::models(events@);
    let ghost all = blocks::root_models(roots@);
    let mut markers: Vec<Marker> = Vec::new();
    assert(all.take(0).len() == 0);
    for i in 0..roots.len()
        invariant
            b == text.spec_bytes(),
            models == event::models(events@),
            all == blocks::root_models(roots@),
            blocks::come_from(all, events@.len() as int),
            inline_markers(b, models, all.take(i as int)) == Some(markers@),
    {
        let (block, indices) = &roots[i];
        proof {
            assert(all.take(i + 1).drop_last() =~= all.take(i as int));
            assert(all[i as int] == (block@, *indices));
        }
        if !block.kind.is_rich() {
            let inner = slice_subrange(events.as_slice(), indices.start, indices.end);
            proof {
                assert(event::models(inner@) =~= models.subrange(
                    indices.start as int,
                    indices.end as int,
                ));
            }
            if !markers::live_preview_inline_markers(text, inner, &mut markers) {
                proof {
                    lemma_inline_markers_none(b, models, all, i + 1);
                }
                return None;
            }
        }
    }
    assert(all.take(all.len() as int) =~= all);
    Some(markers)
}

/// Drops empty and overlapping markers: see [`deduplicated`].
pub fn deduplicate_markers(markers: Vec<Marker>) -> (r: Vec<Marker>)
    ensures
        r@ == deduplicated(markers@),
{
    let ghost all = markers@;
    let mut r: Vec<Marker> = Vec::new();
    assert(all.take(0).len() == 0);
    for marker in iter: markers
        invariant
            iter.seq() == all,
            r@ == deduplicated(all.take(iter.index())),
    {
        proof {
            assert(all.take(iter.index() + 1).drop_last() =~= all.take(iter.index()));
        }
        let overlaps = r.len() > 0 && marker.range.start < r[r.len() - 1].range.end;
        if marker.range.start < marker.range.end && !overlaps {
            r.push(marker);
        }
    }
    assert(all.take(all.len() as int) =~= all);
    r
}

/// The blocks of a document with these events. `None` if an event of a block has no place in the
/// text.
pub fn build_blocks(text: &str, events: &Vec<RangedEvent>) -> (r: Option<
    Vec<MarkdownLivePreviewBlock>,
>)
    ensures
        match blocks::root_blocks(text.spec_bytes(), event::models(events@)) {
            Some(blocks) => r is Some && block_models(r->0@) == plain_blocks(blocks),
            None => r is None,
        },
{
    let roots = match blocks::live_preview_root_blocks(text, events) {
        Some(roots) => roots,
        None => {
            return None;
        },
    };
    let ghost all = blocks::root_models(roots@);
    let ghost plain = plain_blocks(all);
    let mut r: Vec<MarkdownLivePreviewBlock> = Vec::new();
    for root in iter: roots
        invariant
            blocks::root_models(iter.seq()) == all,
            plain == plain_blocks(all),
            block_models(r@) == plain.take(iter.index()),
    {
        let (block, _) = root;
        proof {
            let i = iter.index();
            assert(all[i].0 == block@);
            assert(block_models(r@.push(block)) =~= block_models(r@).push(block@));
            assert(plain.take(i + 1) =~= plain.take(i).push(plain[i]));
        }
        r.push(block);
    }
    assert(plain.take(plain.len() as int) =~= plain);
    Some(r)
}

/// The blocks that are replaced as a whole.
fn keep_rich(roots: Vec<RootBlock>) -> (r: Vec<MarkdownLivePreviewBlock>)
    ensures
        block_models(r@) == rich_blocks(blocks::root_models(roots@)),
{
    let ghost all = blocks::root_models(roots@);
    let mut r: Vec<MarkdownLivePreviewBlock> = Vec::new();
    assert(all.take(0).len() == 0);
    assert(block_models(r@) =~= Seq::empty());
    for root in iter: roots
        invariant
            blocks::root_models(iter.seq()) == all,
            block_models(r@) == rich_blocks(all.take(iter.index())),
    {
        let (block, _) = root;
        proof {
            let i = iter.index();
            assert(all[i].0 == block@);
            assert(block_models(r@.push(block)) =~= block_models(r@).push(block@));
            assert(all.take(i + 1).drop_last() =~= all.take(i));
        }
        if block.kind.is_rich() {
            r.push(block);
        }
    }
    assert(all.take(all.len() as int) =~= all);
    r
}

/// The live preview of a document with these events: see [`layout`]. `None` if an event has no
/// place in the text.
pub fn build_layout(text: &str, events: &Vec<RangedEvent>) -> (r: Option<MarkdownLivePreviewLayout>)
    ensures
        match layout(text.spec_bytes(), event::models(events@)) {
            Some(model) => r is Some && r->0@ == model,
            None => r is None,
        },
{
    let roots = match blocks::live_preview_root_blocks(text, events) {
        Some(roots) => roots,
        None => {
            return None;
        },
    };
    proof {
        assert(events.len() <= usize::MAX);
        blocks::lemma_root_blocks_come_from(text.spec_bytes(), event::models(events@));
    }
    let markers = match collect_markers(text, events, &roots) {
        Some(markers) => markers,
        None => {
            return None;
        },
    };
    let inline_markers = deduplicate_markers(order::sort(markers));
    Some(MarkdownLivePreviewLayout { blocks: keep_rich(roots), inline_markers })
}

/// The events of a text, if each has its place in it.
fn events_of(text: &str) -> (r: Option<Vec<RangedEvent>>)
    ensures
        event::agree(r, preview_events(text)),
{
    let no_html: Vec<usize> = Vec::new();
    assert(no_html@ =~= Seq::empty());
    match parse::parse_document(text, false, false, false, &no_html) {
        Some(data) => Some(data.events),
        None => None,
    }
}

/// The blocks of a text, if each event has its place in it.
fn blocks_of(text: &str) -> (r: Option<Vec<MarkdownLivePreviewBlock>>)
    ensures
        match preview_blocks(text) {
            Some(blocks) => r is Some && block_models(r->0@) == blocks,
            None => r is None,
        },
{
    match events_of(text) {
        Some(events) => build_blocks(text, &events),
        None => None,
    }
}

/// The live preview of a text, if each event has its place in it.
fn layout_of(text: &str) -> (r: Option<MarkdownLivePreviewLayout>)
    ensures
        match preview_layout(text) {
            Some(model) => r is Some && r->0@ == model,
            None => r is None,
        },
{
    match events_of(text) {
        Some(events) => build_layout(text, &events),
        None => None,
    }
}

/// The root-level blocks of a text: see [`preview_blocks`].
pub fn markdown_live_preview_blocks(text: &str) -> (r: Vec<MarkdownLivePreviewBlock>)
    requires
        preview_blocks(text) is Some,
    ensures
        preview_blocks(text) == Some(block_models(r@)),
{
    match blocks_of(text) {
        Some(blocks) => blocks,
        None => vstd::pervasive::unreached(),
    }
}

/// The root-level blocks of a text as [`markdown_live_preview_blocks`] gives them; `None` if an
/// event of the parser has no place in it.
pub fn try_markdown_live_preview_blocks(text: &str) -> (r: Option<Vec<MarkdownLivePreviewBlock>>)
    ensures
        match preview_blocks(text) {
            Some(blocks) => r is Some && block_models(r->0@) == blocks,
            None => r is None,
        },
{
    if blocks_of(text).is_some() {
        Some(markdown_live_preview_blocks(text))
    } else {
        None
    }
}

/// The live preview of a text: see [`preview_layout`].
pub fn markdown_live_preview_layout(text: &str) -> (r: MarkdownLivePreviewLayout)
    requires
        preview_layout(text) is Some,
    ensures
        preview_layout(text) == Some(r@),
{
    match layout_of(text) {
        Some(layout) => layout,
        None => vstd::pervasive::unreached(),
    }
}

/// The live preview of a text as [`markdown_live_preview_layout`] gives it; `None` if an event of
/// the parser has no place in it.
pub fn try_markdown_live_preview_layout(text: &str) -> (r: Option<MarkdownLivePreviewLayout>)
    ensures
        match preview_layout(text) {
            Some(model) => r is Some && r->0@ == model,
            None => r is None,
        },
{
    if layout_of(text).is_some() {
        Some(markdown_live_preview_layout(text))
    } else {
        None
    }
}

/// The markers are not empty and stand one behind the other.
pub open spec fn are_in_order(markers: Seq<Marker>) -> bool {
    &&& forall|i: int|
        0 <= i < markers.len() ==> (#[trigger] markers[i]).range.start < markers[i].range.end
    &&& forall|i: int, j: int|
        0 <= i < j < markers.len() ==> (#[trigger] markers[i]).range.end <= (
        #[trigger] markers[j]).range.start
}

/// The markers of a live preview are not empty, do not overlap, and stand in the order of the
/// source.
pub proof fn law_markers_are_in_order(markers: Seq<Marker>)
    ensures
        are_in_order(deduplicated(markers)),
    decreases markers.len(),
{
    if markers.len() > 0 {
        law_markers_are_in_order(markers.drop_last());
        let before = deduplicated(markers.drop_last());
        if before.len() > 0 {
            assert forall|i: int| 0 <= i < before.len() implies (#[trigger] before[i]).range.end
                <= before.last().range.end by {
                if i < before.len() - 1 {
                    assert(before[i].range.end <= before[before.len() - 1].range.start);
                }
            }
        }
    }
}

/// Dropping overlapping markers changes nothing where none overlap.
pub proof fn law_markers_in_order_stay(markers: Seq<Marker>)
    requires
        are_in_order(markers),
    ensures
        deduplicated(order::sorted(markers)) == markers,
{
    order::lemma_sorted_of_ordered(markers);
    lemma_deduplicated_of_ordered(markers);
}

proof fn lemma_deduplicated_of_ordered(markers: Seq<Marker>)
    requires
        are_in_order(markers),
    ensures
        deduplicated(markers) == markers,
    decreases markers.len(),
{
    if markers.len() > 0 {
        let init = markers.drop_last();
        assert(are_in_order(init)) by {
            assert forall|i: int, j: int| 0 <= i < j < init.len() implies (
            #[trigger] init[i]).range.end <= (#[trigger] init[j]).range.start by {
                assert(init[i] == markers[i] && init[j] == markers[j]);
            }
        }
        lemma_deduplicated_of_ordered(init);
        if init.len() > 0 {
            assert(markers[init.len() - 1].range.end <= markers[init.len() as int].range.start);
        }
        assert(init.push(markers.last()) =~= markers);
    }
}

proof fn lemma_rich_blocks(blocks: Seq<RootBlockModel>, block: BlockModel)
    ensures
        rich_blocks(blocks).contains(block) <==> preview::rich(block.kind) && plain_blocks(
            blocks,
        ).contains(block),
    decreases blocks.len(),
{
    if blocks.len() > 0 {
        let init = blocks.drop_last();
        lemma_rich_blocks(init, block);
        let plain = plain_blocks(blocks);
        assert(plain =~= plain_blocks(init).push(blocks.last().0));
        assert(plain_blocks(init).push(blocks.last().0).contains(block) <==> plain_blocks(
            init,
        ).contains(block) || block == blocks.last().0) by {
            broadcast use vstd::seq_lib::group_seq_properties;

        }
        assert(rich_blocks(init).push(blocks.last().0).contains(block) <==> rich_blocks(
            init,
        ).contains(block) || block == blocks.last().0) by {
            broadcast use vstd::seq_lib::group_seq_properties;

        }
    }
}

/// A live preview replaces a block as a whole exactly if the block is an image, a code block, a
/// table or a rule.
pub proof fn law_only_rich_blocks_are_replaced(b: Seq<u8>, events: Seq<RangedModel>, block: BlockModel)
    requires
        layout(b, events) is Some,
    ensures
        (layout(b, events)->0).blocks.contains(block) <==> preview::rich(block.kind)
            && plain_blocks(blocks::root_blocks(b, events)->0).contains(block),
{
    lemma_rich_blocks(blocks::root_blocks(b, events)->0, block);
}

/// Each block is replaced up to the start of the ones behind it at most.
pub open spec fn are_replaced_apart(blocks: Seq<BlockModel>) -> bool {
    forall|i: int, j: int|
        0 <= i < j < blocks.len() ==> (#[trigger] blocks[i]).replacement_range.end <= (
        #[trigger] blocks[j]).replacement_range.start
}

proof fn lemma_plain_blocks_are_apart(b: Seq<u8>, blocks: Seq<RootBlockModel>, i: int, j: int)
    requires
        0 <= i < j < blocks.len(),
        forall|k: int| 0 <= k < blocks.len() ==> blocks::is_sound(b, (#[trigger] blocks[k]).0),
        forall|k: int|
            0 <= k && k + 1 < blocks.len() ==> (#[trigger] blocks[k]).0.replacement_range.end
                <= blocks[k + 1].0.source_range.start,
    ensures
        blocks[i].0.replacement_range.end <= blocks[j].0.replacement_range.start,
    decreases j - i,
{
    assert(blocks::is_sound(b, blocks[j].0));
    assert(blocks[j - 1].0.replacement_range.end <= blocks[j].0.source_range.start);
    if i < j - 1 {
        lemma_plain_blocks_are_apart(b, blocks, i, j - 1);
        assert(blocks::is_sound(b, blocks[j - 1].0));
    }
}

proof fn lemma_rich_blocks_are_apart(blocks: Seq<RootBlockModel>)
    requires
        are_replaced_apart(plain_blocks(blocks)),
    ensures
        are_replaced_apart(rich_blocks(blocks)),
    decreases blocks.len(),
{
    if blocks.len() > 0 {
        let init = blocks.drop_last();
        let plain = plain_blocks(blocks);
        assert forall|i: int, j: int| 0 <= i < j < plain_blocks(init).len() implies (
        #[trigger] plain_blocks(init)[i]).replacement_range.end <= (#[trigger] plain_blocks(
            init,
        )[j]).replacement_range.start by {
            assert(plain_blocks(init)[i] == plain[i] && plain_blocks(init)[j] == plain[j]);
        }
        lemma_rich_blocks_are_apart(init);
        let before = rich_blocks(init);
        assert forall|i: int| 0 <= i < before.len() implies (
        #[trigger] before[i]).replacement_range.end
            <= blocks.last().0.replacement_range.start by {
            lemma_rich_blocks(init, before[i]);
            assert(before.contains(before[i]));
            let k = choose|k: int|
                0 <= k < plain_blocks(init).len() && plain_blocks(init)[k] == before[i];
            assert(plain[k] == before[i]);
            assert(plain[blocks.len() - 1] == blocks.last().0);
        }
    }
}

/// The blocks that a live preview replaces do not overlap, and stand in the order of the source.
pub proof fn law_replaced_blocks_are_apart(b: Seq<u8>, events: Seq<RangedModel>)
    requires
        vstd::utf8::valid_utf8(b),
        b.len() <= usize::MAX,
        layout(b, events) is Some,
    ensures
        are_replaced_apart((layout(b, events)->0).blocks),
{
    blocks::law_blocks_are_apart(b, events);
    let roots = blocks::root_blocks(b, events)->0;
    assert forall|i: int, j: int| 0 <= i < j < plain_blocks(roots).len() implies (
    #[trigger] plain_blocks(roots)[i]).replacement_range.end <= (#[trigger] plain_blocks(
        roots,
    )[j]).replacement_range.start by {
        lemma_plain_blocks_are_apart(b, roots, i, j);
    }
    lemma_rich_blocks_are_apart(roots);
}

/// The markers that are left are among those that there were.
pub proof fn lemma_deduplicated_holds(markers: Seq<Marker>, marker: Marker)
    requires
        deduplicated(markers).contains(marker),
    ensures
        markers.contains(marker),
    decreases markers.len(),
{
    if markers.len() > 0 {
        let init = markers.drop_last();
        let before = deduplicated(init);
        if before.contains(marker) {
            lemma_deduplicated_holds(init, marker);
            let k = choose|k: int| 0 <= k < init.len() && init[k] == marker;
            assert(markers[k] == marker);
        } else {
            let k = choose|k: int|
                0 <= k < deduplicated(markers).len() && deduplicated(markers)[k] == marker;
            assert(k < before.len() ==> before[k] == marker);
            assert(markers[markers.len() - 1] == marker);
        }
    }
}

/// The block is not replaced as a whole, and the marker is one of its markers.
pub open spec fn is_marker_of(
    b: Seq<u8>,
    events: Seq<RangedModel>,
    root: RootBlockModel,
    marker: Marker,
) -> bool {
    &&& !preview::rich(root.0.kind)
    &&& markers::block_markers(
        b,
        events.subrange(root.1.start as int, root.1.end as int),
    ) matches Some(found) && found.contains(marker)
}

/// Each marker of the blocks that are not replaced is one of such a block.
pub proof fn lemma_inline_markers_come_from(
    b: Seq<u8>,
    events: Seq<RangedModel>,
    blocks: Seq<RootBlockModel>,
    marker: Marker,
)
    requires
        inline_markers(b, events, blocks) is Some,
        (inline_markers(b, events, blocks)->0).contains(marker),
    ensures
        exists|k: int| 0 <= k < blocks.len() && is_marker_of(b, events, #[trigger] blocks[k], marker),
    decreases blocks.len(),
{
    if blocks.len() > 0 {
        let init = blocks.drop_last();
        let before = inline_markers(b, events, init)->0;
        if before.contains(marker) {
            lemma_inline_markers_come_from(b, events, init, marker);
            let k = choose|k: int|
                0 <= k < init.len() && is_marker_of(b, events, #[trigger] init[k], marker);
            assert(blocks[k] == init[k]);
        } else {
            let all = inline_markers(b, events, blocks)->0;
            let (block, indices) = blocks.last();
            let found = markers::block_markers(
                b,
                events.subrange(indices.start as int, indices.end as int),
            )->0;
            let i = choose|i: int| 0 <= i < all.len() && all[i] == marker;
            assert(i < before.len() ==> before[i] == marker);
            assert(found[i - before.len()] == marker);
            assert(is_marker_of(b, events, blocks[blocks.len() - 1], marker));
        }
    }
}

/// Each marker of a live preview is one of a block that is not replaced.
pub proof fn law_markers_come_from_blocks(b: Seq<u8>, events: Seq<RangedModel>, marker: Marker)
    requires
        layout(b, events) is Some,
        (layout(b, events)->0).inline_markers.contains(marker),
    ensures
        exists|k: int|
            0 <= k < (blocks::root_blocks(b, events)->0).len() && is_marker_of(
                b,
                events,
                #[trigger] (blocks::root_blocks(b, events)->0)[k],
                marker,
            ),
{
    let roots = blocks::root_blocks(b, events)->0;
    let found = inline_markers(b, events, roots)->0;
    let sorted = order::sorted(found);
    lemma_deduplicated_holds(sorted, marker);
    order::lemma_sorted(found);
    found.to_multiset_ensures();
    sorted.to_multiset_ensures();
    assert(sorted.to_multiset().count(marker) > 0);
    assert(found.contains(marker));
    lemma_inline_markers_come_from(b, events, roots, marker);
}

proof fn lemma_marker_lies_between(
    b: Seq<u8>,
    events: Seq<RangedModel>,
    root: RootBlockModel,
    marker: Marker,
    lo: int,
    hi: int,
)
    requires
        vstd::utf8::valid_utf8(b),
        b.len() <= usize::MAX,
        root.1.start <= root.1.end <= events.len() <= usize::MAX,
        is_marker_of(b, events, root, marker),
        forall|i: int|
            root.1.start <= i < root.1.end ==> markers::reaches_between(
                b,
                #[trigger] events[i],
                lo,
                hi,
            ),
    ensures
        lo <= marker.range.start,
        marker.range.end <= hi,
{
    let inner = events.subrange(root.1.start as int, root.1.end as int);
    assert forall|i: int| 0 <= i < inner.len() implies markers::reaches_between(
        b,
        #[trigger] inner[i],
        lo,
        hi,
    ) by {
        assert(inner[i] == events[root.1.start + i]);
    }
    markers::law_markers_lie_where_events_do(b, inner, lo, hi);
    let found = markers::block_markers(b, inner)->0;
    let k = choose|k: int| 0 <= k < found.len() && found[k] == marker;
    assert(lo <= found[k].range.start);
}

/// Where the events lie in the text, so do the markers of a live preview.
pub proof fn law_markers_lie_in_text(b: Seq<u8>, events: Seq<RangedModel>, marker: Marker)
    requires
        vstd::utf8::valid_utf8(b),
        b.len() <= usize::MAX,
        events.len() <= usize::MAX,
        layout(b, events) is Some,
        forall|i: int|
            0 <= i < events.len() ==> (#[trigger] events[i]).0.start <= events[i].0.end
                && events[i].0.end <= b.len(),
        (layout(b, events)->0).inline_markers.contains(marker),
    ensures
        marker.range.start < marker.range.end <= b.len(),
{
    let roots = blocks::root_blocks(b, events)->0;
    let all = inline_markers(b, events, roots)->0;
    law_markers_come_from_blocks(b, events, marker);
    blocks::lemma_root_blocks_come_from(b, events);
    let k = choose|k: int|
        0 <= k < roots.len() && is_marker_of(b, events, #[trigger] roots[k], marker);
    assert forall|i: int|
        roots[k].1.start <= i < roots[k].1.end implies markers::reaches_between(
        b,
        #[trigger] events[i],
        0,
        b.len() as int,
    ) by {
        markers::lemma_reaches_in_text(b, events[i]);
    }
    lemma_marker_lies_between(b, events, roots[k], marker, 0, b.len() as int);
    law_markers_are_in_order(order::sorted(all));
}

/// Where the block behind the one at `k` starts; the end of the text, if there is none.
pub open spec fn next_block_start(b: Seq<u8>, blocks: Seq<RootBlockModel>, k: int) -> int {
    if k + 1 < blocks.len() {
        blocks[k + 1].0.source_range.start as int
    } else {
        b.len() as int
    }
}

/// The events of each block that is not replaced lie between its start and the start of the next
/// block.
pub open spec fn keep_to_their_blocks(
    b: Seq<u8>,
    events: Seq<RangedModel>,
    blocks: Seq<RootBlockModel>,
) -> bool {
    forall|k: int, i: int|
        0 <= k < blocks.len() && !preview::rich(blocks[k].0.kind) && blocks[k].1.start <= i
            < blocks[k].1.end ==> markers::reaches_between(
            b,
            #[trigger] events[i],
            (#[trigger] blocks[k]).0.source_range.start as int,
            next_block_start(b, blocks, k),
        )
}

/// Where the events of a block that is not replaced lie between its start and the start of the next
/// block, no marker of a live preview overlaps a block that is replaced.
pub proof fn law_markers_are_outside_replaced_blocks(
    b: Seq<u8>,
    events: Seq<RangedModel>,
    marker: Marker,
    block: BlockModel,
)
    requires
        vstd::utf8::valid_utf8(b),
        b.len() <= usize::MAX,
        events.len() <= usize::MAX,
        layout(b, events) is Some,
        keep_to_their_blocks(b, events, blocks::root_blocks(b, events)->0),
        (layout(b, events)->0).inline_markers.contains(marker),
        (layout(b, events)->0).blocks.contains(block),
    ensures
        marker.range.end <= block.replacement_range.start || block.replacement_range.end
            <= marker.range.start,
{
    let roots = blocks::root_blocks(b, events)->0;
    law_markers_come_from_blocks(b, events, marker);
    blocks::lemma_root_blocks_come_from(b, events);
    blocks::law_blocks_are_apart(b, events);
    let k = choose|k: int|
        0 <= k < roots.len() && is_marker_of(b, events, #[trigger] roots[k], marker);
    lemma_marker_lies_between(
        b,
        events,
        roots[k],
        marker,
        roots[k].0.source_range.start as int,
        next_block_start(b, roots, k),
    );
    lemma_rich_blocks(roots, block);
    let plain = plain_blocks(roots);
    let j = choose|j: int| 0 <= j < plain.len() && plain[j] == block;
    assert(roots[j].0 == block);
    assert(blocks::is_sound(b, roots[j].0) && blocks::is_sound(b, roots[k].0));
    if k < j {
        assert(blocks::is_sound(b, roots[k + 1].0));
        if k + 1 < j {
            lemma_plain_blocks_are_apart(b, roots, k + 1, j);
        }
    } else {
        lemma_plain_blocks_are_apart(b, roots, j, k);
    }
}

} // verus!
