//! The state of an editor's live preview, and what the editor has to do to keep up with it.
//!
//! The editor holds what belongs to a block or marker on its side, such as anchors and rendered
//! elements, in lists of its own, in the order of the lists here.
use crate::convert;
use crate::layout;
use crate::layout::LayoutModel;
use crate::live;
use crate::preview::{
    BlockModel, MarkdownLivePreviewBlock, MarkdownLivePreviewInlineMarker,
    MarkdownLivePreviewInlineMarkerKind, MarkdownLivePreviewLayout,
};
use std::ops::Range;
use vstd::prelude::*;

verus! {

/// A block that is rendered in place of its source while no selection touches its rows.
#[derive(Debug, PartialEq)]
pub struct RichBlockState {
    pub block: MarkdownLivePreviewBlock,
    pub height: u32,
    /// The number of the block in the editor, while it is inserted there.
    pub block_id: Option<usize>,
}

/// The model of a [`RichBlockState`].
pub struct RichModel {
    pub block: BlockModel,
    pub height: u32,
    pub block_id: Option<usize>,
}

impl View for RichBlockState {
    type V = RichModel;

    open spec fn view(&self) -> RichModel {
        RichModel { block: self.block@, height: self.height, block_id: self.block_id }
    }
}

/// The model of a list of blocks.
pub open spec fn rich_models(blocks: Seq<RichBlockState>) -> Seq<RichModel> {
    blocks.map_values(|block: RichBlockState| block@)
}

/// What an editor knows of its live preview.
#[derive(Debug, PartialEq)]
pub struct MarkdownLivePreviewState {
    pub rich_blocks: Vec<RichBlockState>,
    pub inline_markers: Vec<MarkdownLivePreviewInlineMarkerKind>,
    pub active_rows: Vec<Range<u32>>,
    pub parse_generation: usize,
}

/// The model of a [`MarkdownLivePreviewState`].
pub struct StateModel {
    pub rich_blocks: Seq<RichModel>,
    pub inline_markers: Seq<MarkdownLivePreviewInlineMarkerKind>,
    pub active_rows: Seq<Range<u32>>,
    pub parse_generation: usize,
}

impl View for MarkdownLivePreviewState {
    type V = StateModel;

    open spec fn view(&self) -> StateModel {
        StateModel {
            rich_blocks: rich_models(self.rich_blocks@),
            inline_markers: self.inline_markers@,
            active_rows: self.active_rows@,
            parse_generation: self.parse_generation,
        }
    }
}

/// The live preview of an editor, if it has one.
pub type Session = Option<MarkdownLivePreviewState>;

/// The model of a [`Session`].
pub open spec fn session_model(session: Session) -> Option<StateModel> {
    match session {
        Some(state) => Some(state@),
        None => None,
    }
}

/// A live preview in which nothing is shown yet.
pub open spec fn empty_state() -> StateModel {
    StateModel {
        rich_blocks: Seq::empty(),
        inline_markers: Seq::empty(),
        active_rows: Seq::empty(),
        parse_generation: 0,
    }
}

/// The state, or an empty one.
pub open spec fn state_or_empty(session: Session) -> StateModel {
    match session {
        Some(state) => state@,
        None => empty_state(),
    }
}

impl Default for MarkdownLivePreviewState {
    fn default() -> (r: Self)
        ensures
            r@ == empty_state(),
    {
        let r = MarkdownLivePreviewState {
            rich_blocks: Vec::new(),
            inline_markers: Vec::new(),
            active_rows: Vec::new(),
            parse_generation: 0,
        };
        assert(r@.rich_blocks =~= Seq::empty());
        assert(r@.inline_markers =~= Seq::empty());
        assert(r@.active_rows =~= Seq::empty());
        r
    }
}

/// What goes when a live preview is taken away.
#[derive(Debug, Eq, PartialEq)]
pub struct RemovalPlan {
    pub block_ids: Vec<usize>,
    /// Whether the folds of the live preview go.
    pub remove_folds: bool,
}

/// The numbers of the first `n` blocks that are inserted, each once.
pub open spec fn inserted_ids(blocks: Seq<RichModel>, n: int) -> Seq<usize>
    decreases n,
{
    if n <= 0 {
        Seq::empty()
    } else {
        match blocks[n - 1].block_id {
            Some(id) => convert::added(inserted_ids(blocks, n - 1), id),
            None => inserted_ids(blocks, n - 1),
        }
    }
}

/// What goes with a session.
pub open spec fn is_removal(session: Session, plan: Option<RemovalPlan>) -> bool {
    match session {
        Some(state) => plan is Some && plan->0.block_ids@ == inserted_ids(
            state@.rich_blocks,
            state@.rich_blocks.len() as int,
        ) && plan->0.remove_folds == (state.inline_markers@.len() > 0),
        None => plan is None,
    }
}

/// Adds a number, unless it is there already.
fn add_id(ids: &mut Vec<usize>, id: usize)
    ensures
        final(ids)@ == convert::added(old(ids)@, id),
{
    for i in 0..ids.len()
        invariant
            *ids == *old(ids),
            forall|k: int| 0 <= k < i ==> ids@[k] != id,
    {
        if ids[i] == id {
            return ;
        }
    }
    ids.push(id);
}

/// Takes a live preview away. Returns what goes with it, if there was one.
pub fn remove_markdown_live_preview(session: &mut Session) -> (r: Option<RemovalPlan>)
    ensures
        *final(session) is None,
        is_removal(*old(session), r),
{
    match session.take() {
        None => None,
        Some(state) => {
            let ghost blocks = state@.rich_blocks;
            let mut block_ids: Vec<usize> = Vec::new();
            for i in 0..state.rich_blocks.len()
                invariant
                    blocks == rich_models(state.rich_blocks@),
                    block_ids@ == inserted_ids(blocks, i as int),
            {
                assert(blocks[i as int] == state.rich_blocks@[i as int]@);
                if let Some(id) = state.rich_blocks[i].block_id {
                    add_id(&mut block_ids, id);
                }
            }
            Some(RemovalPlan { block_ids, remove_folds: state.inline_markers.len() > 0 })
        },
    }
}

/// What an edit calls for.
#[derive(Debug, Eq, PartialEq)]
pub enum ScheduleDecision {
    /// The live preview is taken away.
    Remove(Option<RemovalPlan>),
    /// The document is parsed; the generation tells if its result still counts.
    Parse { generation: usize },
}

/// The state with one more parse asked for.
pub open spec fn with_next_generation(state: StateModel) -> StateModel {
    StateModel { parse_generation: (state.parse_generation + 1) as usize, ..state }
}

/// Decides what an edit calls for: a parse of the document, if there is to be a live preview. A
/// parse that was asked for earlier no longer counts.
pub fn schedule_markdown_live_preview_reparse(session: &mut Session, should_render: bool) -> (r:
    ScheduleDecision)
    requires
        should_render ==> state_or_empty(*old(session)).parse_generation < usize::MAX,
    ensures
        should_render ==> session_model(*final(session)) == Some(
            with_next_generation(state_or_empty(*old(session))),
        ) && r == (ScheduleDecision::Parse {
            generation: (state_or_empty(*old(session)).parse_generation + 1) as usize,
        }),
        !should_render ==> *final(session) is None && (r matches ScheduleDecision::Remove(plan)
            && is_removal(*old(session), plan)),
{
    if !should_render {
        return ScheduleDecision::Remove(remove_markdown_live_preview(session));
    }
    let mut state = match session.take() {
        Some(state) => state,
        None => MarkdownLivePreviewState::default(),
    };
    state.parse_generation += 1;
    let generation = state.parse_generation;
    *session = Some(state);
    ScheduleDecision::Parse { generation }
}

/// The result of a parse still counts.
pub open spec fn counts(session: Option<StateModel>, generation: usize) -> bool {
    session matches Some(state) && state.parse_generation == generation
}

/// Whether the result of the parse with this generation still counts.
pub fn accepts_parse(session: &Session, generation: usize) -> (r: bool)
    ensures
        r == counts(session_model(*session), generation),
{
    match session {
        Some(state) => state.parse_generation == generation,
        None => false,
    }
}

/// What a change of the selections calls for.
#[derive(Debug, Eq, PartialEq)]
pub enum ReconcileDecision {
    /// The live preview is taken away.
    Remove(Option<RemovalPlan>),
    /// The document is parsed, since it has not been yet.
    Parse { generation: usize },
    /// Nothing.
    Keep,
    /// Blocks and folds are brought in line with the active rows.
    Sync,
}

/// Tests lists of row ranges for equality.
fn same_rows(a: &Vec<Range<u32>>, b: &Vec<Range<u32>>) -> (r: bool)
    ensures
        r == (a@ == b@),
{
    if a.len() != b.len() {
        return false;
    }
    for i in 0..a.len()
        invariant
            a@.len() == b@.len(),
            forall|k: int| 0 <= k < i ==> a@[k] == b@[k],
    {
        if a[i].start != b[i].start || a[i].end != b[i].end {
            return false;
        }
    }
    assert(a@ =~= b@);
    true
}

/// Decides what a change of the selections calls for. `active_rows` are the rows that they touch.
pub fn reconcile_markdown_live_preview_selection(
    session: &mut Session,
    should_render: bool,
    active_rows: &Vec<Range<u32>>,
) -> (r: ReconcileDecision)
    ensures
        !should_render ==> *final(session) is None && (r matches ReconcileDecision::Remove(plan)
            && is_removal(*old(session), plan)),
        should_render && *old(session) is None ==> session_model(*final(session)) == Some(
            with_next_generation(empty_state()),
        ) && r == (ReconcileDecision::Parse { generation: 1 }),
        should_render && *old(session) is Some ==> *final(session) == *old(session) && r == (
        if state_or_empty(*old(session)).active_rows == active_rows@ {
            ReconcileDecision::Keep
        } else {
            ReconcileDecision::Sync
        }),
{
    if !should_render {
        return ReconcileDecision::Remove(remove_markdown_live_preview(session));
    }
    match session {
        Some(state) => {
            if same_rows(&state.active_rows, active_rows) {
                ReconcileDecision::Keep
            } else {
                ReconcileDecision::Sync
            }
        },
        None => {
            let mut state = MarkdownLivePreviewState::default();
            state.parse_generation = 1;
            *session = Some(state);
            ReconcileDecision::Parse { generation: 1 }
        },
    }
}

/// What a new layout changes.
#[derive(Debug, Eq, PartialEq)]
pub struct ApplyPlan {
    /// For each block, the index of the block before that goes on as this one.
    pub reused: Vec<Option<usize>>,
    /// The numbers of the inserted blocks that do not go on.
    pub blocks_to_remove: Vec<usize>,
}

/// The last index at which a range stands.
pub open spec fn last_at(ranges: Seq<Range<usize>>, range: Range<usize>) -> Option<int>
    decreases ranges.len(),
{
    if ranges.len() == 0 {
        None
    } else if ranges.last() == range {
        Some(ranges.len() - 1)
    } else {
        last_at(ranges.drop_last(), range)
    }
}

/// A block before `k` has the range of the block at `k`.
pub open spec fn taken_before(blocks: Seq<BlockModel>, k: int) -> bool {
    exists|j: int|
        0 <= j < k && (#[trigger] blocks[j]).replacement_range == blocks[k].replacement_range
}

/// The old block that goes on as the block at `k`: the last one at its range, if it has the same
/// source and kind. `ranges` are where the old blocks are now.
pub open spec fn reused(
    old_blocks: Seq<RichModel>,
    ranges: Seq<Range<usize>>,
    blocks: Seq<BlockModel>,
    k: int,
) -> Option<usize> {
    if taken_before(blocks, k) {
        None
    } else {
        match last_at(ranges, blocks[k].replacement_range) {
            Some(i) => if old_blocks[i].block.source == blocks[k].source
                && old_blocks[i].block.kind == blocks[k].kind {
                Some(i as usize)
            } else {
                None
            },
            None => None,
        }
    }
}

/// What becomes of the block at `k`: it goes on from an old block, or starts with an estimated
/// height.
pub open spec fn applied(
    old_blocks: Seq<RichModel>,
    ranges: Seq<Range<usize>>,
    blocks: Seq<BlockModel>,
    k: int,
) -> RichModel {
    match reused(old_blocks, ranges, blocks, k) {
        Some(i) => RichModel { block: blocks[k], ..old_blocks[i as int] },
        None => RichModel {
            block: blocks[k],
            height: live::initial_height(blocks[k]),
            block_id: None,
        },
    }
}

/// The old block at `i` goes on as a new one.
pub open spec fn goes_on(
    old_blocks: Seq<RichModel>,
    ranges: Seq<Range<usize>>,
    blocks: Seq<BlockModel>,
    i: int,
) -> bool {
    exists|k: int|
        0 <= k < blocks.len() && #[trigger] reused(old_blocks, ranges, blocks, k) == Some(
            i as usize,
        )
}

/// The numbers of those of the first `n` old blocks that are inserted and do not go on, each once.
pub open spec fn dropped_ids(
    old_blocks: Seq<RichModel>,
    ranges: Seq<Range<usize>>,
    blocks: Seq<BlockModel>,
    n: int,
) -> Seq<usize>
    decreases n,
{
    if n <= 0 {
        Seq::empty()
    } else {
        let before = dropped_ids(old_blocks, ranges, blocks, n - 1);
        match old_blocks[n - 1].block_id {
            Some(id) => if goes_on(old_blocks, ranges, blocks, n - 1) {
                before
            } else {
                convert::added(before, id)
            },
            None => before,
        }
    }
}

/// The kinds of some markers.
pub open spec fn marker_kinds(markers: Seq<MarkdownLivePreviewInlineMarker>) -> Seq<
    MarkdownLivePreviewInlineMarkerKind,
> {
    markers.map_values(|marker: MarkdownLivePreviewInlineMarker| marker.kind)
}

/// The state with a new layout.
pub open spec fn with_layout(
    state: StateModel,
    ranges: Seq<Range<usize>>,
    layout: LayoutModel,
) -> StateModel {
    StateModel {
        rich_blocks: Seq::new(
            layout.blocks.len(),
            |k: int| applied(state.rich_blocks, ranges, layout.blocks, k),
        ),
        inline_markers: marker_kinds(layout.inline_markers),
        ..state
    }
}

/// Finds where a range stands last: see [`last_at`].
fn find_last(ranges: &Vec<Range<usize>>, range: &Range<usize>) -> (r: Option<usize>)
    ensures
        match last_at(ranges@, *range) {
            Some(i) => r is Some && r->0 == i && i < ranges@.len(),
            None => r is None,
        },
{
    let mut n: usize = ranges.len();
    assert(ranges@.take(n as int) =~= ranges@);
    while n > 0
        invariant
            n <= ranges@.len(),
            last_at(ranges@, *range) == last_at(ranges@.take(n as int), *range),
        decreases n,
    {
        assert(ranges@.take(n as int).drop_last() =~= ranges@.take(n - 1));
        if ranges[n - 1].start == range.start && ranges[n - 1].end == range.end {
            return Some(n - 1);
        }
        n -= 1;
    }
    None
}

/// Tests for a block with the same range before `k`.
fn is_taken(blocks: &Vec<MarkdownLivePreviewBlock>, k: usize) -> (r: bool)
    requires
        k < blocks@.len(),
    ensures
        r == taken_before(layout::block_models(blocks@), k as int),
{
    let ghost models = layout::block_models(blocks@);
    for j in 0..k
        invariant
            k < blocks@.len(),
            models == layout::block_models(blocks@),
            forall|i: int|
                0 <= i < j ==> (#[trigger] models[i]).replacement_range
                    != models[k as int].replacement_range,
    {
        assert(models[j as int] == blocks@[j as int]@);
        let a = &blocks[j].replacement_range;
        let b = &blocks[k].replacement_range;
        if a.start == b.start && a.end == b.end {
            return true;
        }
    }
    false
}

/// Finds the old block that goes on as the block at `k`: see [`reused`].
fn find_reused(
    old_blocks: &Vec<RichBlockState>,
    ranges: &Vec<Range<usize>>,
    blocks: &Vec<MarkdownLivePreviewBlock>,
    k: usize,
) -> (r: Option<usize>)
    requires
        k < blocks@.len(),
        ranges@.len() == old_blocks@.len(),
    ensures
        r == reused(
            rich_models(old_blocks@),
            ranges@,
            layout::block_models(blocks@),
            k as int,
        ),
        r matches Some(i) ==> i < old_blocks@.len(),
{
    proof {
        assert(layout::block_models(blocks@)[k as int] == blocks@[k as int]@);
    }
    if is_taken(blocks, k) {
        return None;
    }
    let block = &blocks[k];
    match find_last(ranges, &block.replacement_range) {
        Some(i) => {
            let old_block = &old_blocks[i].block;
            assert(rich_models(old_blocks@)[i as int] == old_blocks@[i as int]@);
            if old_block.source == block.source && old_block.kind == block.kind {
                Some(i)
            } else {
                None
            }
        },
        None => None,
    }
}

/// The old blocks that go on, by the blocks that they go on as.
fn find_all_reused(
    old_blocks: &Vec<RichBlockState>,
    ranges: &Vec<Range<usize>>,
    blocks: &Vec<MarkdownLivePreviewBlock>,
) -> (r: Vec<Option<usize>>)
    requires
        ranges@.len() == old_blocks@.len(),
    ensures
        r@ == Seq::new(
            blocks@.len(),
            |k: int|
                reused(rich_models(old_blocks@), ranges@, layout::block_models(blocks@), k),
        ),
        forall|k: int|
            0 <= k < r@.len() ==> ((#[trigger] r@[k]) matches Some(i) ==> i < old_blocks@.len()),
{
    let mut r: Vec<Option<usize>> = Vec::new();
    for k in 0..blocks.len()
        invariant
            ranges@.len() == old_blocks@.len(),
            r@.len() == k,
            forall|j: int|
                0 <= j < k ==> #[trigger] r@[j] == reused(
                    rich_models(old_blocks@),
                    ranges@,
                    layout::block_models(blocks@),
                    j,
                ),
            forall|j: int|
                0 <= j < k ==> ((#[trigger] r@[j]) matches Some(i) ==> i < old_blocks@.len()),
    {
        let found = find_reused(old_blocks, ranges, blocks, k);
        r.push(found);
    }
    r
}

/// Tests for an index in a list.
fn holds_index(list: &Vec<Option<usize>>, i: usize) -> (r: bool)
    ensures
        r == exists|k: int| 0 <= k < list@.len() && #[trigger] list@[k] == Some(i),
{
    for k in 0..list.len()
        invariant
            forall|j: int| 0 <= j < k ==> #[trigger] list@[j] != Some(i),
    {
        if let Some(j) = list[k] {
            if j == i {
                assert(list@[k as int] == Some(i));
                return true;
            }
        }
    }
    false
}

/// Takes over a new layout: see [`with_layout`]. `ranges` are where the blocks of the layout before
/// are now. A block goes on if it still stands where the new layout has it, with the same source,
/// so that what is rendered of it can stay.
pub fn apply_markdown_live_preview_layout(
    session: &mut Session,
    layout: MarkdownLivePreviewLayout,
    ranges: &Vec<Range<usize>>,
) -> (r: ApplyPlan)
    requires
        ranges@.len() == state_or_empty(*old(session)).rich_blocks.len(),
    ensures
        session_model(*final(session)) == Some(
            with_layout(state_or_empty(*old(session)), ranges@, layout@),
        ),
        r.reused@ == Seq::new(
            layout@.blocks.len(),
            |k: int|
                reused(
                    state_or_empty(*old(session)).rich_blocks,
                    ranges@,
                    layout@.blocks,
                    k,
                ),
        ),
        r.blocks_to_remove@ == dropped_ids(
            state_or_empty(*old(session)).rich_blocks,
            ranges@,
            layout@.blocks,
            ranges@.len() as int,
        ),
{
    let ghost before = state_or_empty(*session);
    let ghost blocks = layout@.blocks;
    let mut state = match session.take() {
        Some(state) => state,
        None => MarkdownLivePreviewState::default(),
    };
    let reused_blocks = find_all_reused(&state.rich_blocks, ranges, &layout.blocks);
    let mut blocks_to_remove: Vec<usize> = Vec::new();
    for i in 0..state.rich_blocks.len()
        invariant
            before.rich_blocks == rich_models(state.rich_blocks@),
            blocks == layout::block_models(layout.blocks@),
            ranges@.len() == state.rich_blocks@.len(),
            reused_blocks@ == Seq::new(
                blocks.len(),
                |k: int| reused(before.rich_blocks, ranges@, blocks, k),
            ),
            blocks_to_remove@ == dropped_ids(before.rich_blocks, ranges@, blocks, i as int),
    {
        assert(before.rich_blocks[i as int] == state.rich_blocks@[i as int]@);
        let kept = holds_index(&reused_blocks, i);
        proof {
            if kept {
                let k = choose|k: int|
                    0 <= k < reused_blocks@.len() && #[trigger] reused_blocks@[k] == Some(i);
                assert(reused(before.rich_blocks, ranges@, blocks, k) == Some(i));
            } else if goes_on(before.rich_blocks, ranges@, blocks, i as int) {
                let k = choose|k: int|
                    0 <= k < blocks.len() && #[trigger] reused(
                        before.rich_blocks,
                        ranges@,
                        blocks,
                        k,
                    ) == Some(i);
                assert(reused_blocks@[k] == Some(i));
            }
        }
        if let Some(id) = state.rich_blocks[i].block_id {
            if !kept {
                add_id(&mut blocks_to_remove, id);
            }
        }
    }
    let mut rich_blocks: Vec<RichBlockState> = Vec::new();
    for block in iter: layout.blocks
        invariant
            layout::block_models(iter.seq()) == blocks,
            before.rich_blocks == rich_models(state.rich_blocks@),
            ranges@.len() == state.rich_blocks@.len(),
            reused_blocks@ == Seq::new(
                blocks.len(),
                |k: int| reused(before.rich_blocks, ranges@, blocks, k),
            ),
            forall|k: int|
                0 <= k < reused_blocks@.len() ==> ((#[trigger] reused_blocks@[k]) matches Some(i)
                    ==> i < state.rich_blocks@.len()),
            rich_blocks@.len() == iter.index(),
            forall|k: int|
                0 <= k < iter.index() ==> (#[trigger] rich_blocks@[k])@ == applied(
                    before.rich_blocks,
                    ranges@,
                    blocks,
                    k,
                ),
    {
        let k = rich_blocks.len();
        proof {
            assert(blocks[k as int] == block@);
        }
        let (height, block_id) = match reused_blocks[k] {
            Some(i) => {
                assert(before.rich_blocks[i as int] == state.rich_blocks@[i as int]@);
                (state.rich_blocks[i].height, state.rich_blocks[i].block_id)
            },
            None => (live::initial_block_height(&block), None),
        };
        rich_blocks.push(RichBlockState { block, height, block_id });
    }
    let inline_markers = kinds_of(&layout.inline_markers);
    state.rich_blocks = rich_blocks;
    state.inline_markers = inline_markers;
    proof {
        assert(state@.rich_blocks =~= with_layout(before, ranges@, layout@).rich_blocks);
    }
    *session = Some(state);
    ApplyPlan { reused: reused_blocks, blocks_to_remove }
}

/// The kinds of some markers: see [`marker_kinds`].
fn kinds_of(markers: &Vec<MarkdownLivePreviewInlineMarker>) -> (r: Vec<
    MarkdownLivePreviewInlineMarkerKind,
>)
    ensures
        r@ == marker_kinds(markers@),
{
    let mut r: Vec<MarkdownLivePreviewInlineMarkerKind> = Vec::new();
    for i in 0..markers.len()
        invariant
            r@ == marker_kinds(markers@).take(i as int),
    {
        r.push(markers[i].kind);
        assert(r@ =~= marker_kinds(markers@).take(i + 1));
    }
    assert(marker_kinds(markers@).take(markers@.len() as int) =~= marker_kinds(markers@));
    r
}

/// A place in the buffer.
#[derive(Clone, Copy, Debug, Eq, PartialEq, Structural)]
pub struct Point {
    pub row: u32,
    pub column: u32,
}

/// Where a marker is now.
#[derive(Debug, Eq, PartialEq)]
pub struct MarkerPosition {
    pub range: Range<usize>,
    pub start_row: u32,
    pub end_row: u32,
}

/// The rows from `first` on, to `last` and with it.
pub open spec fn rows_through(first: u32, last: u32) -> Range<u32> {
    first..(if last < u32::MAX {
        (last + 1) as u32
    } else {
        u32::MAX
    })
}

/// A block from `start` to `end` is shown: it is not empty, and no selection touches its rows.
pub open spec fn visible(position: (Point, Point), active_rows: Seq<Range<u32>>) -> bool {
    position.0 != position.1 && !live::meet_any(
        rows_through(position.0.row, position.1.row),
        active_rows,
    )
}

/// A marker is folded: it is not empty, and no selection touches its rows.
pub open spec fn folded(marker: MarkerPosition, active_rows: Seq<Range<u32>>) -> bool {
    marker.range.start < marker.range.end && !live::meet_any(
        rows_through(marker.start_row, marker.end_row),
        active_rows,
    )
}

/// What brings an editor in line with its live preview.
#[derive(Debug, Eq, PartialEq)]
pub struct SyncPlan {
    /// The numbers of the blocks to take out.
    pub blocks_to_remove: Vec<usize>,
    /// The indices of the blocks to insert.
    pub blocks_to_insert: Vec<usize>,
    /// The ranges to unfold.
    pub folds_to_remove: Vec<Range<usize>>,
    /// The indices of the markers to fold.
    pub folds_to_create: Vec<usize>,
}

/// The numbers of those of the first `n` blocks that are inserted but not visible, each once.
pub open spec fn hidden_ids(
    blocks: Seq<RichModel>,
    positions: Seq<(Point, Point)>,
    active_rows: Seq<Range<u32>>,
    n: int,
) -> Seq<usize>
    decreases n,
{
    if n <= 0 {
        Seq::empty()
    } else {
        let before = hidden_ids(blocks, positions, active_rows, n - 1);
        match blocks[n - 1].block_id {
            Some(id) => if visible(positions[n - 1], active_rows) {
                before
            } else {
                convert::added(before, id)
            },
            None => before,
        }
    }
}

/// The indices of those of the first `n` blocks that are visible but not inserted.
pub open spec fn missing_blocks(
    blocks: Seq<RichModel>,
    positions: Seq<(Point, Point)>,
    active_rows: Seq<Range<u32>>,
    n: int,
) -> Seq<usize>
    decreases n,
{
    if n <= 0 {
        Seq::empty()
    } else {
        let before = missing_blocks(blocks, positions, active_rows, n - 1);
        if visible(positions[n - 1], active_rows) && blocks[n - 1].block_id is None {
            before.push((n - 1) as usize)
        } else {
            before
        }
    }
}

/// The blocks once those that are not visible have been taken out.
pub open spec fn without_hidden(
    blocks: Seq<RichModel>,
    positions: Seq<(Point, Point)>,
    active_rows: Seq<Range<u32>>,
) -> Seq<RichModel> {
    Seq::new(
        blocks.len(),
        |k: int|
            if visible(positions[k], active_rows) {
                blocks[k]
            } else {
                RichModel { block_id: None, ..blocks[k] }
            },
    )
}

/// A marker at this range is folded.
pub open spec fn is_desired(
    markers: Seq<MarkerPosition>,
    active_rows: Seq<Range<u32>>,
    range: Range<usize>,
) -> bool {
    exists|k: int|
        0 <= k < markers.len() && folded(#[trigger] markers[k], active_rows) && markers[k].range
            == range
}

/// A marker behind `k` is folded at its range.
pub open spec fn is_superseded(
    markers: Seq<MarkerPosition>,
    active_rows: Seq<Range<u32>>,
    k: int,
) -> bool {
    exists|j: int|
        k < j < markers.len() && folded(#[trigger] markers[j], active_rows) && markers[j].range
            == markers[k].range
}

/// The indices of those of the first `n` markers for which there is no fold yet but is to be one.
pub open spec fn missing_folds(
    markers: Seq<MarkerPosition>,
    active_rows: Seq<Range<u32>>,
    existing: Seq<Range<usize>>,
    n: int,
) -> Seq<usize>
    decreases n,
{
    if n <= 0 {
        Seq::empty()
    } else {
        let before = missing_folds(markers, active_rows, existing, n - 1);
        if folded(markers[n - 1], active_rows) && !is_superseded(markers, active_rows, n - 1)
            && !existing.contains(markers[n - 1].range) {
            before.push((n - 1) as usize)
        } else {
            before
        }
    }
}

/// Those of the first `n` folds for which there is no marker to be folded, each once.
pub open spec fn stale_folds(
    markers: Seq<MarkerPosition>,
    active_rows: Seq<Range<u32>>,
    existing: Seq<Range<usize>>,
    n: int,
) -> Seq<Range<usize>>
    decreases n,
{
    if n <= 0 {
        Seq::empty()
    } else {
        let before = stale_folds(markers, active_rows, existing, n - 1);
        if is_desired(markers, active_rows, existing[n - 1]) {
            before
        } else {
            convert::added(before, existing[n - 1])
        }
    }
}

/// Tests whether a block is shown: see [`visible`].
fn is_visible(position: &(Point, Point), active_rows: &Vec<Range<u32>>) -> (r: bool)
    ensures
        r == visible(*position, active_rows@),
{
    let (start, end) = *position;
    start != end && !live::rows_intersect(start.row..end.row.saturating_add(1), active_rows)
}

/// Tests whether a marker is folded: see [`folded`].
fn is_folded(marker: &MarkerPosition, active_rows: &Vec<Range<u32>>) -> (r: bool)
    ensures
        r == folded(*marker, active_rows@),
{
    marker.range.start < marker.range.end && !live::rows_intersect(
        marker.start_row..marker.end_row.saturating_add(1),
        active_rows,
    )
}

/// Tests for a range in a list.
fn holds_range(list: &Vec<Range<usize>>, range: &Range<usize>) -> (r: bool)
    ensures
        r == list@.contains(*range),
{
    for i in 0..list.len()
        invariant
            forall|k: int| 0 <= k < i ==> list@[k] != *range,
    {
        if list[i].start == range.start && list[i].end == range.end {
            return true;
        }
    }
    false
}

/// Tests for a marker that is folded at a range, from `from` on.
fn holds_folded(
    markers: &Vec<MarkerPosition>,
    active_rows: &Vec<Range<u32>>,
    range: &Range<usize>,
    from: usize,
) -> (r: bool)
    requires
        from <= markers@.len(),
    ensures
        r == exists|k: int|
            from <= k < markers@.len() && folded(#[trigger] markers@[k], active_rows@)
                && markers@[k].range == *range,
{
    let mut k: usize = from;
    while k < markers.len()
        invariant
            from <= k <= markers@.len(),
            forall|j: int|
                from <= j < k ==> !(folded(#[trigger] markers@[j], active_rows@)
                    && markers@[j].range == *range),
        decreases markers@.len() - k,
    {
        if markers[k].range.start == range.start && markers[k].range.end == range.end && is_folded(
            &markers[k],
            active_rows,
        ) {
            assert(folded(markers@[k as int], active_rows@) && markers@[k as int].range == *range);
            return true;
        }
        k += 1;
    }
    false
}

/// The markers to fold: see [`missing_folds`].
fn find_missing_folds(
    markers: &Vec<MarkerPosition>,
    active_rows: &Vec<Range<u32>>,
    existing: &Vec<Range<usize>>,
) -> (r: Vec<usize>)
    ensures
        r@ == missing_folds(markers@, active_rows@, existing@, markers@.len() as int),
{
    let mut r: Vec<usize> = Vec::new();
    for k in 0..markers.len()
        invariant
            r@ == missing_folds(markers@, active_rows@, existing@, k as int),
    {
        let range = &markers[k].range;
        let superseded = holds_folded(markers, active_rows, range, k + 1);
        assert(superseded == is_superseded(markers@, active_rows@, k as int));
        if is_folded(&markers[k], active_rows) && !superseded && !holds_range(existing, range) {
            r.push(k);
        }
    }
    r
}

/// The folds to take away: see [`stale_folds`].
fn find_stale_folds(
    markers: &Vec<MarkerPosition>,
    active_rows: &Vec<Range<u32>>,
    existing: &Vec<Range<usize>>,
) -> (r: Vec<Range<usize>>)
    ensures
        r@ == stale_folds(markers@, active_rows@, existing@, existing@.len() as int),
{
    let mut r: Vec<Range<usize>> = Vec::new();
    for i in 0..existing.len()
        invariant
            r@ == stale_folds(markers@, active_rows@, existing@, i as int),
    {
        let fold = &existing[i];
        let desired = holds_folded(markers, active_rows, fold, 0);
        assert(desired == is_desired(markers@, active_rows@, *fold));
        if !desired && !holds_range(&r, fold) {
            r.push(fold.start..fold.end);
        }
    }
    r
}

/// Brings a live preview in line with the rows that the selections touch: everything outside of
/// them is rendered, and everything on them shows its source. `positions` and `markers` are where
/// the blocks and the markers are now, and `existing_folds` are the folds of the live preview that
/// are there. Returns what there is to do, if there is a live preview.
pub fn sync_markdown_live_preview(
    session: &mut Session,
    active_rows: Vec<Range<u32>>,
    positions: &Vec<(Point, Point)>,
    markers: &Vec<MarkerPosition>,
    existing_folds: &Vec<Range<usize>>,
) -> (r: Option<SyncPlan>)
    requires
        positions@.len() == state_or_empty(*old(session)).rich_blocks.len(),
        markers@.len() == state_or_empty(*old(session)).inline_markers.len(),
    ensures
        *old(session) is None ==> r is None && *final(session) is None,
        *old(session) is Some ==> {
            let state = state_or_empty(*old(session));
            let blocks = state.rich_blocks;
            let rows = active_rows@;
            &&& session_model(*final(session)) == Some(
                StateModel {
                    rich_blocks: without_hidden(blocks, positions@, rows),
                    active_rows: rows,
                    ..state
                },
            )
            &&& r is Some
            &&& r->0.blocks_to_remove@ == hidden_ids(
                blocks,
                positions@,
                rows,
                blocks.len() as int,
            )
            &&& r->0.blocks_to_insert@ == missing_blocks(
                blocks,
                positions@,
                rows,
                blocks.len() as int,
            )
            &&& r->0.folds_to_remove@ == stale_folds(
                markers@,
                rows,
                existing_folds@,
                existing_folds@.len() as int,
            )
            &&& r->0.folds_to_create@ == missing_folds(
                markers@,
                rows,
                existing_folds@,
                markers@.len() as int,
            )
        },
{
    let mut state = match session.take() {
        Some(state) => state,
        None => {
            return None;
        },
    };
    let ghost blocks = state@.rich_blocks;
    let ghost rows = active_rows@;
    let ghost (kinds, generation) = (state.inline_markers, state.parse_generation);
    let mut blocks_to_remove: Vec<usize> = Vec::new();
    let mut blocks_to_insert: Vec<usize> = Vec::new();
    let count = state.rich_blocks.len();
    for i in 0..count
        invariant
            count == blocks.len(),
            rows == active_rows@,
            positions@.len() == blocks.len(),
            state.rich_blocks@.len() == blocks.len(),
            state.inline_markers == kinds,
            state.parse_generation == generation,
            blocks_to_remove@ == hidden_ids(blocks, positions@, rows, i as int),
            blocks_to_insert@ == missing_blocks(blocks, positions@, rows, i as int),
            forall|k: int|
                0 <= k < blocks.len() ==> (#[trigger] state.rich_blocks@[k])@ == (if k < i {
                    without_hidden(blocks, positions@, rows)[k]
                } else {
                    blocks[k]
                }),
    {
        assert(state.rich_blocks@[i as int]@ == blocks[i as int]);
        let shown = is_visible(&positions[i], &active_rows);
        match state.rich_blocks[i].block_id {
            None => {
                if shown {
                    blocks_to_insert.push(i);
                }
            },
            Some(id) => {
                if !shown {
                    add_id(&mut blocks_to_remove, id);
                    state.rich_blocks[i].block_id = None;
                }
            },
        }
    }
    let folds_to_remove = find_stale_folds(markers, &active_rows, existing_folds);
    let folds_to_create = find_missing_folds(markers, &active_rows, existing_folds);
    state.active_rows = active_rows;
    assert(state@.rich_blocks =~= without_hidden(blocks, positions@, rows));
    *session = Some(state);
    Some(SyncPlan { blocks_to_remove, blocks_to_insert, folds_to_remove, folds_to_create })
}

/// The blocks once the first `n` of the indices have been given their numbers.
pub open spec fn with_ids(
    blocks: Seq<RichModel>,
    indices: Seq<usize>,
    ids: Seq<usize>,
    n: int,
) -> Seq<RichModel>
    decreases n,
{
    if n <= 0 {
        blocks
    } else {
        let before = with_ids(blocks, indices, ids, n - 1);
        let i = indices[n - 1] as int;
        if i < before.len() {
            before.update(i, RichModel { block_id: Some(ids[n - 1]), ..before[i] })
        } else {
            before
        }
    }
}

/// How many of the indices have a number.
pub open spec fn both(indices: Seq<usize>, ids: Seq<usize>) -> int {
    if indices.len() < ids.len() {
        indices.len() as int
    } else {
        ids.len() as int
    }
}

/// Notes the numbers that the inserted blocks have been given, in the order of their indices.
pub fn markdown_live_preview_blocks_inserted(
    session: &mut Session,
    indices: &Vec<usize>,
    ids: &Vec<usize>,
)
    ensures
        *old(session) is None ==> *final(session) is None,
        *old(session) is Some ==> session_model(*final(session)) == Some(
            StateModel {
                rich_blocks: with_ids(
                    state_or_empty(*old(session)).rich_blocks,
                    indices@,
                    ids@,
                    both(indices@, ids@),
                ),
                ..state_or_empty(*old(session))
            },
        ),
{
    let mut state = match session.take() {
        Some(state) => state,
        None => {
            return ;
        },
    };
    let ghost before = state@;
    let count = if indices.len() < ids.len() {
        indices.len()
    } else {
        ids.len()
    };
    for n in 0..count
        invariant
            count == both(indices@, ids@),
            state@ == (StateModel {
                rich_blocks: with_ids(before.rich_blocks, indices@, ids@, n as int),
                ..before
            }),
    {
        let i = indices[n];
        let ghost here = state@.rich_blocks;
        if i < state.rich_blocks.len() {
            assert(here[i as int] == state.rich_blocks@[i as int]@);
            state.rich_blocks[i].block_id = Some(ids[n]);
        }
        assert(state@.rich_blocks =~= with_ids(before.rich_blocks, indices@, ids@, n + 1));
    }
    *session = Some(state);
}

/// The first block with this number.
pub open spec fn first_with(blocks: Seq<RichModel>, id: usize, i: int) -> Option<int>
    decreases blocks.len() - i,
{
    if i >= blocks.len() {
        None
    } else if blocks[i].block_id == Some(id) {
        Some(i)
    } else {
        first_with(blocks, id, i + 1)
    }
}

/// Finds the first block with a number: see [`first_with`].
fn find_block(blocks: &Vec<RichBlockState>, id: usize) -> (r: Option<usize>)
    ensures
        match first_with(rich_models(blocks@), id, 0) {
            Some(i) => r is Some && r->0 == i && i < blocks@.len(),
            None => r is None,
        },
{
    let ghost models = rich_models(blocks@);
    let mut i: usize = 0;
    while i < blocks.len()
        invariant
            models == rich_models(blocks@),
            i <= blocks@.len(),
            first_with(models, id, 0) == first_with(models, id, i as int),
        decreases blocks@.len() - i,
    {
        assert(models[i as int] == blocks@[i as int]@);
        if let Some(found) = blocks[i].block_id {
            if found == id {
                return Some(i);
            }
        }
        i += 1;
    }
    None
}

/// Notes the height of a block that has been measured. Returns whether the block has to be resized.
pub fn set_markdown_live_preview_block_height(
    session: &mut Session,
    block_id: usize,
    height: u32,
) -> (r: bool)
    ensures
        match first_with(state_or_empty(*old(session)).rich_blocks, block_id, 0) {
            Some(i) => {
                let state = state_or_empty(*old(session));
                let block = state.rich_blocks[i];
                &&& r == (block.height != height)
                &&& session_model(*final(session)) == Some(
                    StateModel {
                        rich_blocks: state.rich_blocks.update(i, RichModel { height, ..block }),
                        ..state
                    },
                )
            },
            None => !r && *final(session) == *old(session),
        },
{
    let mut state = match session.take() {
        Some(state) => state,
        None => {
            return false;
        },
    };
    let ghost blocks = state@.rich_blocks;
    let mut resized = false;
    if let Some(i) = find_block(&state.rich_blocks, block_id) {
        assert(blocks[i as int] == state.rich_blocks@[i as int]@);
        resized = state.rich_blocks[i].height != height;
        state.rich_blocks[i].height = height;
        assert(rich_models(state.rich_blocks@) =~= blocks.update(
            i as int,
            RichModel { height, ..blocks[i as int] },
        ));
    }
    *session = Some(state);
    resized
}

/// The state after `n` more parses have been asked for.
pub open spec fn after_requests(state: StateModel, n: nat) -> StateModel
    decreases n,
{
    if n == 0 {
        state
    } else {
        with_next_generation(after_requests(state, (n - 1) as nat))
    }
}

/// What comes of the result of a parse: its layout is taken over if the parse still counts.
pub open spec fn after_parse(
    state: StateModel,
    generation: usize,
    ranges: Seq<Range<usize>>,
    layout: LayoutModel,
) -> StateModel {
    if counts(Some(state), generation) {
        with_layout(state, ranges, layout)
    } else {
        state
    }
}

proof fn lemma_after_requests(state: StateModel, n: nat)
    requires
        state.parse_generation + n <= usize::MAX,
    ensures
        after_requests(state, n) == (StateModel {
            parse_generation: (state.parse_generation + n) as usize,
            ..state
        }),
    decreases n,
{
    if n > 0 {
        lemma_after_requests(state, (n - 1) as nat);
    }
}

/// However many parses are asked for one after the other, the last one alone counts. Each request
/// takes the next generation. The layout of an earlier one changes nothing when it comes, and that
/// of the last one is taken over, whichever comes first.
pub proof fn law_only_the_last_parse_counts(
    state: StateModel,
    n: nat,
    k: nat,
    ranges: Seq<Range<usize>>,
    layout: LayoutModel,
)
    requires
        1 <= k <= n,
        state.parse_generation + n <= usize::MAX,
    ensures
        ({
            let last = after_requests(state, n);
            let generation = after_requests(state, k).parse_generation;
            &&& last.parse_generation == state.parse_generation + n
            &&& generation == state.parse_generation + k
            &&& counts(Some(last), generation) <==> k == n
            &&& !counts(None, generation)
            &&& after_parse(last, generation, ranges, layout) == (if k == n {
                with_layout(last, ranges, layout)
            } else {
                last
            })
            &&& after_parse(last, generation, ranges, layout).parse_generation
                == last.parse_generation
        }),
{
    lemma_after_requests(state, n);
    lemma_after_requests(state, k);
}

proof fn lemma_last_at(ranges: Seq<Range<usize>>, range: Range<usize>)
    ensures
        match last_at(ranges, range) {
            Some(i) => 0 <= i < ranges.len() && ranges[i] == range,
            None => !ranges.contains(range),
        },
    decreases ranges.len(),
{
    if ranges.len() > 0 && ranges.last() != range {
        lemma_last_at(ranges.drop_last(), range);
        if ranges.contains(range) {
            let k = choose|k: int| 0 <= k < ranges.len() && ranges[k] == range;
            assert(ranges.drop_last()[k] == range);
        }
    }
}

/// A block that still stands where the new layout has it, with the same source and of the same
/// kind, goes on: it keeps its height and its number. It is enough that no other block stands at
/// the same range, before or now.
pub proof fn law_unchanged_blocks_go_on(
    old_blocks: Seq<RichModel>,
    ranges: Seq<Range<usize>>,
    blocks: Seq<BlockModel>,
    i: int,
    k: int,
)
    requires
        0 <= i < old_blocks.len() <= usize::MAX,
        0 <= k < blocks.len(),
        ranges.len() == old_blocks.len(),
        ranges[i] == blocks[k].replacement_range,
        forall|j: int| 0 <= j < ranges.len() && j != i ==> ranges[j] != ranges[i],
        forall|j: int|
            0 <= j < blocks.len() && j != k ==> (#[trigger] blocks[j]).replacement_range
                != blocks[k].replacement_range,
        old_blocks[i].block.source == blocks[k].source,
        old_blocks[i].block.kind == blocks[k].kind,
    ensures
        applied(old_blocks, ranges, blocks, k) == (RichModel { block: blocks[k], ..old_blocks[i] }),
        goes_on(old_blocks, ranges, blocks, i),
{
    lemma_last_at(ranges, ranges[i]);
    assert(ranges.contains(ranges[i]));
    assert(reused(old_blocks, ranges, blocks, k) == Some(i as usize));
}

proof fn lemma_missing_blocks(
    blocks: Seq<RichModel>,
    positions: Seq<(Point, Point)>,
    active_rows: Seq<Range<u32>>,
    n: int,
    k: int,
)
    requires
        0 <= n <= blocks.len() <= usize::MAX,
    ensures
        missing_blocks(blocks, positions, active_rows, n).contains(k as usize) && 0 <= k
            < blocks.len() <==> 0 <= k < n && visible(positions[k], active_rows)
            && blocks[k].block_id is None,
    decreases n,
{
    if n > 0 {
        lemma_missing_blocks(blocks, positions, active_rows, n - 1, k);
        let before = missing_blocks(blocks, positions, active_rows, n - 1);
        let after = before.push((n - 1) as usize);
        assert(after.contains(k as usize) <==> before.contains(k as usize) || k as usize == (n
            - 1) as usize) by {
            if before.contains(k as usize) {
                let j = choose|j: int| 0 <= j < before.len() && before[j] == k as usize;
                assert(after[j] == k as usize);
            }
            if k as usize == (n - 1) as usize {
                assert(after[before.len() as int] == k as usize);
            }
        }
    }
}

proof fn lemma_with_ids(blocks: Seq<RichModel>, indices: Seq<usize>, ids: Seq<usize>, n: int, k: int)
    requires
        0 <= n <= indices.len(),
        0 <= k < blocks.len() <= usize::MAX,
    ensures
        with_ids(blocks, indices, ids, n).len() == blocks.len(),
        with_ids(blocks, indices, ids, n)[k].block_id is Some <==> blocks[k].block_id is Some
            || indices.take(n).contains(k as usize),
    decreases n,
{
    if n > 0 {
        lemma_with_ids(blocks, indices, ids, n - 1, k);
        let before = indices.take(n - 1);
        let after = indices.take(n);
        assert(after =~= before.push(indices[n - 1]));
        assert(after.contains(k as usize) <==> before.contains(k as usize) || indices[n - 1]
            == k as usize) by {
            if before.contains(k as usize) {
                let j = choose|j: int| 0 <= j < before.len() && before[j] == k as usize;
                assert(after[j] == k as usize);
            }
            if indices[n - 1] == k as usize {
                assert(after[n - 1] == k as usize);
            }
        }
    }
}

/// Once an editor has been brought in line and its blocks have been inserted, a block is inserted
/// exactly if it is not empty and no selection touches its rows.
pub proof fn law_sync_shows_what_is_visible(
    blocks: Seq<RichModel>,
    positions: Seq<(Point, Point)>,
    active_rows: Seq<Range<u32>>,
    ids: Seq<usize>,
    k: int,
)
    requires
        positions.len() == blocks.len(),
        0 <= k < blocks.len() <= usize::MAX,
        ids.len() == missing_blocks(blocks, positions, active_rows, blocks.len() as int).len(),
    ensures
        ({
            let missing = missing_blocks(blocks, positions, active_rows, blocks.len() as int);
            let synced = without_hidden(blocks, positions, active_rows);
            with_ids(synced, missing, ids, both(missing, ids))[k].block_id is Some <==> visible(
                positions[k],
                active_rows,
            )
        }),
{
    let missing = missing_blocks(blocks, positions, active_rows, blocks.len() as int);
    let synced = without_hidden(blocks, positions, active_rows);
    lemma_missing_blocks(blocks, positions, active_rows, blocks.len() as int, k);
    lemma_with_ids(synced, missing, ids, missing.len() as int, k);
    assert(missing.take(missing.len() as int) =~= missing);
}

/// There is nothing to insert or to take out of an editor that is in line.
pub proof fn law_sync_settles(
    blocks: Seq<RichModel>,
    positions: Seq<(Point, Point)>,
    active_rows: Seq<Range<u32>>,
    n: int,
)
    requires
        0 <= n <= blocks.len(),
        positions.len() == blocks.len(),
        forall|k: int|
            0 <= k < blocks.len() ==> ((#[trigger] blocks[k]).block_id is Some <==> visible(
                positions[k],
                active_rows,
            )),
    ensures
        missing_blocks(blocks, positions, active_rows, n).len() == 0,
        hidden_ids(blocks, positions, active_rows, n).len() == 0,
    decreases n,
{
    if n > 0 {
        law_sync_settles(blocks, positions, active_rows, n - 1);
        assert(blocks[n - 1].block_id is Some <==> visible(positions[n - 1], active_rows));
    }
}

/// A fold is created at the range.
pub open spec fn is_created(
    markers: Seq<MarkerPosition>,
    active_rows: Seq<Range<u32>>,
    existing: Seq<Range<usize>>,
    range: Range<usize>,
    n: int,
) -> bool {
    exists|j: int|
        0 <= j < missing_folds(markers, active_rows, existing, n).len() && markers[(
        #[trigger] missing_folds(markers, active_rows, existing, n)[j]) as int].range == range
}

proof fn lemma_missing_folds(
    markers: Seq<MarkerPosition>,
    active_rows: Seq<Range<u32>>,
    existing: Seq<Range<usize>>,
    range: Range<usize>,
    n: int,
)
    requires
        0 <= n <= markers.len() <= usize::MAX,
    ensures
        is_created(markers, active_rows, existing, range, n) <==> exists|k: int|
            0 <= k < n && folded(#[trigger] markers[k], active_rows) && !is_superseded(
                markers,
                active_rows,
                k,
            ) && !existing.contains(range) && markers[k].range == range,
    decreases n,
{
    if n > 0 {
        lemma_missing_folds(markers, active_rows, existing, range, n - 1);
        let before = missing_folds(markers, active_rows, existing, n - 1);
        let after = missing_folds(markers, active_rows, existing, n);
        if is_created(markers, active_rows, existing, range, n - 1) {
            let j = choose|j: int|
                0 <= j < before.len() && markers[(#[trigger] before[j]) as int].range == range;
            assert(after[j] == before[j]);
        }
        if is_created(markers, active_rows, existing, range, n) {
            let j = choose|j: int|
                0 <= j < after.len() && markers[(#[trigger] after[j]) as int].range == range;
            if j < before.len() {
                assert(after[j] == before[j]);
            } else {
                assert(markers[n - 1].range == range);
            }
        }
        if folded(markers[n - 1], active_rows) && !is_superseded(markers, active_rows, n - 1)
            && !existing.contains(range) && markers[n - 1].range == range {
            assert(after[before.len() as int] == n - 1);
        }
    }
}

proof fn lemma_not_superseded(
    markers: Seq<MarkerPosition>,
    active_rows: Seq<Range<u32>>,
    k: int,
) -> (r: int)
    requires
        0 <= k < markers.len(),
        folded(markers[k], active_rows),
    ensures
        k <= r < markers.len(),
        folded(markers[r], active_rows),
        markers[r].range == markers[k].range,
        !is_superseded(markers, active_rows, r),
    decreases markers.len() - k,
{
    if is_superseded(markers, active_rows, k) {
        let j = choose|j: int|
            k < j < markers.len() && folded(#[trigger] markers[j], active_rows) && markers[j].range
                == markers[k].range;
        lemma_not_superseded(markers, active_rows, j)
    } else {
        k
    }
}

proof fn lemma_stale_folds(
    markers: Seq<MarkerPosition>,
    active_rows: Seq<Range<u32>>,
    existing: Seq<Range<usize>>,
    range: Range<usize>,
    n: int,
)
    requires
        0 <= n <= existing.len(),
    ensures
        stale_folds(markers, active_rows, existing, n).contains(range) <==> existing.take(
            n,
        ).contains(range) && !is_desired(markers, active_rows, range),
    decreases n,
{
    if n > 0 {
        lemma_stale_folds(markers, active_rows, existing, range, n - 1);
        let before = stale_folds(markers, active_rows, existing, n - 1);
        let fold = existing[n - 1];
        assert(existing.take(n) =~= existing.take(n - 1).push(fold));
        assert(before.push(fold).contains(range) <==> before.contains(range) || range == fold) by {
            broadcast use vstd::seq_lib::group_seq_properties;

        }
        assert(existing.take(n - 1).push(fold).contains(range) <==> existing.take(n - 1).contains(
            range,
        ) || range == fold) by {
            broadcast use vstd::seq_lib::group_seq_properties;

        }
    }
}

/// Once an editor has been brought in line, there is a fold at a range exactly if there is a marker
/// at it that is not empty and whose rows no selection touches, whatever folds there were before.
pub proof fn law_sync_folds_what_is_hidden(
    markers: Seq<MarkerPosition>,
    active_rows: Seq<Range<u32>>,
    existing: Seq<Range<usize>>,
    range: Range<usize>,
)
    requires
        markers.len() <= usize::MAX,
    ensures
        (existing.contains(range) && !stale_folds(
            markers,
            active_rows,
            existing,
            existing.len() as int,
        ).contains(range)) || is_created(
            markers,
            active_rows,
            existing,
            range,
            markers.len() as int,
        ) <==> is_desired(markers, active_rows, range),
{
    lemma_stale_folds(markers, active_rows, existing, range, existing.len() as int);
    assert(existing.take(existing.len() as int) =~= existing);
    lemma_missing_folds(markers, active_rows, existing, range, markers.len() as int);
    if is_desired(markers, active_rows, range) && !existing.contains(range) {
        let k = choose|k: int|
            0 <= k < markers.len() && folded(#[trigger] markers[k], active_rows) && markers[k].range
                == range;
        let r = lemma_not_superseded(markers, active_rows, k);
        assert(folded(markers[r], active_rows));
    }
}

} // verus!
