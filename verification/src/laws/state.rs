//! What an editor keeps of its live preview from one layout to the next.
use crate::autolink;
use crate::block_text;
use crate::layout::LayoutModel;
use crate::live;
use crate::live::ImageReference;
use crate::preview::{BlockModel, MarkdownLivePreviewBlockKind};
use crate::scan;
use crate::session;
use crate::session::{RemovalPlan, RichModel, Session, StateModel};
use crate::span;
use std::ops::Range;
use vstd::prelude::*;
use vstd::utf8::*;

verus! {

/// What is taken out with a live preview are the numbers of its blocks that are in the editor, each
/// once.
pub proof fn law_removal_takes_all_blocks_out(blocks: Seq<RichModel>, id: usize)
    ensures
        session::inserted_ids(blocks, blocks.len() as int).contains(id) <==> exists|k: int|
            0 <= k < blocks.len() && (#[trigger] blocks[k]).block_id == Some(id),
        session::inserted_ids(blocks, blocks.len() as int).no_duplicates(),
{
    lemma_inserted_ids(blocks, blocks.len() as int, id);
}

/// With a live preview go its folds, exactly if it has markers.
pub proof fn law_removal_unfolds_markers(session: Session, plan: Option<RemovalPlan>)
    requires
        session::is_removal(session, plan),
    ensures
        session is None <==> plan is None,
        session matches Some(state) ==> (plan->0.remove_folds <==> state@.inline_markers.len() > 0),
        session matches Some(state) ==> forall|id: usize|
            #[trigger] plan->0.block_ids@.contains(id) <==> exists|k: int|
                0 <= k < state@.rich_blocks.len() && (#[trigger] state@.rich_blocks[k]).block_id
                    == Some(id),
{
    if let Some(state) = session {
        assert forall|id: usize| #[trigger] plan->0.block_ids@.contains(id) <==> exists|k: int|
            0 <= k < state@.rich_blocks.len() && (#[trigger] state@.rich_blocks[k]).block_id
                == Some(id) by {
            law_removal_takes_all_blocks_out(state@.rich_blocks, id);
        }
    }
}

/// Each request for a parse takes the next generation, and nothing else changes with it.
pub proof fn law_requests_take_the_next_generation(state: StateModel)
    requires
        state.parse_generation < usize::MAX,
    ensures
        ({
            let next = session::with_next_generation(state);
            &&& next.parse_generation == state.parse_generation + 1
            &&& next.rich_blocks == state.rich_blocks
            &&& next.inline_markers == state.inline_markers
            &&& next.active_rows == state.active_rows
            &&& session::counts(Some(next), next.parse_generation)
            &&& !session::counts(Some(next), state.parse_generation)
            &&& !session::counts(None, next.parse_generation)
        }),
{
}

proof fn lemma_inserted_ids(blocks: Seq<RichModel>, n: int, id: usize)
    requires
        0 <= n <= blocks.len(),
    ensures
        session::inserted_ids(blocks, n).contains(id) <==> exists|k: int|
            0 <= k < n && (#[trigger] blocks[k]).block_id == Some(id),
        session::inserted_ids(blocks, n).no_duplicates(),
    decreases n,
{
    if n > 0 {
        lemma_inserted_ids(blocks, n - 1, id);
        if let Some(here) = blocks[n - 1].block_id {
            super::editor::lemma_added(session::inserted_ids(blocks, n - 1), here, id);
        }
    }
}

proof fn lemma_last_at(ranges: Seq<Range<usize>>, range: Range<usize>)
    ensures
        match session::last_at(ranges, range) {
            Some(i) => 0 <= i < ranges.len() && ranges[i] == range && forall|j: int|
                i < j < ranges.len() ==> ranges[j] != range,
            None => forall|j: int| 0 <= j < ranges.len() ==> ranges[j] != range,
        },
    decreases ranges.len(),
{
    if ranges.len() > 0 {
        let init = ranges.drop_last();
        lemma_last_at(init, range);
        assert(forall|j: int| 0 <= j < init.len() ==> #[trigger] init[j] == ranges[j]);
        assert(ranges[ranges.len() - 1] == ranges.last());
        assert forall|j: int|
            0 <= j < ranges.len() - 1 && init[j] != range implies #[trigger] ranges[j] != range by {
        }
    }
}

/// A new block goes on from an old one only where the old one stands now, with the same source and
/// of the same kind; where several old blocks stand, from the last of them.
pub proof fn law_blocks_go_on_where_they_stand(
    old_blocks: Seq<RichModel>,
    ranges: Seq<Range<usize>>,
    blocks: Seq<BlockModel>,
    k: int,
    i: usize,
)
    requires
        ranges.len() == old_blocks.len() <= usize::MAX,
        0 <= k < blocks.len(),
        session::reused(old_blocks, ranges, blocks, k) == Some(i),
    ensures
        i < old_blocks.len(),
        ranges[i as int] == blocks[k].replacement_range,
        old_blocks[i as int].block.source == blocks[k].source,
        old_blocks[i as int].block.kind == blocks[k].kind,
        forall|j: int| i < j < ranges.len() ==> ranges[j] != blocks[k].replacement_range,
        forall|j: int|
            0 <= j < k ==> (#[trigger] blocks[j]).replacement_range != blocks[k].replacement_range,
{
    lemma_last_at(ranges, blocks[k].replacement_range);
}

/// An old block goes on as one new block at most.
pub proof fn law_blocks_go_on_once(
    old_blocks: Seq<RichModel>,
    ranges: Seq<Range<usize>>,
    blocks: Seq<BlockModel>,
    k: int,
    l: int,
    i: usize,
)
    requires
        ranges.len() == old_blocks.len() <= usize::MAX,
        0 <= k < blocks.len(),
        0 <= l < blocks.len(),
        session::reused(old_blocks, ranges, blocks, k) == Some(i),
        session::reused(old_blocks, ranges, blocks, l) == Some(i),
    ensures
        k == l,
{
    law_blocks_go_on_where_they_stand(old_blocks, ranges, blocks, k, i);
    law_blocks_go_on_where_they_stand(old_blocks, ranges, blocks, l, i);
    if k < l {
        assert(blocks[k].replacement_range != blocks[l].replacement_range);
    } else if l < k {
        assert(blocks[l].replacement_range != blocks[k].replacement_range);
    }
}

/// A block that none stood at before with its source and its kind starts anew: it is not in the
/// editor yet, and its height is estimated.
pub proof fn law_changed_blocks_start_anew(
    old_blocks: Seq<RichModel>,
    ranges: Seq<Range<usize>>,
    blocks: Seq<BlockModel>,
    k: int,
)
    requires
        ranges.len() == old_blocks.len() <= usize::MAX,
        0 <= k < blocks.len(),
        forall|i: int|
            0 <= i < ranges.len() ==> !(#[trigger] ranges[i] == blocks[k].replacement_range
                && old_blocks[i].block.source == blocks[k].source && old_blocks[i].block.kind
                == blocks[k].kind),
    ensures
        session::applied(old_blocks, ranges, blocks, k) == (RichModel {
            block: blocks[k],
            height: live::initial_height(blocks[k]),
            block_id: None,
        }),
{
    lemma_last_at(ranges, blocks[k].replacement_range);
}

/// No block is lost track of: one that was in the editor is either taken out or goes on with its
/// number and its height. With numbers of their own, not both.
pub proof fn law_inserted_blocks_go_on_or_leave(
    old_blocks: Seq<RichModel>,
    ranges: Seq<Range<usize>>,
    blocks: Seq<BlockModel>,
    i: int,
    id: usize,
)
    requires
        ranges.len() == old_blocks.len() <= usize::MAX,
        0 <= i < old_blocks.len(),
        old_blocks[i].block_id == Some(id),
        forall|j: int|
            0 <= j < old_blocks.len() && j != i ==> (#[trigger] old_blocks[j]).block_id != Some(id),
    ensures
        ({
            let leaves = session::dropped_ids(
                old_blocks,
                ranges,
                blocks,
                ranges.len() as int,
            ).contains(id);
            let goes_on = exists|k: int|
                0 <= k < blocks.len() && #[trigger] session::applied(
                    old_blocks,
                    ranges,
                    blocks,
                    k,
                ) == (RichModel { block: blocks[k], ..old_blocks[i] });
            leaves <==> !goes_on
        }),
{
    lemma_dropped_ids(old_blocks, ranges, blocks, ranges.len() as int, id);
    if session::goes_on(old_blocks, ranges, blocks, i) {
        let k = choose|k: int|
            0 <= k < blocks.len() && #[trigger] session::reused(old_blocks, ranges, blocks, k)
                == Some(i as usize);
        assert(session::applied(old_blocks, ranges, blocks, k) == (RichModel {
            block: blocks[k],
            ..old_blocks[i]
        }));
    }
    if exists|k: int|
        0 <= k < blocks.len() && #[trigger] session::applied(old_blocks, ranges, blocks, k) == (
        RichModel { block: blocks[k], ..old_blocks[i] }) {
        let k = choose|k: int|
            0 <= k < blocks.len() && #[trigger] session::applied(old_blocks, ranges, blocks, k) == (
            RichModel { block: blocks[k], ..old_blocks[i] });
        let j = session::reused(old_blocks, ranges, blocks, k)->0;
        assert(session::reused(old_blocks, ranges, blocks, k) is Some);
        law_blocks_go_on_where_they_stand(old_blocks, ranges, blocks, k, j);
        assert(old_blocks[j as int].block_id == Some(id));
        assert(session::goes_on(old_blocks, ranges, blocks, i));
    }
}

proof fn lemma_dropped_ids(
    old_blocks: Seq<RichModel>,
    ranges: Seq<Range<usize>>,
    blocks: Seq<BlockModel>,
    n: int,
    id: usize,
)
    requires
        0 <= n <= old_blocks.len(),
    ensures
        session::dropped_ids(old_blocks, ranges, blocks, n).contains(id) <==> exists|i: int|
            0 <= i < n && (#[trigger] old_blocks[i]).block_id == Some(id) && !session::goes_on(
                old_blocks,
                ranges,
                blocks,
                i,
            ),
    decreases n,
{
    if n > 0 {
        lemma_dropped_ids(old_blocks, ranges, blocks, n - 1, id);
        if let Some(here) = old_blocks[n - 1].block_id {
            super::editor::lemma_added(
                session::dropped_ids(old_blocks, ranges, blocks, n - 1),
                here,
                id,
            );
        }
    }
}

/// A new layout brings its own blocks and markers, in their order, and leaves the rest of the state
/// alone.
pub proof fn law_layouts_are_taken_over(
    state: StateModel,
    ranges: Seq<Range<usize>>,
    layout: LayoutModel,
)
    ensures
        ({
            let after = session::with_layout(state, ranges, layout);
            &&& after.rich_blocks.len() == layout.blocks.len()
            &&& forall|k: int|
                0 <= k < layout.blocks.len() ==> (#[trigger] after.rich_blocks[k]).block
                    == layout.blocks[k]
            &&& after.inline_markers.len() == layout.inline_markers.len()
            &&& forall|k: int|
                0 <= k < layout.inline_markers.len() ==> #[trigger] after.inline_markers[k]
                    == layout.inline_markers[k].kind
            &&& after.active_rows == state.active_rows
            &&& after.parse_generation == state.parse_generation
        }),
{
}

/// Each block that has been inserted has the number that the editor gave it.
pub proof fn law_inserted_blocks_get_their_numbers(
    blocks: Seq<RichModel>,
    indices: Seq<usize>,
    ids: Seq<usize>,
    n: int,
    j: int,
)
    requires
        0 <= j < n <= indices.len(),
        n <= ids.len(),
        indices.no_duplicates(),
        indices[j] < blocks.len(),
    ensures
        session::with_ids(blocks, indices, ids, n).len() == blocks.len(),
        session::with_ids(blocks, indices, ids, n)[indices[j] as int].block_id == Some(ids[j]),
    decreases n,
{
    lemma_with_ids_len(blocks, indices, ids, n - 1);
    if j < n - 1 {
        law_inserted_blocks_get_their_numbers(blocks, indices, ids, n - 1, j);
        assert(indices[j] != indices[n - 1]);
    }
}

proof fn lemma_with_ids_len(blocks: Seq<RichModel>, indices: Seq<usize>, ids: Seq<usize>, n: int)
    ensures
        session::with_ids(blocks, indices, ids, n).len() == blocks.len(),
    decreases n,
{
    if n > 0 {
        lemma_with_ids_len(blocks, indices, ids, n - 1);
    }
}

/// The block that a height is noted for is the first one with the number, if there is one.
pub proof fn law_heights_go_by_number(blocks: Seq<RichModel>, id: usize, i: int)
    requires
        0 <= i <= blocks.len(),
    ensures
        match session::first_with(blocks, id, i) {
            Some(k) => i <= k < blocks.len() && blocks[k].block_id == Some(id) && forall|j: int|
                i <= j < k ==> (#[trigger] blocks[j]).block_id != Some(id),
            None => forall|j: int|
                i <= j < blocks.len() ==> (#[trigger] blocks[j]).block_id != Some(id),
        },
    decreases blocks.len() - i,
{
    if i < blocks.len() {
        law_heights_go_by_number(blocks, id, i + 1);
    }
}

/// How many newlines are in `b` from `p` on.
pub open spec fn newlines(b: Seq<u8>, p: int) -> nat
    decreases b.len() - p,
{
    if p >= b.len() {
        0
    } else {
        newlines(b, p + 1) + if b[p] == '\n' as u8 {
            1nat
        } else {
            0
        }
    }
}

proof fn lemma_newlines_skip(b: Seq<u8>, p: int, q: int)
    requires
        p <= q <= b.len(),
        forall|k: int| p <= k < q ==> b[k] != 10,
    ensures
        newlines(b, p) == newlines(b, q),
    decreases q - p,
{
    if p < q {
        lemma_newlines_skip(b, p + 1, q);
    }
}

/// A text has as many lines as newlines, and one more if it does not end with one.
pub proof fn law_lines_end_with_newlines(b: Seq<u8>, p: int)
    requires
        0 <= p <= b.len(),
    ensures
        block_text::lines(b, p).len() == newlines(b, p) + (if p < b.len() && b.last() != '\n' as u8 {
            1nat
        } else {
            0
        }),
    decreases b.len() - p,
{
    if p < b.len() {
        let n = b.len() as int;
        span::lemma_find_byte(b, 10, p, n);
        let end = span::find_byte(b, 10, p, n);
        let next = scan::next_line(b, p, n);
        law_lines_end_with_newlines(b, next);
        lemma_newlines_skip(b, p, end);
    }
}

/// Until it has been measured, a block is as high as its source has lines. An image has eight lines,
/// a rule one, and an indented code block two more than its source.
pub proof fn law_heights_are_estimated_by_lines(block: BlockModel)
    requires
        newlines(encode_utf8(block.source), 0) + 3 <= u32::MAX,
    ensures
        ({
            let b = encode_utf8(block.source);
            let lines = newlines(b, 0) + (if b.len() > 0 && b.last() != '\n' as u8 {
                1nat
            } else {
                0
            });
            let height = live::initial_height(block) as int;
            &&& block.kind is Image ==> height == 8
            &&& block.kind is Rule ==> height == 1
            &&& (block.kind matches MarkdownLivePreviewBlockKind::CodeBlock { is_indented, .. }
                && is_indented) ==> height == (if lines == 0 {
                1
            } else {
                lines as int
            }) + 2
            &&& !(block.kind is Image) && !(block.kind is Rule) && !(block.kind matches
                MarkdownLivePreviewBlockKind::CodeBlock { is_indented, .. } && is_indented)
                ==> height == (if lines == 0 {
                1
            } else {
                lines as int
            })
        }),
{
    law_lines_end_with_newlines(encode_utf8(block.source), 0);
}

/// The characters `[`, `mark` and `]` stand at `i`.
pub open spec fn shows_box(b: Seq<u8>, mark: char, i: int) -> bool {
    0 <= i && i + 3 <= b.len() && b[i] == '[' as u8 && b[i + 1] == mark as u8 && b[i + 2]
        == ']' as u8
}

/// The checkbox that is turned over is the first empty one; if there is none, the first one with an
/// `x`; and if there is none of these, the first one with an `X`.
pub proof fn law_the_first_checkbox_is_turned_over(b: Seq<u8>, i: int)
    ensures
        live::task_box(b) == Some(i) <==> {
            ||| shows_box(b, ' ', i) && forall|k: int| #[trigger] shows_box(b, ' ', k) ==> i <= k
            ||| (forall|k: int| !#[trigger] shows_box(b, ' ', k)) && shows_box(b, 'x', i) && forall|
                k: int,
            | #[trigger]
                shows_box(b, 'x', k) ==> i <= k
            ||| (forall|k: int| !#[trigger] shows_box(b, ' ', k)) && (forall|k: int|
                !#[trigger] shows_box(b, 'x', k)) && shows_box(b, 'X', i) && forall|k: int|
                #[trigger] shows_box(b, 'X', k) ==> i <= k
        },
{
    lemma_find_box(b, ' ', 0x20, 0);
    lemma_find_box(b, 'x', 0x78, 0);
    lemma_find_box(b, 'X', 0x58, 0);
}

proof fn lemma_find_box(b: Seq<u8>, mark: char, byte: u8, i: int)
    requires
        0 <= i,
        mark as u8 == byte,
    ensures
        match live::find_box(b, byte, i) {
            Some(k) => i <= k && shows_box(b, mark, k) && forall|j: int|
                i <= j && #[trigger] shows_box(b, mark, j) ==> k <= j,
            None => forall|j: int| i <= j ==> !#[trigger] shows_box(b, mark, j),
        },
    decreases b.len() - i,
{
    if i < b.len() {
        lemma_find_box(b, mark, byte, i + 1);
    }
}

/// A destination that starts with `data:` holds the image itself, and one that starts with `http://`
/// or `https://` is an address, whatever is behind it.
pub proof fn law_destinations_go_by_their_scheme(rest: Seq<char>)
    ensures
        live::reference_of(encode_utf8("data:"@ + rest)) == ImageReference::Data,
        live::reference_of(encode_utf8("http://"@ + rest)) == ImageReference::Uri,
        live::reference_of(encode_utf8("https://"@ + rest)) == ImageReference::Uri,
{
    reveal_strlit("data:");
    reveal_strlit("http://");
    reveal_strlit("https://");
    lemma_scheme("data:"@, rest);
    lemma_scheme("http://"@, rest);
    lemma_scheme("https://"@, rest);
    let data = encode_utf8("data:"@ + rest);
    let http = encode_utf8("http://"@ + rest);
    let https = encode_utf8("https://"@ + rest);
    assert(data.subrange(0, 5) =~= seq![0x64, 0x61, 0x74, 0x61, 0x3a]);
    assert(http.subrange(0, 7) =~= seq![0x68, 0x74, 0x74, 0x70, 0x3a, 0x2f, 0x2f]);
    assert(https.subrange(0, 8) =~= seq![0x68, 0x74, 0x74, 0x70, 0x73, 0x3a, 0x2f, 0x2f]);
    assert(http[0] != 0x64 && https[0] != 0x64);
    assert(http.subrange(0, 5)[0] == http[0]);
    assert(https.subrange(0, 5)[0] == https[0]);
}

proof fn lemma_scheme(scheme: Seq<char>, rest: Seq<char>)
    requires
        is_ascii_chars(scheme),
    ensures
        encode_utf8(scheme + rest).len() >= scheme.len(),
        forall|i: int|
            0 <= i < scheme.len() ==> #[trigger] encode_utf8(scheme + rest)[i] == scheme[i] as u8,
{
    autolink::lemma_encode_concat(scheme, rest);
    is_ascii_chars_encode_utf8(scheme);
}

/// A destination that is not in a file starts with `data:`, `http://` or `https://`.
pub proof fn law_other_destinations_are_files(b: Seq<u8>)
    requires
        live::reference_of(b) != ImageReference::File,
    ensures
        live::reference_of(b) == ImageReference::Data ==> b.len() >= 5 && b[0] == 'd' as u8 && b[1]
            == 'a' as u8 && b[2] == 't' as u8 && b[3] == 'a' as u8 && b[4] == ':' as u8,
        live::reference_of(b) == ImageReference::Uri ==> b.len() >= 7 && b[0] == 'h' as u8 && b[1]
            == 't' as u8 && b[2] == 't' as u8 && b[3] == 'p' as u8 && (b[4] == ':' as u8 && b[5]
            == '/' as u8 && b[6] == '/' as u8 || b.len() >= 8 && b[4] == 's' as u8 && b[5]
            == ':' as u8 && b[6] == '/' as u8 && b[7] == '/' as u8),
{
    if b.len() >= 5 {
        let x = b.subrange(0, 5);
        assert(forall|i: int| 0 <= i < 5 ==> #[trigger] x[i] == b[i]);
        assert(x[0] == b[0] && x[1] == b[1] && x[2] == b[2] && x[3] == b[3] && x[4] == b[4]);
    }
    if b.len() >= 7 {
        let x = b.subrange(0, 7);
        assert(x[0] == b[0] && x[1] == b[1] && x[2] == b[2] && x[3] == b[3] && x[4] == b[4]);
        assert(x[5] == b[5] && x[6] == b[6]);
    }
    if b.len() >= 8 {
        let x = b.subrange(0, 8);
        assert(x[0] == b[0] && x[1] == b[1] && x[2] == b[2] && x[3] == b[3] && x[4] == b[4]);
        assert(x[5] == b[5] && x[6] == b[6] && x[7] == b[7]);
    }
}

} // verus!
