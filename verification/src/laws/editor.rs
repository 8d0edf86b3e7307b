//! What an editor shows: the source under every selection, and the rendering elsewhere.
use crate::convert;
use crate::live;
use crate::order;
use crate::session;
use crate::session::{MarkerPosition, Point, RichModel};
use std::ops::Range;
use vstd::prelude::*;

verus! {

/// A selection is on the row.
pub open spec fn is_active(active_rows: Seq<Range<u32>>, row: u32) -> bool {
    exists|i: int|
        0 <= i < active_rows.len() && (#[trigger] active_rows[i]).start <= row && row
            < active_rows[i].end
}

/// A selection is on one of the rows from `first` to `last`.
pub open spec fn is_touched(active_rows: Seq<Range<u32>>, first: u32, last: u32) -> bool {
    exists|row: u32| first <= row <= last && #[trigger] is_active(active_rows, row)
}

/// Rows meet the active ones exactly if they have a row in common with one of the ranges, whichever
/// that is.
pub proof fn law_rows_meet_in_a_row(rows: Range<u32>, active_rows: Seq<Range<u32>>)
    requires
        forall|i: int|
            0 <= i < active_rows.len() ==> (#[trigger] active_rows[i]).start < active_rows[i].end,
        rows.start < rows.end,
    ensures
        live::meet_any(rows, active_rows) <==> exists|row: u32|
            rows.start <= row < rows.end && #[trigger] is_active(active_rows, row),
{
    if live::meet_any(rows, active_rows) {
        let i = choose|i: int|
            0 <= i < active_rows.len() && live::meet(rows, #[trigger] active_rows[i]);
        let row = if rows.start < active_rows[i].start {
            active_rows[i].start
        } else {
            rows.start
        };
        assert(active_rows[i].start <= row < active_rows[i].end);
        assert(is_active(active_rows, row));
    }
    if exists|row: u32| rows.start <= row < rows.end && #[trigger] is_active(active_rows, row) {
        let row = choose|row: u32|
            rows.start <= row < rows.end && #[trigger] is_active(active_rows, row);
        let i = choose|i: int|
            0 <= i < active_rows.len() && (#[trigger] active_rows[i]).start <= row && row
                < active_rows[i].end;
        assert(live::meet(rows, active_rows[i]));
    }
}

/// The rows that are active are those from one end of a selection to the other, both with them,
/// and come as one range for each selection, in order.
pub proof fn law_selections_make_rows_active(selections: Seq<(u32, u32)>, row: u32)
    requires
        row < u32::MAX,
    ensures
        is_active(order::sorted(live::selected_rows(selections)), row) <==> exists|i: int|
            0 <= i < selections.len() && ((#[trigger] selections[i]).0 <= row <= selections[i].1
                || selections[i].1 <= row <= selections[i].0),
        order::is_ordered(order::sorted(live::selected_rows(selections))),
        order::sorted(live::selected_rows(selections)).len() == selections.len(),
        forall|i: int|
            0 <= i < selections.len() ==> {
                let range = #[trigger] order::sorted(live::selected_rows(selections))[i];
                range.start < range.end || range.start == u32::MAX
            },
{
    let rows = live::selected_rows(selections);
    let sorted = order::sorted(rows);
    order::lemma_sorted(rows);
    rows.to_multiset_ensures();
    sorted.to_multiset_ensures();
    assert forall|range: Range<u32>| #[trigger] rows.contains(range) <==> sorted.contains(range) by {
        assert(rows.contains(range) <==> rows.to_multiset().count(range) > 0);
        assert(sorted.contains(range) <==> sorted.to_multiset().count(range) > 0);
    }
    if is_active(sorted, row) {
        let k = choose|k: int|
            0 <= k < sorted.len() && (#[trigger] sorted[k]).start <= row && row < sorted[k].end;
        assert(sorted.contains(sorted[k]));
        assert(rows.contains(sorted[k]));
        let i = choose|i: int| 0 <= i < rows.len() && rows[i] == sorted[k];
        let s = selections[i];
        assert(s.0 <= row <= s.1 || s.1 <= row <= s.0);
    }
    if exists|i: int|
        0 <= i < selections.len() && ((#[trigger] selections[i]).0 <= row <= selections[i].1
            || selections[i].1 <= row <= selections[i].0) {
        let i = choose|i: int|
            0 <= i < selections.len() && ((#[trigger] selections[i]).0 <= row <= selections[i].1
                || selections[i].1 <= row <= selections[i].0);
        assert(rows[i].start <= row < rows[i].end);
        assert(rows.contains(rows[i]));
        assert(sorted.contains(rows[i]));
        let k = choose|k: int| 0 <= k < sorted.len() && sorted[k] == rows[i];
        assert(sorted[k].start <= row < sorted[k].end);
    }
    assert forall|k: int| 0 <= k < selections.len() implies {
        let range = #[trigger] sorted[k];
        range.start < range.end || range.start == u32::MAX
    } by {
        assert(sorted.contains(sorted[k]));
        assert(rows.contains(sorted[k]));
        let i = choose|i: int| 0 <= i < rows.len() && rows[i] == sorted[k];
        assert(rows[i] == live::rows_between(selections[i].0, selections[i].1));
    }
}

/// The active ranges are those of selections: none is empty.
pub open spec fn are_ranges(active_rows: Seq<Range<u32>>) -> bool {
    forall|i: int|
        0 <= i < active_rows.len() ==> (#[trigger] active_rows[i]).start < active_rows[i].end
}

proof fn lemma_visible(position: (Point, Point), active_rows: Seq<Range<u32>>)
    requires
        are_ranges(active_rows),
        position.0.row <= position.1.row,
    ensures
        session::visible(position, active_rows) <==> position.0 != position.1 && !is_touched(
            active_rows,
            position.0.row,
            position.1.row,
        ),
{
    lemma_touched(position.0.row, position.1.row, active_rows);
}

proof fn lemma_touched(first: u32, last: u32, active_rows: Seq<Range<u32>>)
    requires
        are_ranges(active_rows),
        first <= last,
    ensures
        live::meet_any(session::rows_through(first, last), active_rows) <==> is_touched(
            active_rows,
            first,
            last,
        ),
{
    let rows = session::rows_through(first, last);
    if first < u32::MAX {
        law_rows_meet_in_a_row(rows, active_rows);
        if live::meet_any(rows, active_rows) {
            let row = choose|row: u32|
                rows.start <= row < rows.end && #[trigger] is_active(active_rows, row);
            assert(first <= row <= last);
        }
        if is_touched(active_rows, first, last) {
            let row = choose|row: u32|
                first <= row <= last && #[trigger] is_active(active_rows, row);
            assert(rows.start <= row < rows.end);
        }
    } else {
        assert(!live::meet_any(rows, active_rows)) by {
            assert forall|i: int| 0 <= i < active_rows.len() implies !live::meet(
                rows,
                #[trigger] active_rows[i],
            ) by {}
        }
    }
}

/// What a sync leaves of the blocks, once the blocks that it asks for are inserted.
pub open spec fn after_sync(
    blocks: Seq<RichModel>,
    positions: Seq<(Point, Point)>,
    active_rows: Seq<Range<u32>>,
    ids: Seq<usize>,
) -> Seq<RichModel> {
    let missing = session::missing_blocks(blocks, positions, active_rows, blocks.len() as int);
    session::with_ids(
        session::without_hidden(blocks, positions, active_rows),
        missing,
        ids,
        session::both(missing, ids),
    )
}

/// A block is in the editor after a sync exactly if it is not empty and no selection, whichever it
/// is, is on a row from its first to its last. Nothing else of it changes.
pub proof fn law_source_shows_under_every_selection(
    blocks: Seq<RichModel>,
    positions: Seq<(Point, Point)>,
    active_rows: Seq<Range<u32>>,
    ids: Seq<usize>,
    k: int,
)
    requires
        positions.len() == blocks.len(),
        are_ranges(active_rows),
        0 <= k < blocks.len() <= usize::MAX,
        positions[k].0.row <= positions[k].1.row,
        ids.len() == session::missing_blocks(
            blocks,
            positions,
            active_rows,
            blocks.len() as int,
        ).len(),
    ensures
        ({
            let after = after_sync(blocks, positions, active_rows, ids)[k];
            &&& after.block_id is Some <==> positions[k].0 != positions[k].1 && !is_touched(
                active_rows,
                positions[k].0.row,
                positions[k].1.row,
            )
            &&& after.block == blocks[k].block
            &&& after.height == blocks[k].height
            &&& blocks[k].block_id is Some && after.block_id is Some ==> after == blocks[k]
        }),
{
    session::law_sync_shows_what_is_visible(blocks, positions, active_rows, ids, k);
    lemma_visible(positions[k], active_rows);
    let missing = session::missing_blocks(blocks, positions, active_rows, blocks.len() as int);
    let synced = session::without_hidden(blocks, positions, active_rows);
    lemma_missing_blocks_bounds(blocks, positions, active_rows, blocks.len() as int);
    lemma_with_ids_keeps(synced, missing, ids, session::both(missing, ids), k);
}

proof fn lemma_missing_blocks_bounds(
    blocks: Seq<RichModel>,
    positions: Seq<(Point, Point)>,
    active_rows: Seq<Range<u32>>,
    n: int,
)
    requires
        0 <= n <= blocks.len() <= usize::MAX,
    ensures
        forall|j: int|
            #![trigger session::missing_blocks(blocks, positions, active_rows, n)[j]]
            0 <= j < session::missing_blocks(blocks, positions, active_rows, n).len() ==> {
                let i = session::missing_blocks(blocks, positions, active_rows, n)[j] as int;
                i < n && blocks[i].block_id is None
            },
    decreases n,
{
    if n > 0 {
        lemma_missing_blocks_bounds(blocks, positions, active_rows, n - 1);
    }
}

proof fn lemma_with_ids_keeps(
    blocks: Seq<RichModel>,
    indices: Seq<usize>,
    ids: Seq<usize>,
    n: int,
    k: int,
)
    requires
        0 <= n <= indices.len(),
        0 <= k < blocks.len(),
    ensures
        ({
            let after = session::with_ids(blocks, indices, ids, n);
            &&& after.len() == blocks.len()
            &&& after[k].block == blocks[k].block
            &&& after[k].height == blocks[k].height
            &&& (forall|j: int| 0 <= j < n ==> (#[trigger] indices[j]) != k) ==> after[k]
                == blocks[k]
        }),
    decreases n,
{
    if n > 0 {
        lemma_with_ids_keeps(blocks, indices, ids, n - 1, k);
    }
}

/// The blocks that a sync takes out are those in the editor that are empty or that a selection
/// touches, and no others.
pub proof fn law_touched_blocks_are_taken_out(
    blocks: Seq<RichModel>,
    positions: Seq<(Point, Point)>,
    active_rows: Seq<Range<u32>>,
    id: usize,
)
    requires
        positions.len() == blocks.len(),
        are_ranges(active_rows),
        forall|k: int|
            0 <= k < positions.len() ==> (#[trigger] positions[k]).0.row <= positions[k].1.row,
    ensures
        session::hidden_ids(blocks, positions, active_rows, blocks.len() as int).contains(id)
            <==> exists|k: int|
            0 <= k < blocks.len() && (#[trigger] blocks[k]).block_id == Some(id) && (positions[k].0
                == positions[k].1 || is_touched(
                active_rows,
                positions[k].0.row,
                positions[k].1.row,
            )),
        session::hidden_ids(
            blocks,
            positions,
            active_rows,
            blocks.len() as int,
        ).no_duplicates(),
{
    lemma_hidden_ids(blocks, positions, active_rows, blocks.len() as int, id);
}

proof fn lemma_hidden_ids(
    blocks: Seq<RichModel>,
    positions: Seq<(Point, Point)>,
    active_rows: Seq<Range<u32>>,
    n: int,
    id: usize,
)
    requires
        0 <= n <= blocks.len(),
        positions.len() == blocks.len(),
        are_ranges(active_rows),
        forall|k: int|
            0 <= k < positions.len() ==> (#[trigger] positions[k]).0.row <= positions[k].1.row,
    ensures
        session::hidden_ids(blocks, positions, active_rows, n).contains(id) <==> exists|k: int|
            0 <= k < n && (#[trigger] blocks[k]).block_id == Some(id) && (positions[k].0
                == positions[k].1 || is_touched(
                active_rows,
                positions[k].0.row,
                positions[k].1.row,
            )),
        session::hidden_ids(blocks, positions, active_rows, n).no_duplicates(),
    decreases n,
{
    if n > 0 {
        lemma_hidden_ids(blocks, positions, active_rows, n - 1, id);
        lemma_visible(positions[n - 1], active_rows);
        let before = session::hidden_ids(blocks, positions, active_rows, n - 1);
        if let Some(here) = blocks[n - 1].block_id {
            lemma_added(before, here, id);
        }
    }
}

/// What adding a value to a list of different values leaves in it.
pub proof fn lemma_added<T>(s: Seq<T>, x: T, y: T)
    ensures
        convert::added(s, x).contains(y) <==> s.contains(y) || x == y,
        s.no_duplicates() ==> convert::added(s, x).no_duplicates(),
{
    broadcast use vstd::seq_lib::group_seq_properties;

    if !s.contains(x) {
        assert(s.push(x).contains(y) <==> s.contains(y) || x == y) by {
            if s.contains(y) {
                let k = choose|k: int| 0 <= k < s.len() && s[k] == y;
                assert(s.push(x)[k] == y);
            }
            if x == y {
                assert(s.push(x)[s.len() as int] == y);
            }
        }
    }
}

/// After a sync there is a fold at a range exactly if a marker stands at it that is not empty and on
/// whose rows, from its first to its last, no selection is, whichever it is and whatever folds there
/// were before.
pub proof fn law_markers_are_folded_away_from_selections(
    markers: Seq<MarkerPosition>,
    active_rows: Seq<Range<u32>>,
    existing: Seq<Range<usize>>,
    range: Range<usize>,
)
    requires
        markers.len() <= usize::MAX,
        are_ranges(active_rows),
        forall|k: int|
            0 <= k < markers.len() ==> (#[trigger] markers[k]).start_row <= markers[k].end_row,
    ensures
        ({
            let kept = existing.contains(range) && !session::stale_folds(
                markers,
                active_rows,
                existing,
                existing.len() as int,
            ).contains(range);
            let created = session::is_created(
                markers,
                active_rows,
                existing,
                range,
                markers.len() as int,
            );
            kept || created <==> exists|k: int|
                0 <= k < markers.len() && (#[trigger] markers[k]).range == range && range.start
                    < range.end && !is_touched(
                    active_rows,
                    markers[k].start_row,
                    markers[k].end_row,
                )
        }),
{
    session::law_sync_folds_what_is_hidden(markers, active_rows, existing, range);
    assert forall|k: int| 0 <= k < markers.len() implies (session::folded(
        #[trigger] markers[k],
        active_rows,
    ) <==> markers[k].range.start < markers[k].range.end && !is_touched(
        active_rows,
        markers[k].start_row,
        markers[k].end_row,
    )) by {
        lemma_touched(markers[k].start_row, markers[k].end_row, active_rows);
    }
    if session::is_desired(markers, active_rows, range) {
        let k = choose|k: int|
            0 <= k < markers.len() && session::folded(#[trigger] markers[k], active_rows)
                && markers[k].range == range;
        assert(markers[k].range == range);
    }
    if exists|k: int|
        0 <= k < markers.len() && (#[trigger] markers[k]).range == range && range.start < range.end
            && !is_touched(active_rows, markers[k].start_row, markers[k].end_row) {
        let k = choose|k: int|
            0 <= k < markers.len() && (#[trigger] markers[k]).range == range && range.start
                < range.end && !is_touched(
                active_rows,
                markers[k].start_row,
                markers[k].end_row,
            );
        assert(session::folded(markers[k], active_rows));
    }
}

/// A fold is made only for a marker that is not empty, that no selection touches, that has no fold
/// yet, and that is the last one like that at its range.
pub proof fn law_folds_are_made_for_markers(
    markers: Seq<MarkerPosition>,
    active_rows: Seq<Range<u32>>,
    existing: Seq<Range<usize>>,
    n: int,
    j: int,
)
    requires
        0 <= n <= markers.len() <= usize::MAX,
        are_ranges(active_rows),
        forall|k: int|
            0 <= k < markers.len() ==> (#[trigger] markers[k]).start_row <= markers[k].end_row,
        0 <= j < session::missing_folds(markers, active_rows, existing, n).len(),
    ensures
        ({
            let k = session::missing_folds(markers, active_rows, existing, n)[j] as int;
            &&& k < n
            &&& markers[k].range.start < markers[k].range.end
            &&& !is_touched(active_rows, markers[k].start_row, markers[k].end_row)
            &&& !existing.contains(markers[k].range)
            &&& forall|i: int|
                k < i < markers.len() && (#[trigger] markers[i]).range == markers[k].range
                    ==> is_touched(active_rows, markers[i].start_row, markers[i].end_row)
        }),
    decreases n,
{
    if n > 0 {
        let before = session::missing_folds(markers, active_rows, existing, n - 1);
        if j < before.len() {
            law_folds_are_made_for_markers(markers, active_rows, existing, n - 1, j);
            assert(session::missing_folds(markers, active_rows, existing, n)[j] == before[j]);
        } else {
            lemma_touched(markers[n - 1].start_row, markers[n - 1].end_row, active_rows);
            assert forall|i: int|
                n - 1 < i < markers.len() && (#[trigger] markers[i]).range == markers[n
                    - 1].range implies is_touched(
                active_rows,
                markers[i].start_row,
                markers[i].end_row,
            ) by {
                lemma_touched(markers[i].start_row, markers[i].end_row, active_rows);
                assert(!session::is_superseded(markers, active_rows, n - 1));
                assert(!session::folded(markers[i], active_rows));
            }
        }
    }
}

} // verus!
