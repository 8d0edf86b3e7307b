//! The marks around root-level blocks.
use super::blocks;
use super::markers;
use crate::event::{EventModel, RangedModel};
use crate::roots;
use vstd::prelude::*;

verus! {

/// The event at `k` lies in a root-level block: one has started before it and has not ended.
pub open spec fn is_in_root_block(out: Seq<RangedModel>, k: int) -> bool {
    exists|s: int|
        0 <= s < k && (#[trigger] out[s]).1 is RootStart && forall|j: int|
            s < j < k ==> !roots::is_root_marker((#[trigger] out[j]).1)
}

/// A root-level block that is marked from `s` to `e` is one element, or a rule, with its range.
pub open spec fn marks_one_element(out: Seq<RangedModel>, s: int, e: int) -> bool {
    &&& s + 1 < e
    &&& out[s].0 == out[s + 1].0
    &&& out[e].0 == out[e - 1].0
    &&& {
        ||| s + 2 == e && out[s + 1].1 is Rule
        ||| markers::is_element(out, s + 1, e - 1)
    }
}

/// The event belongs into a root-level block wherever it stands.
pub open spec fn belongs_into_root_block(event: RangedModel) -> bool {
    event.1 is Start || event.1 is Rule && event.0.start < event.0.end
}

spec fn is_open_from(out: Seq<RangedModel>, s: int, depth: int) -> bool {
    &&& 0 <= s && s + 1 < out.len()
    &&& out[s].1 is RootStart
    &&& out[s + 1].1 is Start
    &&& out[s].0 == out[s + 1].0
    &&& forall|k: int| s < k < out.len() ==> !roots::is_root_marker((#[trigger] out[k]).1)
    &&& markers::level(out, s + 1, out.len() as int) == depth
    &&& forall|k: int| s + 1 < k <= out.len() ==> #[trigger] markers::level(out, s + 1, k) > 0
}

spec fn is_well_marked(out: Seq<RangedModel>) -> bool {
    &&& forall|s: int, e: int| #[trigger] blocks::is_marked(out, s, e) ==> marks_one_element(out, s, e)
    &&& forall|k: int|
        0 <= k < out.len() && belongs_into_root_block(#[trigger] out[k]) ==> is_in_root_block(
            out,
            k,
        )
}

proof fn lemma_level_push(out: Seq<RangedModel>, e: RangedModel, i: int, j: int)
    requires
        0 <= i,
        j <= out.len(),
    ensures
        markers::level(out.push(e), i, j) == markers::level(out, i, j),
    decreases j - i,
{
    if i < j {
        lemma_level_push(out, e, i, j - 1);
        assert(out.push(e)[j - 1] == out[j - 1]);
    }
}

/// The level from behind the first event on is one less, if that starts an element.
proof fn lemma_level_behind_start(out: Seq<RangedModel>, i: int, j: int)
    requires
        i < j,
        out[i].1 is Start,
    ensures
        markers::level(out, i + 1, j) == markers::level(out, i, j) - 1,
    decreases j - i,
{
    if i + 1 < j {
        lemma_level_behind_start(out, i, j - 1);
    } else {
        reveal_with_fuel(markers::level, 2);
    }
}

proof fn lemma_in_root_block_push(out: Seq<RangedModel>, e: RangedModel, k: int)
    requires
        0 <= k < out.len(),
        is_in_root_block(out, k),
    ensures
        is_in_root_block(out.push(e), k),
{
    let s = choose|s: int|
        0 <= s < k && (#[trigger] out[s]).1 is RootStart && forall|j: int|
            s < j < k ==> !roots::is_root_marker((#[trigger] out[j]).1);
    let more = out.push(e);
    assert(more[s] == out[s]);
    assert forall|j: int| s < j < k implies !roots::is_root_marker((#[trigger] more[j]).1) by {
        assert(more[j] == out[j]);
    }
}

proof fn lemma_marked_push(out: Seq<RangedModel>, e: RangedModel, s: int, t: int)
    requires
        blocks::is_marked(out.push(e), s, t),
        t < out.len(),
    ensures
        blocks::is_marked(out, s, t),
        marks_one_element(out, s, t) ==> marks_one_element(out.push(e), s, t),
{
    let more = out.push(e);
    assert forall|k: int| 0 <= k < out.len() implies #[trigger] more[k] == out[k] by {}
    assert forall|k: int| s < k < t implies !roots::is_root_marker((#[trigger] out[k]).1) by {
        assert(more[k] == out[k]);
    }
    if marks_one_element(out, s, t) && !(s + 2 == t && out[s + 1].1 is Rule) {
        lemma_level_push(out, e, s + 2, t - 1);
        assert forall|k: int| s + 1 < k < t - 1 && (#[trigger] more[k]).1 is End implies markers::level(
            more,
            s + 2,
            k,
        ) > 0 by {
            lemma_level_push(out, e, s + 2, k);
            assert(out[k].1 is End);
        }
        assert(markers::is_element(more, s + 1, t - 1));
    }
}

/// Pushing an event that is no mark keeps what is well marked so.
proof fn lemma_push_plain(out: Seq<RangedModel>, e: RangedModel)
    requires
        is_well_marked(out),
        !(e.1 is RootEnd),
        belongs_into_root_block(e) ==> is_in_root_block(out.push(e), out.len() as int),
    ensures
        is_well_marked(out.push(e)),
{
    let more = out.push(e);
    let n = out.len() as int;
    assert forall|s: int, t: int| #[trigger] blocks::is_marked(more, s, t) implies marks_one_element(
        more,
        s,
        t,
    ) by {
        assert(t < n);
        lemma_marked_push(out, e, s, t);
    }
    assert forall|k: int|
        0 <= k < more.len() && belongs_into_root_block(#[trigger] more[k]) implies is_in_root_block(
        more,
        k,
    ) by {
        if k < n {
            assert(more[k] == out[k]);
            lemma_in_root_block_push(out, e, k);
        }
    }
}

/// Pushing the end of a root-level block keeps what is well marked so, if that is one element.
proof fn lemma_push_root_end(out: Seq<RangedModel>, e: RangedModel, s: int)
    requires
        is_well_marked(out),
        e.1 is RootEnd,
        blocks::is_marked(out.push(e), s, out.len() as int),
        marks_one_element(out.push(e), s, out.len() as int),
    ensures
        is_well_marked(out.push(e)),
{
    let more = out.push(e);
    let n = out.len() as int;
    assert forall|r: int, t: int| #[trigger] blocks::is_marked(more, r, t) implies marks_one_element(
        more,
        r,
        t,
    ) by {
        if t < n {
            lemma_marked_push(out, e, r, t);
        } else {
            assert(r == s) by {
                if r < s {
                    assert(roots::is_root_marker(more[s].1));
                }
                if s < r {
                    assert(roots::is_root_marker(more[r].1));
                }
            }
        }
    }
    assert forall|k: int|
        0 <= k < more.len() && belongs_into_root_block(#[trigger] more[k]) implies is_in_root_block(
        more,
        k,
    ) by {
        if k < n {
            assert(more[k] == out[k]);
            lemma_in_root_block_push(out, e, k);
        }
    }
}

proof fn lemma_open_push(out: Seq<RangedModel>, e: RangedModel, s: int, depth: int)
    requires
        is_open_from(out, s, depth),
        depth > 0,
        !roots::is_root_marker(e.1),
        e.1 is End ==> depth > 1,
    ensures
        is_open_from(
            out.push(e),
            s,
            depth + match e.1 {
                EventModel::Start(_) => 1int,
                EventModel::End(_) => -1,
                _ => 0,
            },
        ),
        is_in_root_block(out.push(e), out.len() as int),
{
    let more = out.push(e);
    let n = out.len() as int;
    assert forall|k: int| 0 <= k < n implies #[trigger] more[k] == out[k] by {}
    assert forall|k: int| s < k < more.len() implies !roots::is_root_marker((#[trigger] more[k]).1) by {
        if k < n {
            assert(more[k] == out[k]);
        }
    }
    lemma_level_push(out, e, s + 1, n);
    assert forall|k: int| s + 1 < k <= more.len() implies #[trigger] markers::level(more, s + 1, k)
        > 0 by {
        if k <= n {
            lemma_level_push(out, e, s + 1, k);
            assert(markers::level(out, s + 1, k) > 0);
        }
    }
    assert(more[s].1 is RootStart);
}

proof fn lemma_grouped_is_well_marked(events: Seq<RangedModel>)
    requires
        roots::unmarked(events),
    ensures
        is_well_marked(roots::grouped(events).events),
        roots::grouped(events).depth >= 0,
        roots::grouped(events).depth > 0 ==> exists|s: int|
            #[trigger] is_open_from(
                roots::grouped(events).events,
                s,
                roots::grouped(events).depth,
            ),
    decreases events.len(),
{
    if events.len() > 0 {
        let init = events.drop_last();
        let e = events.last();
        assert forall|i: int| 0 <= i < init.len() implies !roots::is_root_marker(
            (#[trigger] init[i]).1,
        ) by {
            assert(init[i] == events[i]);
        }
        assert(!roots::is_root_marker(events[events.len() - 1].1));
        lemma_grouped_is_well_marked(init);
        let m = roots::grouped(init);
        let out = m.events;
        let n = out.len() as int;
        let start = (e.0, EventModel::RootStart);
        if m.depth > 0 {
            let s = choose|s: int| #[trigger] is_open_from(out, s, m.depth);
            if e.1 is End && m.depth == 1 {
                let ended = (e.0, EventModel::RootEnd((m.starts.len() - 1) as usize));
                lemma_push_plain(out, e);
                let with = out.push(e);
                let more = with.push(ended);
                assert forall|k: int| 0 <= k < n implies #[trigger] more[k] == out[k] by {}
                assert forall|k: int| s < k < n + 1 implies !roots::is_root_marker(
                    (#[trigger] more[k]).1,
                ) by {
                    if k < n {
                        assert(more[k] == out[k]);
                    }
                }
                assert(blocks::is_marked(more, s, n + 1));
                lemma_level_push(out, e, s + 2, n);
                lemma_level_push(with, ended, s + 2, n);
                lemma_level_behind_start(out, s + 1, n);
                assert forall|k: int|
                    s + 1 < k < n && (#[trigger] more[k]).1 is End implies markers::level(
                    more,
                    s + 2,
                    k,
                ) > 0 by {
                    lemma_level_push(out, e, s + 2, k);
                    lemma_level_push(with, ended, s + 2, k);
                    lemma_level_behind_start(out, s + 1, k);
                    assert(markers::level(out, s + 1, k + 1) > 0);
                    assert(out[k].1 is End);
                }
                assert(markers::is_element(more, s + 1, n));
                lemma_push_root_end(with, ended, s);
            } else {
                lemma_open_push(out, e, s, m.depth);
                lemma_push_plain(out, e);
                let after = roots::grouped(events);
                assert(after.events == out.push(e));
                assert(after.depth == m.depth + match e.1 {
                    EventModel::Start(_) => 1int,
                    EventModel::End(_) => -1,
                    _ => 0,
                });
                assert(is_open_from(after.events, s, after.depth));
            }
        } else {
            match e.1 {
                EventModel::Start(_) => {
                    lemma_push_plain(out, start);
                    let with = out.push(start);
                    let more = with.push(e);
                    assert(more[n].1 is RootStart);
                    assert(is_in_root_block(more, n + 1));
                    lemma_push_plain(with, e);
                    assert(markers::level(more, n + 1, n + 2) == 1) by {
                        reveal_with_fuel(markers::level, 2);
                    }
                    assert(is_open_from(more, n, 1));
                    let after = roots::grouped(events);
                    assert(after.events == more && after.depth == 1);
                },
                EventModel::Rule => {
                    if e.0.start < e.0.end {
                        let ruled = (e.0, EventModel::RootEnd(m.starts.len() as usize));
                        lemma_push_plain(out, start);
                        let with = out.push(start);
                        let both = with.push(e);
                        assert(both[n].1 is RootStart);
                        assert(is_in_root_block(both, n + 1));
                        lemma_push_plain(with, e);
                        let more = both.push(ruled);
                        assert(blocks::is_marked(more, n, n + 2));
                        lemma_push_root_end(both, ruled, n);
                    } else {
                        lemma_push_plain(out, e);
                    }
                },
                _ => {
                    lemma_push_plain(out, e);
                },
            }
        }
    }
}

/// A root-level block that is marked is one element with all that is inside it, or a rule, and has
/// its range.
pub proof fn law_root_blocks_are_elements(events: Seq<RangedModel>, s: int, e: int)
    requires
        roots::unmarked(events),
        blocks::is_marked(roots::grouped(events).events, s, e),
    ensures
        marks_one_element(roots::grouped(events).events, s, e),
{
    lemma_grouped_is_well_marked(events);
}

/// All elements, and all rules that are not empty, lie in root-level blocks.
pub proof fn law_elements_lie_in_root_blocks(events: Seq<RangedModel>, k: int)
    requires
        roots::unmarked(events),
        0 <= k < roots::grouped(events).events.len(),
        belongs_into_root_block(roots::grouped(events).events[k]),
    ensures
        is_in_root_block(roots::grouped(events).events, k),
{
    lemma_grouped_is_well_marked(events);
}

} // verus!
