//! The inline syntax that a live preview hides or substitutes.
use super::text;
use crate::blocks;
use crate::blocks::RootBlockModel;
use crate::event::{EventModel, RangedModel, TagModel};
use crate::layout;
use crate::markers;
use crate::order;
use crate::order::Keyed;
use crate::preview::{
    MarkdownLivePreviewInlineMarker as Marker, MarkdownLivePreviewInlineMarkerKind as Kind,
};
use crate::scan;
use crate::span;
use std::ops::Range;
use vstd::prelude::*;
use vstd::utf8::*;

verus! {

/// How many more elements start than end in `i..j`.
pub open spec fn level(events: Seq<RangedModel>, i: int, j: int) -> int
    decreases j - i,
{
    if i >= j {
        0
    } else {
        level(events, i, j - 1) + match events[j - 1].1 {
            EventModel::Start(_) => 1int,
            EventModel::End(_) => -1,
            _ => 0,
        }
    }
}

/// The element that starts at `s` ends at `e`: all elements that start between the two end there.
pub open spec fn is_element(events: Seq<RangedModel>, s: int, e: int) -> bool {
    &&& 0 <= s < e < events.len()
    &&& events[s].1 is Start
    &&& events[e].1 is End
    &&& level(events, s + 1, e) == 0
    &&& forall|k: int| s < k < e && (#[trigger] events[k]).1 is End ==> level(events, s + 1, k) > 0
}

proof fn lemma_open(b: Seq<u8>, events: Seq<RangedModel>, s: int, e: int, k: int)
    requires
        is_element(events, s, e),
        s < k <= e,
        events.len() <= usize::MAX,
        markers::marker_flow(b, events, k) is Some,
    ensures
        markers::marker_flow(b, events, s) is Some,
        ({
            let outer = (markers::marker_flow(b, events, s)->0).open;
            let here = (markers::marker_flow(b, events, k)->0).open;
            &&& level(events, s + 1, k) >= 0
            &&& here.len() == outer.len() + 1 + level(events, s + 1, k)
            &&& here[outer.len() as int] == s
        }),
    decreases k,
{
    if k == s + 1 {
    } else {
        lemma_open(b, events, s, e, k - 1);
        assert(events[k - 1].1 is End ==> level(events, s + 1, k - 1) > 0);
    }
}

proof fn lemma_flow_before(b: Seq<u8>, events: Seq<RangedModel>, k: int, n: int)
    requires
        0 <= k <= n,
        markers::marker_flow(b, events, n) is Some,
    ensures
        markers::marker_flow(b, events, k) is Some,
        (markers::marker_flow(b, events, k)->0).markers.is_prefix_of(
            (markers::marker_flow(b, events, n)->0).markers,
        ),
    decreases n - k,
{
    let x = (markers::marker_flow(b, events, k)->0).markers;
    let z = (markers::marker_flow(b, events, n)->0).markers;
    if k < n {
        lemma_flow_before(b, events, k, n - 1);
        let y = (markers::marker_flow(b, events, n - 1)->0).markers;
        assert(forall|i: int| 0 <= i < x.len() ==> x[i] == y[i]);
        assert(forall|i: int| 0 <= i < y.len() ==> y[i] == z[i]);
        assert(x =~= z.subrange(0, x.len() as int));
    } else {
        assert(x =~= z.subrange(0, x.len() as int));
    }
}

/// What an element gives is among the markers of its block.
proof fn lemma_element_markers(b: Seq<u8>, events: Seq<RangedModel>, s: int, e: int, m: Marker)
    requires
        is_element(events, s, e),
        events.len() <= usize::MAX,
        markers::block_markers(b, events) is Some,
    ensures
        events[s].1 matches EventModel::Start(tag) && ({
            let found = markers::tag_markers(
                b,
                tag,
                events[s].0,
                events.subrange(s + 1, e),
            );
            &&& found is Some
            &&& (found->0).contains(m) ==> (markers::block_markers(b, events)->0).contains(m)
        }),
{
    let n = events.len() as int;
    lemma_flow_before(b, events, e + 1, n);
    lemma_flow_before(b, events, e, e + 1);
    lemma_open(b, events, s, e, e);
    let f = markers::marker_flow(b, events, e)->0;
    assert(f.open.last() == s);
    if let EventModel::Start(tag) = events[s].1 {
        let found = markers::tag_markers(b, tag, events[s].0, events.subrange(s + 1, e))->0;
        if found.contains(m) {
            let after = (markers::marker_flow(b, events, e + 1)->0).markers;
            assert(after == f.markers + found);
            let k = choose|k: int| 0 <= k < found.len() && found[k] == m;
            assert(after[f.markers.len() + k] == m);
            let all = markers::block_markers(b, events)->0;
            assert(all[f.markers.len() + k] == m);
        }
    }
}

proof fn lemma_event_markers(b: Seq<u8>, events: Seq<RangedModel>, i: int, m: Marker)
    requires
        0 <= i < events.len(),
        events[i].1 is Code || events[i].1 is SubstitutedCode,
        markers::block_markers(b, events) is Some,
    ensures
        markers::code_markers(b, events[i].0) is Some,
        (markers::code_markers(b, events[i].0)->0).contains(m) ==> (markers::block_markers(
            b,
            events,
        )->0).contains(m),
{
    let n = events.len() as int;
    lemma_flow_before(b, events, i + 1, n);
    lemma_flow_before(b, events, i, i + 1);
    let f = markers::marker_flow(b, events, i)->0;
    let found = markers::code_markers(b, events[i].0)->0;
    if found.contains(m) {
        let after = (markers::marker_flow(b, events, i + 1)->0).markers;
        assert(after == f.markers + found);
        let k = choose|k: int| 0 <= k < found.len() && found[k] == m;
        assert(after[f.markers.len() + k] == m);
        let all = markers::block_markers(b, events)->0;
        assert(all[f.markers.len() + k] == m);
    }
}

/// `first` is where the first of some events starts, and `last` where the last of them ends.
pub open spec fn reach_from_to(
    events: Seq<RangedModel>,
    s: int,
    e: int,
    first: usize,
    last: usize,
) -> bool {
    &&& exists|k: int| s < k < e && (#[trigger] events[k]).0.start == first
    &&& exists|k: int| s < k < e && (#[trigger] events[k]).0.end == last
    &&& forall|k: int|
        s < k < e ==> first <= (#[trigger] events[k]).0.start && events[k].0.end <= last
}

/// What is around the content of an element with this tag is hidden.
pub open spec fn is_delimited(tag: TagModel) -> bool {
    tag is Emphasis || tag is Strong || tag is Strikethrough || tag is Link || tag is Heading
}

/// The least start and the greatest end of some events are those of events among them.
pub proof fn lemma_extremes(events: Seq<RangedModel>)
    requires
        events.len() > 0,
    ensures
        exists|k: int|
            0 <= k < events.len() && (#[trigger] events[k]).0.start == blocks::min_start(events),
        exists|k: int|
            0 <= k < events.len() && (#[trigger] events[k]).0.end == blocks::max_end(events),
        forall|k: int|
            0 <= k < events.len() ==> blocks::min_start(events) <= (#[trigger] events[k]).0.start
                && events[k].0.end <= blocks::max_end(events),
    decreases events.len(),
{
    if events.len() > 1 {
        let init = events.drop_last();
        lemma_extremes(init);
        assert(forall|k: int| 0 <= k < init.len() ==> #[trigger] init[k] == events[k]);
        assert(events[events.len() - 1] == events.last());
        let a = choose|k: int|
            0 <= k < init.len() && (#[trigger] init[k]).0.start == blocks::min_start(init);
        let z = choose|k: int|
            0 <= k < init.len() && (#[trigger] init[k]).0.end == blocks::max_end(init);
        assert(events[a].0.start == blocks::min_start(init));
        assert(events[z].0.end == blocks::max_end(init));
        assert forall|k: int| 0 <= k < events.len() implies blocks::min_start(events) <= (
        #[trigger] events[k]).0.start && events[k].0.end <= blocks::max_end(events) by {
            if k < init.len() {
                assert(init[k] == events[k]);
            }
        }
        if events.last().0.start < blocks::min_start(init) {
            assert(events[events.len() - 1].0.start == blocks::min_start(events));
        }
        if events.last().0.end > blocks::max_end(init) {
            assert(events[events.len() - 1].0.end == blocks::max_end(events));
        }
    } else {
        assert(events[0].0.start == blocks::min_start(events));
        assert(events[0].0.end == blocks::max_end(events));
    }
}

proof fn lemma_reach(events: Seq<RangedModel>, s: int, e: int, first: usize, last: usize)
    requires
        0 <= s,
        e <= events.len(),
        reach_from_to(events, s, e, first, last),
    ensures
        events.subrange(s + 1, e).len() > 0,
        blocks::min_start(events.subrange(s + 1, e)) == first,
        blocks::max_end(events.subrange(s + 1, e)) == last,
{
    let inner = events.subrange(s + 1, e);
    let a = choose|k: int| s < k < e && (#[trigger] events[k]).0.start == first;
    let z = choose|k: int| s < k < e && (#[trigger] events[k]).0.end == last;
    assert(inner[a - s - 1] == events[a] && inner[z - s - 1] == events[z]);
    lemma_extremes(inner);
    let x = choose|k: int|
        0 <= k < inner.len() && (#[trigger] inner[k]).0.start == blocks::min_start(inner);
    let y = choose|k: int|
        0 <= k < inner.len() && (#[trigger] inner[k]).0.end == blocks::max_end(inner);
    assert(inner[x] == events[s + 1 + x] && inner[y] == events[s + 1 + y]);
}

/// The delimiters of emphasis, strong and struck-out text, links and headings are hidden: what is
/// before the first event inside the element, and what is behind the last one, but for white space
/// at its end.
pub proof fn law_delimiters_are_hidden(
    b: Seq<u8>,
    events: Seq<RangedModel>,
    s: int,
    e: int,
    first: usize,
    last: usize,
    end: usize,
)
    requires
        valid_utf8(b),
        b.len() <= usize::MAX,
        events.len() <= usize::MAX,
        markers::block_markers(b, events) is Some,
        is_element(events, s, e),
        events[s].1 matches EventModel::Start(tag) && is_delimited(tag),
        reach_from_to(events, s, e, first, last),
        span::is_slice(b, last as int, end as int),
        span::is_slice(b, end as int, events[s].0.end as int),
        text::all_blank(span::chars_of(b, end as int, events[s].0.end as int)),
        last < end ==> !text::is_blank(span::chars_of(b, last as int, end as int).last()),
    ensures
        ({
            let found = markers::block_markers(b, events)->0;
            let start = events[s].0.start;
            &&& start < first ==> found.contains(
                Marker { range: start..first, kind: Kind::Hidden },
            )
            &&& last < end ==> found.contains(Marker { range: last..end, kind: Kind::Hidden })
        }),
{
    let inner = events.subrange(s + 1, e);
    let start = events[s].0.start;
    let leading = Marker { range: start..first, kind: Kind::Hidden };
    let trailing = Marker { range: last..end, kind: Kind::Hidden };
    lemma_element_markers(b, events, s, e, leading);
    lemma_element_markers(b, events, s, e, trailing);
    lemma_reach(events, s, e, first, last);
    if let EventModel::Start(tag) = events[s].1 {
        let found = markers::tag_markers(b, tag, events[s].0, inner)->0;
        text::lemma_trailing_unique(b, last as int, end as int, events[s].0.end as int);
        let x = markers::marker(start as int, first as int, Kind::Hidden);
        let y = markers::marker(last as int, end as int, Kind::Hidden);
        assert(found == x + y);
        if start < first {
            assert(found[0] == leading);
        }
        if last < end {
            assert(found[x.len() as int] == trailing);
        }
    }
}

/// The character may stand in a list marker.
pub open spec fn is_list_char(c: char) -> bool {
    '0' <= c <= '9' || text::is_blank(c) || c == '-' || c == '*' || c == '+' || c == '.' || c == ')'
}

proof fn lemma_is_list_marker(b: Seq<u8>, i: int, j: int)
    requires
        valid_utf8(b),
        span::is_slice(b, i, j),
    ensures
        markers::is_list_marker(b, i, j) <==> forall|k: int|
            0 <= k < span::chars_of(b, i, j).len() ==> is_list_char(
                #[trigger] span::chars_of(b, i, j)[k],
            ),
    decreases j - i,
{
    text::lemma_chars_empty(b, i, j);
    if i < j {
        text::lemma_chars_step(b, i, j);
        span::lemma_scalar(b, i);
        let next = i + span::width_at(b, i);
        lemma_is_list_marker(b, next, j);
        let all = span::chars_of(b, i, j);
        let rest = span::chars_of(b, next, j);
        let c = span::scalar_at(b, i) as char;
        text::law_white_space_is_the_unicode_property(c);
        assert(markers::is_list_marker_char(span::scalar_at(b, i)) == is_list_char(c));
        assert(all[0] == c);
        assert forall|k: int| 0 <= k < rest.len() implies #[trigger] rest[k] == all[k + 1] by {}
        if markers::is_list_marker(b, i, j) {
            assert forall|k: int| 0 <= k < all.len() implies is_list_char(#[trigger] all[k]) by {
                if k > 0 {
                    assert(rest[k - 1] == all[k]);
                }
            }
        }
        if forall|k: int| 0 <= k < all.len() ==> is_list_char(#[trigger] all[k]) {
            assert(is_list_char(all[0]));
            assert forall|k: int| 0 <= k < rest.len() implies is_list_char(#[trigger] rest[k]) by {
                assert(is_list_char(all[k + 1]));
            }
        }
    }
}

proof fn lemma_first_task(events: Seq<RangedModel>, k: int, checked: bool)
    requires
        0 <= k < events.len(),
        events[k].1 == EventModel::TaskListMarker(checked),
        forall|j: int| 0 <= j < k ==> !((#[trigger] events[j]).1 is TaskListMarker),
    ensures
        markers::first_task(events) == Some((events[k].0, checked)),
    decreases events.len(),
{
    if k > 0 {
        let rest = events.drop_first();
        assert(!(events[0].1 is TaskListMarker));
        assert forall|j: int| 0 <= j < k - 1 implies !((#[trigger] rest[j]).1
            is TaskListMarker) by {
            assert(rest[j] == events[j + 1]);
        }
        lemma_first_task(rest, k - 1, checked);
    }
}

proof fn lemma_no_task(events: Seq<RangedModel>)
    requires
        forall|j: int| 0 <= j < events.len() ==> !((#[trigger] events[j]).1 is TaskListMarker),
    ensures
        markers::first_task(events) is None,
    decreases events.len(),
{
    if events.len() > 0 {
        let rest = events.drop_first();
        assert(!(events[0].1 is TaskListMarker));
        assert forall|j: int| 0 <= j < rest.len() implies !((#[trigger] rest[j]).1
            is TaskListMarker) by {
            assert(rest[j] == events[j + 1]);
        }
        lemma_no_task(rest);
    }
}

/// A list item with a box shows the box in place of its list marker and the box: from the start of
/// the item to the end of the first box in it, if nothing but a list marker is before that.
pub proof fn law_boxes_are_substituted(
    b: Seq<u8>,
    events: Seq<RangedModel>,
    s: int,
    e: int,
    k: int,
    checked: bool,
)
    requires
        valid_utf8(b),
        events.len() <= usize::MAX,
        markers::block_markers(b, events) is Some,
        is_element(events, s, e),
        events[s].1 == EventModel::Start(TagModel::Item),
        s < k < e,
        events[k].1 == EventModel::TaskListMarker(checked),
        forall|j: int| s < j < k ==> !((#[trigger] events[j]).1 is TaskListMarker),
        events[s].0.start <= events[k].0.start < events[k].0.end,
        span::is_slice(b, events[s].0.start as int, events[k].0.start as int),
        forall|i: int|
            0 <= i < span::chars_of(
                b,
                events[s].0.start as int,
                events[k].0.start as int,
            ).len() ==> is_list_char(
                #[trigger] span::chars_of(
                    b,
                    events[s].0.start as int,
                    events[k].0.start as int,
                )[i],
            ),
    ensures
        (markers::block_markers(b, events)->0).contains(
            Marker {
                range: events[s].0.start..events[k].0.end,
                kind: Kind::TaskListMarker { checked },
            },
        ),
{
    let inner = events.subrange(s + 1, e);
    let start = events[s].0.start;
    let m = Marker { range: start..events[k].0.end, kind: Kind::TaskListMarker { checked } };
    assert(inner[k - s - 1] == events[k]);
    assert forall|j: int| 0 <= j < k - s - 1 implies !((#[trigger] inner[j]).1
        is TaskListMarker) by {
        assert(inner[j] == events[s + 1 + j]);
    }
    lemma_first_task(inner, k - s - 1, checked);
    lemma_is_list_marker(b, start as int, events[k].0.start as int);
    lemma_element_markers(b, events, s, e, m);
    let found = markers::tag_markers(b, TagModel::Item, events[s].0, inner)->0;
    assert(found[0] == m);
}

/// A list item without a box shows a bullet in place of the `-`, `*` or `+` that it starts with.
pub proof fn law_bullets_are_substituted(b: Seq<u8>, events: Seq<RangedModel>, s: int, e: int)
    requires
        events.len() <= usize::MAX,
        b.len() <= usize::MAX,
        markers::block_markers(b, events) is Some,
        is_element(events, s, e),
        events[s].1 == EventModel::Start(TagModel::Item),
        forall|j: int| s < j < e ==> !((#[trigger] events[j]).1 is TaskListMarker),
        events[s].0.start < b.len(),
        b[events[s].0.start as int] == '-' as u8 || b[events[s].0.start as int] == '*' as u8
            || b[events[s].0.start as int] == '+' as u8,
    ensures
        (markers::block_markers(b, events)->0).contains(
            Marker {
                range: events[s].0.start..(events[s].0.start + 1) as usize,
                kind: Kind::Bullet,
            },
        ),
{
    let inner = events.subrange(s + 1, e);
    let start = events[s].0.start;
    let m = Marker { range: start..(start + 1) as usize, kind: Kind::Bullet };
    assert forall|j: int| 0 <= j < inner.len() implies !((#[trigger] inner[j]).1
        is TaskListMarker) by {
        assert(inner[j] == events[s + 1 + j]);
    }
    lemma_no_task(inner);
    lemma_element_markers(b, events, s, e, m);
    let found = markers::tag_markers(b, TagModel::Item, events[s].0, inner)->0;
    assert(found[0] == m);
}

/// An item shows its bullet also where a box is in it that is not its own: something else than a list
/// marker stands before the first box.
pub proof fn law_bullets_are_substituted_before_other_boxes(
    b: Seq<u8>,
    events: Seq<RangedModel>,
    s: int,
    e: int,
    k: int,
    i: int,
)
    requires
        valid_utf8(b),
        events.len() <= usize::MAX,
        b.len() <= usize::MAX,
        markers::block_markers(b, events) is Some,
        is_element(events, s, e),
        events[s].1 == EventModel::Start(TagModel::Item),
        s < k < e,
        events[k].1 is TaskListMarker,
        forall|j: int| s < j < k ==> !((#[trigger] events[j]).1 is TaskListMarker),
        span::is_slice(b, events[s].0.start as int, events[k].0.start as int),
        0 <= i < span::chars_of(b, events[s].0.start as int, events[k].0.start as int).len(),
        !is_list_char(span::chars_of(b, events[s].0.start as int, events[k].0.start as int)[i]),
        events[s].0.start < b.len(),
        b[events[s].0.start as int] == '-' as u8 || b[events[s].0.start as int] == '*' as u8
            || b[events[s].0.start as int] == '+' as u8,
    ensures
        (markers::block_markers(b, events)->0).contains(
            Marker {
                range: events[s].0.start..(events[s].0.start + 1) as usize,
                kind: Kind::Bullet,
            },
        ),
{
    let inner = events.subrange(s + 1, e);
    let start = events[s].0.start;
    let m = Marker { range: start..(start + 1) as usize, kind: Kind::Bullet };
    assert(inner[k - s - 1] == events[k]);
    assert forall|j: int| 0 <= j < k - s - 1 implies !((#[trigger] inner[j]).1
        is TaskListMarker) by {
        assert(inner[j] == events[s + 1 + j]);
    }
    if let EventModel::TaskListMarker(checked) = events[k].1 {
        lemma_first_task(inner, k - s - 1, checked);
    }
    lemma_is_list_marker(b, start as int, events[k].0.start as int);
    lemma_element_markers(b, events, s, e, m);
    let found = markers::tag_markers(b, TagModel::Item, events[s].0, inner)->0;
    assert(found[0] == m);
}

/// The backticks around inline code are hidden, and with them a space between them and the code:
/// `n` of them before it and as many behind it, with no further backtick at either side.
pub proof fn law_backticks_are_hidden(
    b: Seq<u8>,
    events: Seq<RangedModel>,
    i: int,
    n: int,
    left: int,
    right: int,
)
    requires
        b.len() <= usize::MAX,
        markers::block_markers(b, events) is Some,
        0 <= i < events.len(),
        events[i].1 is Code || events[i].1 is SubstitutedCode,
        n > 0,
        0 <= left <= 1,
        0 <= right <= 1,
        ({
            let content = events[i].0;
            let from = content.start - left;
            let to = content.end + right;
            &&& n <= from <= b.len() && to + n <= b.len()
            &&& left == 1 ==> b[from] == ' ' as u8
            &&& right == 1 ==> b[to - 1] == ' ' as u8
            &&& forall|k: int| from - n <= k < from ==> #[trigger] b[k] == '`' as u8
            &&& forall|k: int| to <= k < to + n ==> #[trigger] b[k] == '`' as u8
            &&& from - n > 0 ==> b[from - n - 1] != '`' as u8
            &&& to + n < b.len() ==> b[to + n] != '`' as u8
        }),
    ensures
        ({
            let content = events[i].0;
            let found = markers::block_markers(b, events)->0;
            &&& found.contains(
                Marker {
                    range: (content.start - left - n) as usize..content.start,
                    kind: Kind::Hidden,
                },
            )
            &&& found.contains(
                Marker {
                    range: content.end..(content.end + right + n) as usize,
                    kind: Kind::Hidden,
                },
            )
        }),
{
    let content = events[i].0;
    let from = content.start - left;
    let to = content.end + right;
    let x = Marker { range: (from - n) as usize..content.start, kind: Kind::Hidden };
    let y = Marker { range: content.end..(to + n) as usize, kind: Kind::Hidden };
    assert(b[from - 1] == 0x60 && b[to] == 0x60);
    lemma_run_start_is(b, 0x60, 0, from, n);
    lemma_run_end_is(b, 0x60, to, b.len() as int, n);
    lemma_event_markers(b, events, i, x);
    lemma_event_markers(b, events, i, y);
    let found = markers::code_markers(b, content)->0;
    assert(found[0] == x && found[1] == y);
}

/// A run that ends at `j` starts `n` bytes before it.
pub proof fn lemma_run_start_is(b: Seq<u8>, byte: u8, i: int, j: int, n: int)
    requires
        i <= j - n,
        0 <= n,
        forall|k: int| j - n <= k < j ==> #[trigger] b[k] == byte,
        i < j - n ==> b[j - n - 1] != byte,
    ensures
        span::run_start(b, byte, i, j) == j - n,
    decreases n,
{
    if n > 0 {
        assert(b[j - 1] == byte);
        lemma_run_start_is(b, byte, i, j - 1, n - 1);
    }
}

/// A run that starts at `i` ends `n` bytes behind it.
pub proof fn lemma_run_end_is(b: Seq<u8>, byte: u8, i: int, j: int, n: int)
    requires
        i + n <= j,
        0 <= n,
        forall|k: int| i <= k < i + n ==> #[trigger] b[k] == byte,
        i + n < j ==> b[i + n] != byte,
    ensures
        span::run_end(b, byte, i, j) == i + n,
    decreases n,
{
    if n > 0 {
        assert(b[i] == byte);
        lemma_run_end_is(b, byte, i + 1, j, n - 1);
    }
}

/// `q` is where the sign of a block quote stands on the line from `p` to `next`: behind three spaces
/// at most, or behind another sign with one space at most between the two.
pub open spec fn is_quote_sign(b: Seq<u8>, p: int, next: int, q: int) -> bool
    decreases q - p,
{
    &&& p <= q < next
    &&& b[q] == '>' as u8
    &&& {
        ||| q - p <= 3 && forall|k: int| p <= k < q ==> #[trigger] b[k] == ' ' as u8
        ||| is_quote_sign(b, p, next, q - 1)
        ||| b[q - 1] == ' ' as u8 && is_quote_sign(b, p, next, q - 2)
    }
}

/// `q` is one of the signs from `i` on.
spec fn in_quote_run(b: Seq<u8>, i: int, end: int, q: int) -> bool
    decreases end - i,
{
    i < end && b[i] == 0x3e && (q == i || in_quote_run(
        b,
        if i + 1 < end && b[i + 1] == 0x20 {
            i + 2
        } else {
            i + 1
        },
        end,
        q,
    ))
}

proof fn lemma_quote_run(b: Seq<u8>, i: int, end: int, q: int)
    requires
        0 <= i,
        end <= usize::MAX,
        in_quote_run(b, i, end, q),
    ensures
        i <= q < end,
        markers::quote_run(b, i, end).contains(
            Marker { range: q as usize..(q + 1) as usize, kind: Kind::BlockQuote },
        ),
    decreases end - i,
{
    let m = Marker { range: q as usize..(q + 1) as usize, kind: Kind::BlockQuote };
    let all = markers::quote_run(b, i, end);
    let next = if i + 1 < end && b[i + 1] == 0x20 {
        i + 2
    } else {
        i + 1
    };
    if q == i {
        assert(all[0] == m);
    } else {
        lemma_quote_run(b, next, end, q);
        let rest = markers::quote_run(b, next, end);
        let k = choose|k: int| 0 <= k < rest.len() && rest[k] == m;
        assert(all[k + 1] == m);
    }
}

proof fn lemma_quote_run_goes_on(b: Seq<u8>, i: int, end: int, q: int, r: int)
    requires
        in_quote_run(b, i, end, q),
        r < end,
        b[r] == 0x3e,
        r == q + 1 || r == q + 2 && b[q + 1] == 0x20,
    ensures
        in_quote_run(b, i, end, r),
    decreases end - i,
{
    let next = if i + 1 < end && b[i + 1] == 0x20 {
        i + 2
    } else {
        i + 1
    };
    if q == i {
        assert(r == next);
        assert(in_quote_run(b, next, end, r));
    } else {
        lemma_quote_run_goes_on(b, next, end, q, r);
    }
}

proof fn lemma_quote_sign(b: Seq<u8>, p: int, next: int, q: int)
    requires
        0 <= p,
        is_quote_sign(b, p, next, q),
    ensures
        in_quote_run(b, markers::up_to_three_spaces(b, p, next), next, q),
    decreases q - p,
{
    let from = markers::up_to_three_spaces(b, p, next);
    if q - p <= 3 && forall|k: int| p <= k < q ==> #[trigger] b[k] == ' ' as u8 {
        let limit = if p + 3 < next {
            p + 3
        } else {
            next
        };
        lemma_run_end_is(b, 0x20, p, limit, q - p);
        assert(from == q);
    } else if is_quote_sign(b, p, next, q - 1) {
        lemma_quote_sign(b, p, next, q - 1);
        lemma_quote_run_goes_on(b, from, next, q - 1, q);
    } else {
        lemma_quote_sign(b, p, next, q - 2);
        lemma_quote_run_goes_on(b, from, next, q - 2, q);
    }
}

proof fn lemma_quote_markers(b: Seq<u8>, p: int, end: int, s: int, t: int, q: int)
    requires
        0 <= p <= end <= usize::MAX,
        text::is_line(b, p, end, s, t),
        s < end,
        is_quote_sign(b, s, t, q),
    ensures
        markers::quote_markers(b, p, end).contains(
            Marker { range: q as usize..(q + 1) as usize, kind: Kind::BlockQuote },
        ),
    decreases end - p,
{
    let m = Marker { range: q as usize..(q + 1) as usize, kind: Kind::BlockQuote };
    span::lemma_find_byte(b, 10, p, end);
    let newline = span::find_byte(b, 10, p, end);
    let next = scan::next_line(b, p, end);
    let from = markers::up_to_three_spaces(b, p, next);
    let here = markers::quote_run(b, from, next);
    let rest = markers::quote_markers(b, next, end);
    let all = markers::quote_markers(b, p, end);
    assert(all == here + rest);
    let limit = if p + 3 < next {
        p + 3
    } else {
        next
    };
    scan::lemma_runs_within(b, 0x20, p, limit);
    if s == p {
        assert(t == newline) by {
            if t < newline {
                assert(b[t] == 10);
            }
            if newline < t {
                assert(b[newline] != '\n' as u8);
            }
        }
        lemma_quote_sign_wider(b, p, t, next, q);
        lemma_quote_sign(b, p, next, q);
        lemma_quote_run(b, from, next, q);
        let k = choose|k: int| 0 <= k < here.len() && here[k] == m;
        assert(all[k] == m);
    } else {
        assert(next <= s) by {
            if s <= newline {
                assert(b[s - 1] != 10);
            }
        }
        lemma_quote_markers(b, next, end, s, t, q);
        let k = choose|k: int| 0 <= k < rest.len() && rest[k] == m;
        assert(all[here.len() + k] == m);
    }
}

proof fn lemma_quote_sign_wider(b: Seq<u8>, p: int, t: int, next: int, q: int)
    requires
        is_quote_sign(b, p, t, q),
        t <= next,
    ensures
        is_quote_sign(b, p, next, q),
    decreases q - p,
{
    if !(q - p <= 3 && forall|k: int| p <= k < q ==> #[trigger] b[k] == ' ' as u8) {
        if is_quote_sign(b, p, t, q - 1) {
            lemma_quote_sign_wider(b, p, t, next, q - 1);
        } else {
            lemma_quote_sign_wider(b, p, t, next, q - 2);
        }
    }
}

/// Each sign of a block quote is substituted, on every line of it.
pub proof fn law_quote_signs_are_substituted(
    b: Seq<u8>,
    events: Seq<RangedModel>,
    s: int,
    e: int,
    from: int,
    to: int,
    q: int,
)
    requires
        events.len() <= usize::MAX,
        b.len() <= usize::MAX,
        markers::block_markers(b, events) is Some,
        is_element(events, s, e),
        events[s].1 matches EventModel::Start(tag) && tag is BlockQuote,
        text::is_line(b, events[s].0.start as int, events[s].0.end as int, from, to),
        is_quote_sign(b, from, to, q),
    ensures
        (markers::block_markers(b, events)->0).contains(
            Marker { range: q as usize..(q + 1) as usize, kind: Kind::BlockQuote },
        ),
{
    let m = Marker { range: q as usize..(q + 1) as usize, kind: Kind::BlockQuote };
    let start = events[s].0.start as int;
    let end = events[s].0.end as int;
    lemma_element_markers(b, events, s, e, m);
    lemma_quote_markers(b, start, end, from, to, q);
}

/// The event starts an element whose delimiters are hidden.
pub open spec fn starts_delimited(event: EventModel) -> bool {
    event matches EventModel::Start(tag) && is_delimited(tag)
}

/// The marker hides what is before the event at `k`, or what is behind it, inside the element that
/// starts at `s`.
pub open spec fn hides_delimiter(events: Seq<RangedModel>, s: int, k: int, m: Marker) -> bool {
    &&& 0 <= s < k < events.len()
    &&& starts_delimited(events[s].1)
    &&& {
        ||| m.range == (events[s].0.start..events[k].0.start)
        ||| m.range.start == events[k].0.end && m.range.end <= events[s].0.end
    }
}

/// The marker hides backticks, and spaces between them and the inline code at `i`.
pub open spec fn hides_backticks(b: Seq<u8>, events: Seq<RangedModel>, i: int, m: Marker) -> bool {
    &&& 0 <= i < events.len()
    &&& events[i].1 is Code || events[i].1 is SubstitutedCode
    &&& m.range.end == events[i].0.start || m.range.start == events[i].0.end
    &&& forall|k: int|
        m.range.start <= k < m.range.end ==> #[trigger] b[k] == '`' as u8 || b[k] == ' ' as u8
}

/// The marker stands for the list marker of the item at `s` and the box at `k`.
pub open spec fn is_box_marker(
    events: Seq<RangedModel>,
    s: int,
    k: int,
    checked: bool,
    m: Marker,
) -> bool {
    &&& 0 <= s < k < events.len()
    &&& events[s].1 == EventModel::Start(TagModel::Item)
    &&& events[k].1 == EventModel::TaskListMarker(checked)
    &&& m.range == (events[s].0.start..events[k].0.end)
}

/// The marker stands for the bullet of the item at `s`.
pub open spec fn is_bullet_marker(b: Seq<u8>, events: Seq<RangedModel>, s: int, m: Marker) -> bool {
    &&& 0 <= s < events.len()
    &&& events[s].1 == EventModel::Start(TagModel::Item)
    &&& m.range.start == events[s].0.start < b.len()
    &&& m.range.end == m.range.start + 1
    &&& b[m.range.start as int] == '-' as u8 || b[m.range.start as int] == '*' as u8
        || b[m.range.start as int] == '+' as u8
}

/// The marker stands for a sign of the block quote at `s`.
pub open spec fn is_quote_marker(b: Seq<u8>, events: Seq<RangedModel>, s: int, m: Marker) -> bool {
    &&& 0 <= s < events.len()
    &&& events[s].1 matches EventModel::Start(tag) && tag is BlockQuote
    &&& events[s].0.start <= m.range.start < events[s].0.end
    &&& m.range.end == m.range.start + 1
    &&& b[m.range.start as int] == '>' as u8
}

/// The marker stands for a piece of syntax among the events.
pub open spec fn stands_for_syntax(b: Seq<u8>, events: Seq<RangedModel>, m: Marker) -> bool {
    match m.kind {
        Kind::Hidden => (exists|s: int, k: int| #[trigger] hides_delimiter(events, s, k, m)) || (
        exists|i: int| #[trigger] hides_backticks(b, events, i, m)),
        Kind::TaskListMarker { checked } => exists|s: int, k: int|
            #[trigger] is_box_marker(events, s, k, checked, m),
        Kind::Bullet => exists|s: int| #[trigger] is_bullet_marker(b, events, s, m),
        Kind::BlockQuote => exists|s: int| #[trigger] is_quote_marker(b, events, s, m),
    }
}

spec fn all_stand_for_syntax(b: Seq<u8>, events: Seq<RangedModel>, found: Seq<Marker>) -> bool {
    forall|k: int| 0 <= k < found.len() ==> stands_for_syntax(b, events, #[trigger] found[k])
}

proof fn lemma_first_task_is(events: Seq<RangedModel>)
    ensures
        markers::first_task(events) matches Some((task, checked)) ==> exists|k: int|
            0 <= k < events.len() && #[trigger] events[k] == (
                task,
                EventModel::TaskListMarker(checked),
            ),
    decreases events.len(),
{
    if events.len() > 0 {
        let rest = events.drop_first();
        lemma_first_task_is(rest);
        if let Some((task, checked)) = markers::first_task(events) {
            if events[0].1 is TaskListMarker {
                assert(events[0] == (task, EventModel::TaskListMarker(checked)));
            } else {
                let k = choose|k: int|
                    0 <= k < rest.len() && #[trigger] rest[k] == (
                        task,
                        EventModel::TaskListMarker(checked),
                    );
                assert(events[k + 1] == rest[k]);
            }
        }
    }
}

proof fn lemma_bullet_syntax(b: Seq<u8>, events: Seq<RangedModel>, s: int)
    requires
        0 <= s < events.len(),
        b.len() <= usize::MAX,
        events[s].1 == EventModel::Start(TagModel::Item),
    ensures
        markers::bullet(b, events[s].0.start) matches Some(found) ==> all_stand_for_syntax(
            b,
            events,
            found,
        ),
{
    if let Some(found) = markers::bullet(b, events[s].0.start) {
        assert forall|k: int| 0 <= k < found.len() implies stands_for_syntax(
            b,
            events,
            #[trigger] found[k],
        ) by {
            assert(is_bullet_marker(b, events, s, found[k]));
        }
    }
}

proof fn lemma_quote_run_syntax(b: Seq<u8>, events: Seq<RangedModel>, s: int, i: int, end: int)
    requires
        0 <= s < events.len(),
        events[s].1 matches EventModel::Start(tag) && tag is BlockQuote,
        events[s].0.start <= i,
        end <= events[s].0.end,
    ensures
        all_stand_for_syntax(b, events, markers::quote_run(b, i, end)),
    decreases end - i,
{
    if i < end && b[i] == 0x3e {
        let next = if i + 1 < end && b[i + 1] == 0x20 {
            i + 2
        } else {
            i + 1
        };
        lemma_quote_run_syntax(b, events, s, next, end);
        let rest = markers::quote_run(b, next, end);
        let all = markers::quote_run(b, i, end);
        assert forall|k: int| 0 <= k < all.len() implies stands_for_syntax(
            b,
            events,
            #[trigger] all[k],
        ) by {
            if k == 0 {
                assert(is_quote_marker(b, events, s, all[0]));
            } else {
                assert(all[k] == rest[k - 1]);
            }
        }
    }
}

proof fn lemma_quote_syntax(b: Seq<u8>, events: Seq<RangedModel>, s: int, p: int, end: int)
    requires
        0 <= s < events.len(),
        events[s].1 matches EventModel::Start(tag) && tag is BlockQuote,
        events[s].0.start <= p,
        end <= events[s].0.end,
    ensures
        all_stand_for_syntax(b, events, markers::quote_markers(b, p, end)),
    decreases end - p,
{
    if p < end {
        span::lemma_find_byte(b, 10, p, end);
        let next = scan::next_line(b, p, end);
        let limit = if p + 3 < next {
            p + 3
        } else {
            next
        };
        scan::lemma_runs_within(b, 0x20, p, limit);
        let from = markers::up_to_three_spaces(b, p, next);
        lemma_quote_run_syntax(b, events, s, from, next);
        lemma_quote_syntax(b, events, s, next, end);
        let here = markers::quote_run(b, from, next);
        let rest = markers::quote_markers(b, next, end);
        let all = markers::quote_markers(b, p, end);
        assert forall|k: int| 0 <= k < all.len() implies stands_for_syntax(
            b,
            events,
            #[trigger] all[k],
        ) by {
            if k < here.len() {
                assert(all[k] == here[k]);
            } else {
                assert(all[k] == rest[k - here.len()]);
            }
        }
    }
}

proof fn lemma_around_syntax(b: Seq<u8>, events: Seq<RangedModel>, s: int, e: int)
    requires
        valid_utf8(b),
        b.len() <= usize::MAX,
        0 <= s < e <= events.len(),
        starts_delimited(events[s].1),
    ensures
        markers::around(b, events[s].0, events.subrange(s + 1, e)) matches Some(found)
            ==> all_stand_for_syntax(b, events, found),
{
    let inner = events.subrange(s + 1, e);
    if let Some(found) = markers::around(b, events[s].0, inner) {
        if inner.len() > 0 {
            lemma_extremes(inner);
            let x = choose|k: int|
                0 <= k < inner.len() && (#[trigger] inner[k]).0.start == blocks::min_start(inner);
            let y = choose|k: int|
                0 <= k < inner.len() && (#[trigger] inner[k]).0.end == blocks::max_end(inner);
            let end = blocks::max_end(inner) as int;
            span::lemma_skip_white_back(b, end, events[s].0.end as int);
            assert forall|k: int| 0 <= k < found.len() implies stands_for_syntax(
                b,
                events,
                #[trigger] found[k],
            ) by {
                assert(inner[x] == events[s + 1 + x] && inner[y] == events[s + 1 + y]);
                assert(hides_delimiter(events, s, s + 1 + x, found[k]) || hides_delimiter(
                    events,
                    s,
                    s + 1 + y,
                    found[k],
                ));
            }
        }
    }
}

proof fn lemma_item_syntax(b: Seq<u8>, events: Seq<RangedModel>, s: int, e: int)
    requires
        b.len() <= usize::MAX,
        0 <= s < e <= events.len(),
        events[s].1 == EventModel::Start(TagModel::Item),
    ensures
        markers::item_marker(b, events[s].0.start, events.subrange(s + 1, e)) matches Some(found)
            ==> all_stand_for_syntax(b, events, found),
{
    let inner = events.subrange(s + 1, e);
    lemma_first_task_is(inner);
    lemma_bullet_syntax(b, events, s);
    if let Some((task, checked)) = markers::first_task(inner) {
        let k = choose|k: int|
            0 <= k < inner.len() && #[trigger] inner[k] == (
                task,
                EventModel::TaskListMarker(checked),
            );
        assert(events[s + 1 + k] == inner[k]);
        let m = Marker {
            range: events[s].0.start..task.end,
            kind: Kind::TaskListMarker { checked },
        };
        assert(is_box_marker(events, s, s + 1 + k, checked, m));
        match m.kind {
            Kind::TaskListMarker { checked: box_checked } => {
                assert(is_box_marker(events, s, s + 1 + k, box_checked, m));
            },
            _ => {},
        }
        assert(stands_for_syntax(b, events, m));
        if let Some(found) = markers::item_marker(b, events[s].0.start, inner) {
            let start = events[s].0.start as int;
            let boxes = markers::marker(
                start,
                task.end as int,
                Kind::TaskListMarker { checked },
            );
            assert(forall|j: int| 0 <= j < boxes.len() ==> #[trigger] boxes[j] == m);
            assert(found == boxes || markers::bullet(b, events[s].0.start) == Some(found));
        }
    }
}

proof fn lemma_code_syntax(b: Seq<u8>, events: Seq<RangedModel>, i: int)
    requires
        b.len() <= usize::MAX,
        0 <= i < events.len(),
        events[i].1 is Code || events[i].1 is SubstitutedCode,
    ensures
        markers::code_markers(b, events[i].0) matches Some(found) ==> all_stand_for_syntax(
            b,
            events,
            found,
        ),
{
    if let Some(found) = markers::code_markers(b, events[i].0) {
        let start = events[i].0.start as int;
        let end = events[i].0.end as int;
        let leading_end = if start > 0 && b[start - 1] == 0x20 {
            start - 1
        } else {
            start
        };
        let trailing_start = if end < b.len() && b[end] == 0x20 {
            end + 1
        } else {
            end
        };
        lemma_run_start_holds(b, 0x60, 0, leading_end);
        lemma_run_end_holds(b, 0x60, trailing_start, b.len() as int);
        assert forall|k: int| 0 <= k < found.len() implies stands_for_syntax(
            b,
            events,
            #[trigger] found[k],
        ) by {
            assert(hides_backticks(b, events, i, found[k]));
        }
    }
}

/// A run holds one byte.
pub proof fn lemma_run_start_holds(b: Seq<u8>, byte: u8, i: int, j: int)
    requires
        i <= j,
    ensures
        i <= span::run_start(b, byte, i, j) <= j,
        forall|k: int| span::run_start(b, byte, i, j) <= k < j ==> #[trigger] b[k] == byte,
    decreases j - i,
{
    if i < j && b[j - 1] == byte {
        lemma_run_start_holds(b, byte, i, j - 1);
    }
}

/// A run holds one byte.
pub proof fn lemma_run_end_holds(b: Seq<u8>, byte: u8, i: int, j: int)
    ensures
        i <= span::run_end(b, byte, i, j),
        i <= j ==> span::run_end(b, byte, i, j) <= j,
        i >= j ==> span::run_end(b, byte, i, j) == i,
        forall|k: int| i <= k < span::run_end(b, byte, i, j) ==> #[trigger] b[k] == byte,
    decreases j - i,
{
    if i < j && b[i] == byte {
        lemma_run_end_holds(b, byte, i + 1, j);
    }
}

proof fn lemma_flow_syntax(b: Seq<u8>, events: Seq<RangedModel>, n: int)
    requires
        valid_utf8(b),
        b.len() <= usize::MAX,
        0 <= n <= events.len() <= usize::MAX,
        markers::marker_flow(b, events, n) is Some,
    ensures
        all_stand_for_syntax(b, events, (markers::marker_flow(b, events, n)->0).markers),
        forall|k: int|
            0 <= k < (markers::marker_flow(b, events, n)->0).open.len() ==> (
            #[trigger] (markers::marker_flow(b, events, n)->0).open[k]) < n,
    decreases n,
{
    if n > 0 {
        let i = n - 1;
        lemma_flow_syntax(b, events, i);
        let f = markers::marker_flow(b, events, i)->0;
        let g = markers::marker_flow(b, events, n)->0;
        if events[i].1 is End && f.open.len() > 0 {
            let s = f.open[f.open.len() - 1] as int;
            if let EventModel::Start(tag) = events[s].1 {
                if is_delimited(tag) {
                    lemma_around_syntax(b, events, s, i);
                }
                if tag == TagModel::Item {
                    lemma_item_syntax(b, events, s, i);
                }
                if tag is BlockQuote {
                    lemma_quote_syntax(
                        b,
                        events,
                        s,
                        events[s].0.start as int,
                        events[s].0.end as int,
                    );
                }
            }
        }
        if events[i].1 is Code || events[i].1 is SubstitutedCode {
            lemma_code_syntax(b, events, i);
        }
        let found = g.markers.subrange(f.markers.len() as int, g.markers.len() as int);
        assert(g.markers =~= f.markers + found);
        assert(all_stand_for_syntax(b, events, found));
        assert forall|k: int| 0 <= k < g.markers.len() implies stands_for_syntax(
            b,
            events,
            #[trigger] g.markers[k],
        ) by {
            if k < f.markers.len() {
                assert(g.markers[k] == f.markers[k]);
            } else {
                assert(g.markers[k] == found[k - f.markers.len()]);
            }
        }
    }
}

/// Nothing but syntax is hidden or substituted: each marker of a block stands for the delimiter of
/// an element, for backticks around inline code, for a box, a bullet or the sign of a block quote.
pub proof fn law_markers_stand_for_syntax(b: Seq<u8>, events: Seq<RangedModel>, m: Marker)
    requires
        valid_utf8(b),
        b.len() <= usize::MAX,
        events.len() <= usize::MAX,
        markers::block_markers(b, events) is Some,
        (markers::block_markers(b, events)->0).contains(m),
    ensures
        stands_for_syntax(b, events, m),
{
    lemma_flow_syntax(b, events, events.len() as int);
    let found = markers::block_markers(b, events)->0;
    let k = choose|k: int| 0 <= k < found.len() && found[k] == m;
    assert(stands_for_syntax(b, events, found[k]));
}

/// The ranges have no offset in common.
pub open spec fn are_apart(x: Range<usize>, y: Range<usize>) -> bool {
    x.end <= y.start || y.end <= x.start
}

proof fn lemma_deduplicated_keeps(found: Seq<Marker>, m: Marker)
    requires
        found.contains(m),
        m.range.start < m.range.end,
        forall|j: int|
            0 <= j < found.len() ==> (#[trigger] found[j]) == m || are_apart(
                found[j].range,
                m.range,
            ),
        order::is_ordered(found),
    ensures
        layout::deduplicated(found).contains(m),
    decreases found.len(),
{
    let init = found.drop_last();
    let before = layout::deduplicated(init);
    let after = layout::deduplicated(found);
    if init.contains(m) {
        assert forall|j: int| 0 <= j < init.len() implies (#[trigger] init[j]) == m || are_apart(
            init[j].range,
            m.range,
        ) by {
            assert(init[j] == found[j]);
        }
        assert forall|i: int, j: int| 0 <= i < j < init.len() implies !order::before(
            (#[trigger] init[j]).key(),
            (#[trigger] init[i]).key(),
        ) by {
            assert(init[i] == found[i] && init[j] == found[j]);
        }
        lemma_deduplicated_keeps(init, m);
        let i = choose|i: int| 0 <= i < before.len() && before[i] == m;
        assert(after[i] == m);
    } else {
        let k = choose|k: int| 0 <= k < found.len() && found[k] == m;
        assert(k < init.len() ==> init[k] == m);
        assert(found.last() == m);
        if before.len() > 0 {
            let last = before.last();
            assert(before[before.len() - 1] == last);
            layout::lemma_deduplicated_holds(init, last);
            let j = choose|j: int| 0 <= j < init.len() && init[j] == last;
            layout::law_markers_are_in_order(init);
            assert(found[j] == last);
            assert(!order::before(found[found.len() - 1].key(), found[j].key()));
        }
        assert(after[before.len() as int] == m);
    }
}

/// A marker of a block that is not replaced is in the live preview, unless it overlaps another
/// one: it is not empty, and each other marker of such blocks is apart from it.
pub proof fn law_markers_are_laid_out(
    b: Seq<u8>,
    events: Seq<RangedModel>,
    k: int,
    m: Marker,
)
    requires
        layout::layout(b, events) is Some,
        0 <= k < (blocks::root_blocks(b, events)->0).len(),
        layout::is_marker_of(b, events, (blocks::root_blocks(b, events)->0)[k], m),
        m.range.start < m.range.end,
        forall|j: int, other: Marker|
            0 <= j < (blocks::root_blocks(b, events)->0).len() && #[trigger] layout::is_marker_of(
                b,
                events,
                (blocks::root_blocks(b, events)->0)[j],
                other,
            ) ==> other == m || are_apart(other.range, m.range),
    ensures
        (layout::layout(b, events)->0).inline_markers.contains(m),
{
    let roots = blocks::root_blocks(b, events)->0;
    let found = layout::inline_markers(b, events, roots)->0;
    lemma_inline_markers_hold(b, events, roots, k, m);
    let sorted = order::sorted(found);
    order::lemma_sorted(found);
    found.to_multiset_ensures();
    sorted.to_multiset_ensures();
    assert(sorted.to_multiset().count(m) > 0);
    assert(sorted.contains(m));
    assert forall|j: int| 0 <= j < sorted.len() implies (#[trigger] sorted[j]) == m || are_apart(
        sorted[j].range,
        m.range,
    ) by {
        let other = sorted[j];
        assert(sorted.contains(other));
        assert(sorted.to_multiset().count(other) > 0);
        assert(found.contains(other));
        layout::lemma_inline_markers_come_from(b, events, roots, other);
        let i = choose|i: int|
            0 <= i < roots.len() && layout::is_marker_of(b, events, #[trigger] roots[i], other);
        assert(layout::is_marker_of(b, events, roots[i], other));
    }
    lemma_deduplicated_keeps(sorted, m);
}

proof fn lemma_inline_markers_hold(
    b: Seq<u8>,
    events: Seq<RangedModel>,
    roots: Seq<RootBlockModel>,
    k: int,
    m: Marker,
)
    requires
        layout::inline_markers(b, events, roots) is Some,
        0 <= k < roots.len(),
        layout::is_marker_of(b, events, roots[k], m),
    ensures
        (layout::inline_markers(b, events, roots)->0).contains(m),
    decreases roots.len(),
{
    let init = roots.drop_last();
    let before = layout::inline_markers(b, events, init)->0;
    let all = layout::inline_markers(b, events, roots)->0;
    if k < init.len() {
        assert(init[k] == roots[k]);
        lemma_inline_markers_hold(b, events, init, k, m);
        let i = choose|i: int| 0 <= i < before.len() && before[i] == m;
        assert(all[i] == m);
    } else {
        let indices = roots[k].1;
        let found = markers::block_markers(
            b,
            events.subrange(indices.start as int, indices.end as int),
        )->0;
        let i = choose|i: int| 0 <= i < found.len() && found[i] == m;
        assert(all[before.len() + i] == m);
    }
}

/// A marker that is not empty is dropped only where it overlaps one that is kept and that starts no
/// later.
pub proof fn law_dropped_markers_overlap_kept_ones(found: Seq<Marker>, k: int)
    requires
        order::is_ordered(found),
        0 <= k < found.len(),
        found[k].range.start < found[k].range.end,
    ensures
        layout::deduplicated(found).contains(found[k]) || exists|i: int|
            0 <= i < layout::deduplicated(found).len() && (#[trigger] layout::deduplicated(
                found,
            )[i]).range.start <= found[k].range.start && found[k].range.start
                < layout::deduplicated(found)[i].range.end,
    decreases found.len(),
{
    let init = found.drop_last();
    let before = layout::deduplicated(init);
    let after = layout::deduplicated(found);
    if k < init.len() {
        assert forall|i: int, j: int| 0 <= i < j < init.len() implies !order::before(
            (#[trigger] init[j]).key(),
            (#[trigger] init[i]).key(),
        ) by {
            assert(init[i] == found[i] && init[j] == found[j]);
        }
        law_dropped_markers_overlap_kept_ones(init, k);
        if before.contains(init[k]) {
            let i = choose|i: int| 0 <= i < before.len() && before[i] == init[k];
            assert(after[i] == found[k]);
        } else {
            let i = choose|i: int|
                0 <= i < before.len() && (#[trigger] before[i]).range.start <= init[k].range.start
                    && init[k].range.start < before[i].range.end;
            assert(after[i] == before[i]);
        }
    } else if before.len() > 0 && found[k].range.start < before.last().range.end {
        let last = before[before.len() - 1];
        layout::lemma_deduplicated_holds(init, last);
        let j = choose|j: int| 0 <= j < init.len() && init[j] == last;
        assert(found[j] == last);
        assert(!order::before(found[k].key(), found[j].key()));
        assert(after[before.len() - 1] == last);
    } else {
        assert(after[before.len() as int] == found[k]);
    }
}

} // verus!
