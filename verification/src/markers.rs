//! The inline syntax of a block.
use crate::blocks;
use crate::event;
use crate::event::{EventModel, MarkdownEvent, MarkdownTag, RangedEvent, RangedModel, TagModel};
use crate::preview::{
    MarkdownLivePreviewInlineMarker as Marker, MarkdownLivePreviewInlineMarkerKind as Kind,
};
use crate::scan;
use crate::span;
use std::ops::Range;
use vstd::prelude::*;
use vstd::slice::slice_subrange;
use vstd::string::StringSliceAdditionalSpecFns;
use vstd::utf8::*;

verus! {

/// A marker, if its range is not empty.
pub open spec fn marker(start: int, end: int, kind: Kind) -> Seq<Marker> {
    if start < end {
        seq![Marker { range: start as usize..end as usize, kind }]
    } else {
        Seq::empty()
    }
}

/// The syntax around the content of an element is hidden: what is before its events and what is
/// behind them, without white space at its end. `None` if there is no such range in the source.
pub open spec fn around(b: Seq<u8>, tag_range: Range<usize>, inner: Seq<RangedModel>) -> Option<
    Seq<Marker>,
> {
    if inner.len() == 0 {
        Some(Seq::empty())
    } else {
        let start = blocks::min_start(inner) as int;
        let end = blocks::max_end(inner) as int;
        if span::is_slice(b, end, tag_range.end as int) {
            Some(
                marker(tag_range.start as int, start, Kind::Hidden) + marker(
                    end,
                    span::skip_white_back(b, end, tag_range.end as int),
                    Kind::Hidden,
                ),
            )
        } else {
            None
        }
    }
}

/// The first task list marker among the events: its range, and whether it is checked.
pub open spec fn first_task(events: Seq<RangedModel>) -> Option<(Range<usize>, bool)>
    decreases events.len(),
{
    if events.len() == 0 {
        None
    } else {
        match events[0].1 {
            EventModel::TaskListMarker(checked) => Some((events[0].0, checked)),
            _ => first_task(events.drop_first()),
        }
    }
}

/// The characters that list markers are made of: digits, white space and `-*+.)`.
pub open spec fn is_list_marker_char(scalar: u32) -> bool {
    ||| 0x30 <= scalar <= 0x39
    ||| span::is_white_space(scalar)
    ||| scalar == 0x2d
    ||| scalar == 0x2a
    ||| scalar == 0x2b
    ||| scalar == 0x2e
    ||| scalar == 0x29
}

/// `i..j` holds nothing but characters that list markers are made of.
pub open spec fn is_list_marker(b: Seq<u8>, i: int, j: int) -> bool
    decreases
            (if i < j {
                j - i
            } else {
                0
            }),
{
    i < j ==> is_list_marker_char(span::scalar_at(b, i)) && is_list_marker(
        b,
        i + span::width_at(b, i),
        j,
    )
}

/// The marker of a list item that starts at `start`: up to and with its task list marker, if
/// nothing but a list marker is before that; else its bullet, if it has one. `None` if there is no
/// such range in the source.
pub open spec fn item_marker(b: Seq<u8>, start: usize, inner: Seq<RangedModel>) -> Option<Seq<Marker>> {
    match first_task(inner) {
        Some((task, checked)) => if task.start < start {
            bullet(b, start)
        } else if !span::is_slice(b, start as int, task.start as int) {
            None
        } else if is_list_marker(b, start as int, task.start as int) {
            Some(marker(start as int, task.end as int, Kind::TaskListMarker { checked }))
        } else {
            bullet(b, start)
        },
        None => bullet(b, start),
    }
}

/// The bullet of a list item that starts at `start`, if it has one.
pub open spec fn bullet(b: Seq<u8>, start: usize) -> Option<Seq<Marker>> {
    if !span::is_slice(b, start as int, b.len() as int) {
        None
    } else if start < b.len() && (b[start as int] == 0x2d || b[start as int] == 0x2a
        || b[start as int] == 0x2b) {
        Some(marker(start as int, start + 1, Kind::Bullet))
    } else {
        Some(Seq::empty())
    }
}

/// The `>` of a block quote from `i` on, each with one space behind it or none, in a line that ends
/// at `end`.
pub open spec fn quote_run(b: Seq<u8>, i: int, end: int) -> Seq<Marker>
    decreases end - i,
{
    if i < end && b[i] == 0x3e {
        marker(i, i + 1, Kind::BlockQuote) + quote_run(
            b,
            if i + 1 < end && b[i + 1] == 0x20 {
                i + 2
            } else {
                i + 1
            },
            end,
        )
    } else {
        Seq::empty()
    }
}

/// How far the spaces reach from `i` on: three at most, and no further than `end`.
pub open spec fn up_to_three_spaces(b: Seq<u8>, i: int, end: int) -> int {
    let limit = if i + 3 < end {
        i + 3
    } else {
        end
    };
    span::run_end(b, 0x20, i, limit)
}

/// The markers of the lines of a block quote from `p` on.
pub open spec fn quote_markers(b: Seq<u8>, p: int, end: int) -> Seq<Marker>
    decreases end - p,
    via quote_markers_decreases
{
    if p < end {
        let next = scan::next_line(b, p, end);
        quote_run(b, up_to_three_spaces(b, p, next), next) + quote_markers(b, next, end)
    } else {
        Seq::empty()
    }
}

#[via_fn]
proof fn quote_markers_decreases(b: Seq<u8>, p: int, end: int) {
    if p < end {
        span::lemma_find_byte(b, 10, p, end);
    }
}

/// The markers of an element with the events inside it. `None` if an event has no place in the
/// source.
pub open spec fn tag_markers(
    b: Seq<u8>,
    tag: TagModel,
    tag_range: Range<usize>,
    inner: Seq<RangedModel>,
) -> Option<Seq<Marker>> {
    match tag {
        TagModel::Emphasis | TagModel::Strong | TagModel::Strikethrough | TagModel::Link { .. }
        | TagModel::Heading { .. } => around(b, tag_range, inner),
        TagModel::Item => item_marker(b, tag_range.start, inner),
        TagModel::BlockQuote(_) => if span::is_slice(
            b,
            tag_range.start as int,
            tag_range.end as int,
        ) {
            Some(quote_markers(b, tag_range.start as int, tag_range.end as int))
        } else {
            None
        },
        _ => Some(Seq::empty()),
    }
}

/// The markers of a code span with its content at `range`. `None` if there is no such range in the
/// source.
pub open spec fn code_markers(b: Seq<u8>, range: Range<usize>) -> Option<Seq<Marker>> {
    if range.start > b.len() {
        None
    } else {
        match scan::span_delimiters(b, range.start as int, range.end as int) {
            Some((leading, trailing)) => Some(
                marker(leading.start as int, leading.end as int, Kind::Hidden) + marker(
                    trailing.start as int,
                    trailing.end as int,
                    Kind::Hidden,
                ),
            ),
            None => Some(Seq::empty()),
        }
    }
}

/// The markers found so far, and the indices of the events that started the elements which are
/// open.
pub struct MarkerFlow {
    pub markers: Seq<Marker>,
    pub open: Seq<usize>,
}

/// With the event at `i`. `None` if an event has no place in the source.
pub open spec fn marker_step(b: Seq<u8>, events: Seq<RangedModel>, i: int, f: MarkerFlow) -> Option<
    MarkerFlow,
> {
    match events[i].1 {
        EventModel::Start(_) => Some(MarkerFlow { open: f.open.push(i as usize), ..f }),
        EventModel::End(_) => if f.open.len() == 0 {
            Some(f)
        } else {
            let start = f.open.last() as int;
            match events[start].1 {
                EventModel::Start(tag) => match tag_markers(
                    b,
                    tag,
                    events[start].0,
                    events.subrange(start + 1, i),
                ) {
                    Some(markers) => Some(
                        MarkerFlow { markers: f.markers + markers, open: f.open.drop_last() },
                    ),
                    None => None,
                },
                _ => Some(MarkerFlow { open: f.open.drop_last(), ..f }),
            }
        },
        EventModel::Code | EventModel::SubstitutedCode(_) => match code_markers(b, events[i].0) {
            Some(markers) => Some(MarkerFlow { markers: f.markers + markers, ..f }),
            None => None,
        },
        _ => Some(f),
    }
}

/// The markers of the first `n` events.
pub open spec fn marker_flow(b: Seq<u8>, events: Seq<RangedModel>, n: int) -> Option<MarkerFlow>
    decreases n,
{
    if n <= 0 {
        Some(MarkerFlow { markers: Seq::empty(), open: Seq::empty() })
    } else {
        match marker_flow(b, events, n - 1) {
            Some(f) => marker_step(b, events, n - 1, f),
            None => None,
        }
    }
}

/// The markers of a block: see [`marker_flow`].
pub open spec fn block_markers(b: Seq<u8>, events: Seq<RangedModel>) -> Option<Seq<Marker>> {
    match marker_flow(b, events, events.len() as int) {
        Some(f) => Some(f.markers),
        None => None,
    }
}

/// Adds a marker, if its range is not empty.
fn push_marker(markers: &mut Vec<Marker>, range: Range<usize>, kind: Kind)
    ensures
        final(markers)@ == old(markers)@ + marker(range.start as int, range.end as int, kind),
{
    if range.start < range.end {
        markers.push(Marker { range, kind });
    }
    assert(markers@ =~= old(markers)@ + marker(range.start as int, range.end as int, kind));
}

/// Adds the markers around an element: see [`around`].
fn push_around(
    text: &str,
    tag_range: &Range<usize>,
    inner: &[RangedEvent],
    markers: &mut Vec<Marker>,
) -> (ok: bool)
    ensures
        match around(text.spec_bytes(), *tag_range, event::models(inner@)) {
            Some(found) => ok && final(markers)@ == old(markers)@ + found,
            None => !ok,
        },
{
    if inner.len() == 0 {
        assert(markers@ =~= old(markers)@ + Seq::empty());
        return true;
    }
    let (start, end) = blocks::extent(inner);
    if !span::can_slice(text, end, tag_range.end) {
        return false;
    }
    let trailing = scan::trim_end_whitespace(text, end..tag_range.end);
    push_marker(markers, tag_range.start..start, Kind::Hidden);
    push_marker(markers, trailing, Kind::Hidden);
    assert(markers@ =~= old(markers)@ + around(
        text.spec_bytes(),
        *tag_range,
        event::models(inner@),
    )->0);
    true
}

/// The first task list marker: see [`first_task`].
fn find_task(events: &[RangedEvent]) -> (r: Option<(Range<usize>, bool)>)
    ensures
        r == first_task(event::models(events@)),
{
    let ghost models = event::models(events@);
    let mut i: usize = 0;
    assert(models.skip(0) =~= models);
    while i < events.len()
        invariant
            i <= events@.len(),
            models == event::models(events@),
            first_task(models) == first_task(models.skip(i as int)),
        decreases events@.len() - i,
    {
        proof {
            assert(models.skip(i as int)[0] == event::ranged_model(events@[i as int]));
            assert(models.skip(i as int).drop_first() =~= models.skip(i + 1));
        }
        if let MarkdownEvent::TaskListMarker(checked) = &events[i].1 {
            return Some((events[i].0.start..events[i].0.end, *checked));
        }
        i += 1;
    }
    None
}

/// Tests for a list marker: see [`is_list_marker`].
fn holds_list_marker(bytes: &[u8], start: usize, end: usize) -> (r: bool)
    requires
        valid_utf8(bytes@),
        span::is_slice(bytes@, start as int, end as int),
    ensures
        r == is_list_marker(bytes@, start as int, end as int),
{
    let mut i: usize = start;
    while i < end
        invariant
            valid_utf8(bytes@),
            span::is_slice(bytes@, start as int, end as int),
            start <= i <= end,
            span::on_boundary(bytes@, i as int),
            is_list_marker(bytes@, start as int, end as int) == is_list_marker(
                bytes@,
                i as int,
                end as int,
            ),
        decreases end - i,
    {
        let (scalar, width) = span::decode_at(bytes, i);
        let ok = (0x30 <= scalar && scalar <= 0x39) || span::white_space(scalar) || scalar == 0x2d
            || scalar == 0x2a || scalar == 0x2b || scalar == 0x2e || scalar == 0x29;
        if !ok {
            return false;
        }
        proof {
            span::lemma_scalar(bytes@, i as int);
            if i + width > end {
                assert(is_continuation_byte(bytes@[end as int]));
            }
        }
        i += width;
    }
    true
}

/// Adds the bullet of a list item: see [`bullet`].
fn push_bullet(text: &str, start: usize, markers: &mut Vec<Marker>) -> (ok: bool)
    ensures
        match bullet(text.spec_bytes(), start) {
            Some(found) => ok && final(markers)@ == old(markers)@ + found,
            None => !ok,
        },
{
    let bytes = text.as_bytes();
    if !span::can_slice(text, start, bytes.len()) {
        return false;
    }
    if start < bytes.len() && (bytes[start] == 0x2d || bytes[start] == 0x2a || bytes[start]
        == 0x2b) {
        push_marker(markers, start..start + 1, Kind::Bullet);
    } else {
        assert(markers@ =~= old(markers)@ + Seq::empty());
    }
    true
}

/// Adds the marker of a list item: see [`item_marker`].
fn push_item(
    text: &str,
    start: usize,
    inner: &[RangedEvent],
    markers: &mut Vec<Marker>,
) -> (ok: bool)
    ensures
        match item_marker(text.spec_bytes(), start, event::models(inner@)) {
            Some(found) => ok && final(markers)@ == old(markers)@ + found,
            None => !ok,
        },
{
    if let Some((task, checked)) = find_task(inner) {
        if task.start >= start {
            if !span::can_slice(text, start, task.start) {
                return false;
            }
            proof {
                span::lemma_str_bytes(text);
            }
            if holds_list_marker(text.as_bytes(), start, task.start) {
                push_marker(markers, start..task.end, Kind::TaskListMarker { checked });
                return true;
            }
        }
    }
    push_bullet(text, start, markers)
}

/// Adds the markers of a line of a block quote: see [`quote_run`].
fn push_quote_run(bytes: &[u8], start: usize, end: usize, markers: &mut Vec<Marker>)
    requires
        start <= end <= bytes@.len(),
    ensures
        final(markers)@ == old(markers)@ + quote_run(bytes@, start as int, end as int),
{
    let ghost before = markers@;
    let ghost whole = quote_run(bytes@, start as int, end as int);
    let mut i: usize = start;
    while i < end && bytes[i] == 0x3e
        invariant
            start <= i <= end <= bytes@.len(),
            before + whole == markers@ + quote_run(bytes@, i as int, end as int),
        decreases end - i,
    {
        let ghost here = markers@;
        let next = if end - i > 1 && bytes[i + 1] == 0x20 {
            i + 2
        } else {
            i + 1
        };
        push_marker(markers, i..i + 1, Kind::BlockQuote);
        proof {
            let found = marker(i as int, i + 1, Kind::BlockQuote);
            let rest = quote_run(bytes@, next as int, end as int);
            assert(here + (found + rest) =~= (here + found) + rest);
        }
        i = next;
    }
    assert(markers@ + Seq::empty() =~= markers@);
}

/// Adds the markers of a block quote: see [`quote_markers`].
fn push_quote(bytes: &[u8], start: usize, end: usize, markers: &mut Vec<Marker>)
    requires
        start <= end <= bytes@.len(),
    ensures
        final(markers)@ == old(markers)@ + quote_markers(bytes@, start as int, end as int),
{
    let ghost before = markers@;
    let ghost whole = quote_markers(bytes@, start as int, end as int);
    let mut p: usize = start;
    while p < end
        invariant
            start <= p <= end <= bytes@.len(),
            before + whole == markers@ + quote_markers(bytes@, p as int, end as int),
        decreases end - p,
    {
        let ghost here = markers@;
        let newline = span::find_byte_at(bytes, 10, p, end);
        let next = if newline < end {
            newline + 1
        } else {
            end
        };
        let limit = if next - p > 3 {
            p + 3
        } else {
            next
        };
        let from = span::run_end_at(bytes, 0x20, p, limit);
        push_quote_run(bytes, from, next, markers);
        proof {
            let found = quote_run(bytes@, from as int, next as int);
            let rest = quote_markers(bytes@, next as int, end as int);
            assert(here + (found + rest) =~= (here + found) + rest);
        }
        p = next;
    }
    assert(markers@ + Seq::empty() =~= markers@);
}

/// Adds the markers of an element: see [`tag_markers`].
fn push_tag_markers(
    text: &str,
    tag: &MarkdownTag,
    tag_range: &Range<usize>,
    inner: &[RangedEvent],
    markers: &mut Vec<Marker>,
) -> (ok: bool)
    ensures
        match tag_markers(text.spec_bytes(), tag@, *tag_range, event::models(inner@)) {
            Some(found) => ok && final(markers)@ == old(markers)@ + found,
            None => !ok,
        },
{
    match tag {
        MarkdownTag::Emphasis
        | MarkdownTag::Strong
        | MarkdownTag::Strikethrough
        | MarkdownTag::Link { .. }
        | MarkdownTag::Heading { .. } => push_around(text, tag_range, inner, markers),
        MarkdownTag::Item => push_item(text, tag_range.start, inner, markers),
        MarkdownTag::BlockQuote(_) => {
            if !span::can_slice(text, tag_range.start, tag_range.end) {
                return false;
            }
            push_quote(text.as_bytes(), tag_range.start, tag_range.end, markers);
            true
        },
        _ => {
            assert(markers@ =~= old(markers)@ + Seq::empty());
            true
        },
    }
}

/// Adds the markers of a code span: see [`code_markers`].
fn push_code_markers(text: &str, range: &Range<usize>, markers: &mut Vec<Marker>) -> (ok: bool)
    ensures
        match code_markers(text.spec_bytes(), *range) {
            Some(found) => ok && final(markers)@ == old(markers)@ + found,
            None => !ok,
        },
{
    if range.start > text.as_bytes().len() {
        return false;
    }
    if let Some((leading, trailing)) = scan::code_span_delimiters(text, range.start..range.end) {
        push_marker(markers, leading, Kind::Hidden);
        push_marker(markers, trailing, Kind::Hidden);
    }
    assert(markers@ =~= old(markers)@ + code_markers(text.spec_bytes(), *range)->0);
    true
}

proof fn lemma_marker_flow_none(b: Seq<u8>, events: Seq<RangedModel>, i: int, n: int)
    requires
        0 <= i <= n,
        marker_flow(b, events, i) is None,
    ensures
        marker_flow(b, events, n) is None,
    decreases n - i,
{
    if i < n {
        lemma_marker_flow_none(b, events, i, n - 1);
    }
}

/// Adds the markers of a block's events: see [`block_markers`]. Fails if an event has no place in
/// the text.
pub fn live_preview_inline_markers(
    text: &str,
    events: &[RangedEvent],
    markers: &mut Vec<Marker>,
) -> (ok: bool)
    ensures
        match block_markers(text.spec_bytes(), event::models(events@)) {
            Some(found) => ok && final(markers)@ == old(markers)@ + found,
            None => !ok,
        },
{
    let ghost b = text.spec_bytes();
    let ghost models = event::models(events@);
    let ghost before = markers@;
    let ghost mut found = Seq::<Marker>::empty();
    let mut open: Vec<usize> = Vec::new();
    assert(before + found =~= before);
    for i in 0..events.len()
        invariant
            b == text.spec_bytes(),
            models == event::models(events@),
            forall|k: int|
                0 <= k < open@.len() ==> (#[trigger] open@[k]) < i
                    && events@[open@[k] as int].1 is Start,
            marker_flow(b, models, i as int) == Some(MarkerFlow { markers: found, open: open@ }),
            markers@ == before + found,
    {
        let ghost here = markers@;
        proof {
            assert(models[i as int] == event::ranged_model(events@[i as int]));
        }
        let ok = match &events[i].1 {
            MarkdownEvent::Start(_) => {
                open.push(i);
                true
            },
            MarkdownEvent::End(_) => {
                let ghost was_open = open@;
                match open.pop() {
                    Some(start) => {
                        let inner = slice_subrange(events, start + 1, i);
                        proof {
                            assert(was_open.last() == start);
                            assert(open@ =~= was_open.drop_last());
                            assert(event::models(inner@) =~= models.subrange(start + 1, i as int));
                            assert(models[start as int] == event::ranged_model(
                                events@[start as int],
                            ));
                        }
                        if let MarkdownEvent::Start(tag) = &events[start].1 {
                            push_tag_markers(text, tag, &events[start].0, inner, markers)
                        } else {
                            true
                        }
                    },
                    None => true,
                }
            },
            MarkdownEvent::Code | MarkdownEvent::SubstitutedCode(_) => push_code_markers(
                text,
                &events[i].0,
                markers,
            ),
            _ => true,
        };
        if !ok {
            proof {
                lemma_marker_flow_none(b, models, i + 1, models.len() as int);
            }
            return false;
        }
        proof {
            let after = marker_flow(b, models, i + 1)->0;
            assert(markers@ =~= before + after.markers);
            found = after.markers;
        }
    }
    true
}

/// The markers lie between two offsets.
pub open spec fn lie_between(markers: Seq<Marker>, lo: int, hi: int) -> bool {
    forall|k: int|
        0 <= k < markers.len() ==> lo <= (#[trigger] markers[k]).range.start
            && markers[k].range.end <= hi
}

/// The event lies between two offsets, and with it the delimiters of a code span, which are around
/// its range, or the bullet of a list item.
pub open spec fn reaches_between(b: Seq<u8>, event: RangedModel, lo: int, hi: int) -> bool {
    &&& lo <= event.0.start <= event.0.end <= hi
    &&& match event.1 {
        EventModel::Code | EventModel::SubstitutedCode(_) => code_markers(b, event.0) matches Some(
            found,
        ) ==> lie_between(found, lo, hi),
        EventModel::Start(TagModel::Item) => bullet(b, event.0.start) matches Some(found)
            ==> lie_between(found, lo, hi),
        _ => true,
    }
}

proof fn lemma_lie_between_concat(x: Seq<Marker>, y: Seq<Marker>, lo: int, hi: int)
    requires
        lie_between(x, lo, hi),
        lie_between(y, lo, hi),
    ensures
        lie_between(x + y, lo, hi),
{
}

proof fn lemma_around(
    b: Seq<u8>,
    tag_range: Range<usize>,
    inner: Seq<RangedModel>,
    lo: int,
    hi: int,
)
    requires
        valid_utf8(b),
        b.len() <= usize::MAX,
        lo <= tag_range.start <= tag_range.end <= hi,
        forall|i: int| 0 <= i < inner.len() ==> reaches_between(b, #[trigger] inner[i], lo, hi),
    ensures
        around(b, tag_range, inner) matches Some(found) ==> lie_between(found, lo, hi),
{
    if inner.len() > 0 {
        blocks::lemma_extent(inner, lo, hi);
        let end = blocks::max_end(inner) as int;
        if span::is_slice(b, end, tag_range.end as int) {
            span::lemma_skip_white_back(b, end, tag_range.end as int);
        }
    }
}

proof fn lemma_first_task(b: Seq<u8>, events: Seq<RangedModel>, lo: int, hi: int)
    requires
        forall|i: int| 0 <= i < events.len() ==> reaches_between(b, #[trigger] events[i], lo, hi),
    ensures
        first_task(events) matches Some((task, _)) ==> lo <= task.start <= task.end <= hi,
    decreases events.len(),
{
    if events.len() > 0 {
        assert(reaches_between(b, events[0], lo, hi));
        let rest = events.drop_first();
        assert forall|i: int| 0 <= i < rest.len() implies reaches_between(
            b,
            #[trigger] rest[i],
            lo,
            hi,
        ) by {
            assert(rest[i] == events[i + 1]);
        }
        lemma_first_task(b, rest, lo, hi);
    }
}

proof fn lemma_quote_run(b: Seq<u8>, i: int, end: int, lo: int, hi: int)
    requires
        0 <= i,
        lo <= i,
        end <= hi,
        end <= usize::MAX,
    ensures
        lie_between(quote_run(b, i, end), lo, hi),
    decreases end - i,
{
    if i < end && b[i] == 0x3e {
        let next = if i + 1 < end && b[i + 1] == 0x20 {
            i + 2
        } else {
            i + 1
        };
        lemma_quote_run(b, next, end, lo, hi);
    }
}

proof fn lemma_quote_markers(b: Seq<u8>, p: int, end: int, lo: int, hi: int)
    requires
        0 <= p,
        lo <= p,
        end <= hi,
        end <= usize::MAX,
    ensures
        lie_between(quote_markers(b, p, end), lo, hi),
    decreases end - p,
{
    if p < end {
        span::lemma_find_byte(b, 10, p, end);
        let next = scan::next_line(b, p, end);
        let limit = if p + 3 < next {
            p + 3
        } else {
            next
        };
        scan::lemma_runs_within(b, 0x20, p, limit);
        lemma_quote_run(b, up_to_three_spaces(b, p, next), next, lo, hi);
        lemma_quote_markers(b, next, end, lo, hi);
    }
}

proof fn lemma_tag_markers(
    b: Seq<u8>,
    tag: TagModel,
    tag_range: Range<usize>,
    inner: Seq<RangedModel>,
    lo: int,
    hi: int,
)
    requires
        valid_utf8(b),
        b.len() <= usize::MAX,
        reaches_between(b, (tag_range, EventModel::Start(tag)), lo, hi),
        forall|i: int| 0 <= i < inner.len() ==> reaches_between(b, #[trigger] inner[i], lo, hi),
    ensures
        tag_markers(b, tag, tag_range, inner) matches Some(found) ==> lie_between(found, lo, hi),
{
    match tag {
        TagModel::Emphasis
        | TagModel::Strong
        | TagModel::Strikethrough
        | TagModel::Link { .. }
        | TagModel::Heading { .. } => {
            lemma_around(b, tag_range, inner, lo, hi);
        },
        TagModel::Item => {
            lemma_first_task(b, inner, lo, hi);
        },
        TagModel::BlockQuote(_) => {
            lemma_quote_markers(b, tag_range.start as int, tag_range.end as int, lo, hi);
        },
        _ => {},
    }
}

proof fn lemma_marker_flow(b: Seq<u8>, events: Seq<RangedModel>, n: int, lo: int, hi: int)
    requires
        valid_utf8(b),
        b.len() <= usize::MAX,
        0 <= n <= events.len() <= usize::MAX,
        marker_flow(b, events, n) is Some,
        forall|i: int| 0 <= i < events.len() ==> reaches_between(b, #[trigger] events[i], lo, hi),
    ensures
        ({
            let f = marker_flow(b, events, n)->0;
            &&& lie_between(f.markers, lo, hi)
            &&& forall|k: int| 0 <= k < f.open.len() ==> (#[trigger] f.open[k]) < n
        }),
    decreases n,
{
    if n > 0 {
        let i = n - 1;
        lemma_marker_flow(b, events, i, lo, hi);
        let f = marker_flow(b, events, i)->0;
        assert(reaches_between(b, events[i], lo, hi));
        match events[i].1 {
            EventModel::End(_) => {
                if f.open.len() > 0 {
                    let start = f.open[f.open.len() - 1] as int;
                    let inner = events.subrange(start + 1, i);
                    assert(reaches_between(b, events[start], lo, hi));
                    assert forall|j: int| 0 <= j < inner.len() implies reaches_between(
                        b,
                        #[trigger] inner[j],
                        lo,
                        hi,
                    ) by {
                        assert(inner[j] == events[start + 1 + j]);
                    }
                    if let EventModel::Start(tag) = events[start].1 {
                        lemma_tag_markers(b, tag, events[start].0, inner, lo, hi);
                        let found = tag_markers(b, tag, events[start].0, inner)->0;
                        lemma_lie_between_concat(f.markers, found, lo, hi);
                    }
                }
            },
            EventModel::Code | EventModel::SubstitutedCode(_) => {
                let found = code_markers(b, events[i].0)->0;
                lemma_lie_between_concat(f.markers, found, lo, hi);
            },
            _ => {},
        }
    }
}

/// The markers of a block lie where its events lie, with the delimiters of its code spans and the
/// bullets of its list items.
pub proof fn law_markers_lie_where_events_do(
    b: Seq<u8>,
    events: Seq<RangedModel>,
    lo: int,
    hi: int,
)
    requires
        valid_utf8(b),
        b.len() <= usize::MAX,
        events.len() <= usize::MAX,
        block_markers(b, events) is Some,
        forall|i: int| 0 <= i < events.len() ==> reaches_between(b, #[trigger] events[i], lo, hi),
    ensures
        lie_between(block_markers(b, events)->0, lo, hi),
{
    lemma_marker_flow(b, events, events.len() as int, lo, hi);
}

/// An event that lies in the text reaches no further than the text.
pub proof fn lemma_reaches_in_text(b: Seq<u8>, event: RangedModel)
    requires
        b.len() <= usize::MAX,
        event.0.start <= event.0.end <= b.len(),
    ensures
        reaches_between(b, event, 0, b.len() as int),
{
    let start = event.0.start as int;
    let end = event.0.end as int;
    let leading_end = if start > 0 && b[start - 1] == 0x20 {
        start - 1
    } else {
        start
    };
    let trailing_start = if end < b.len() && b[end] == 0x20 {
        end + 1
    } else {
        end
    };
    scan::lemma_runs_within(b, 0x60, 0, leading_end);
    scan::lemma_runs_within(b, 0x60, trailing_start, b.len() as int);
}

} // verus!
