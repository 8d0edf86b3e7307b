//! Metadata blocks and HTML blocks, which are read as a whole.
use super::conversion;
use super::text;
use crate::cmark::{RangedSourceModel, SourceModel, SourceTagModel};
use crate::convert;
use crate::convert::{ConvertOptions, Flow};
use crate::event::{EventModel, MarkdownTagEnd, TagModel};
use crate::nesting;
use crate::roots;
use crate::scan;
use crate::scan::MetadataRow;
use crate::span;
use std::ops::Range;
use vstd::prelude::*;
use vstd::utf8::*;

verus! {

/// The parser's event starts a metadata block.
pub open spec fn starts_metadata(event: SourceModel) -> bool {
    event matches SourceModel::Start(SourceTagModel::Plain(tag)) && tag is MetadataBlock
}

/// A metadata block of the parser with text in it stands from `s` to `e`.
pub open spec fn is_metadata_block(events: Seq<RangedSourceModel>, s: int, e: int) -> bool {
    &&& 0 <= s && s + 1 < e < events.len()
    &&& starts_metadata(events[s].0)
    &&& events[e].0 matches SourceModel::End(tag) && tag is MetadataBlock
    &&& forall|k: int| s < k < e ==> (#[trigger] events[k]).0 is Text
}

/// The range is the least one around the events from behind `s` to before `e`.
pub open spec fn is_around(events: Seq<RangedSourceModel>, s: int, e: int, range: Range<usize>) -> bool {
    &&& exists|k: int| s < k < e && (#[trigger] events[k]).1.start == range.start
    &&& exists|k: int| s < k < e && (#[trigger] events[k]).1.end == range.end
    &&& forall|k: int|
        s < k < e ==> range.start <= (#[trigger] events[k]).1.start && events[k].1.end <= range.end
}

proof fn lemma_is_around_unique(
    events: Seq<RangedSourceModel>,
    s: int,
    e: int,
    x: Range<usize>,
    y: Range<usize>,
)
    requires
        is_around(events, s, e, x),
        is_around(events, s, e, y),
    ensures
        x == y,
{
    let a = choose|k: int| s < k < e && (#[trigger] events[k]).1.start == x.start;
    let c = choose|k: int| s < k < e && (#[trigger] events[k]).1.start == y.start;
    let d = choose|k: int| s < k < e && (#[trigger] events[k]).1.end == x.end;
    let f = choose|k: int| s < k < e && (#[trigger] events[k]).1.end == y.end;
    assert(events[a].1.start == x.start && events[c].1.start == y.start);
    assert(events[d].1.end == x.end && events[f].1.end == y.end);
}

proof fn lemma_is_around_more(
    events: Seq<RangedSourceModel>,
    s: int,
    k: int,
    range: Option<Range<usize>>,
)
    requires
        s < k,
        match range {
            Some(range) => is_around(events, s, k, range),
            None => k == s + 1,
        },
    ensures
        is_around(events, s, k + 1, convert::extended(range, events[k].1)),
{
    let more = convert::extended(range, events[k].1);
    match range {
        Some(range) => {
            let a = choose|j: int| s < j < k && (#[trigger] events[j]).1.start == range.start;
            let d = choose|j: int| s < j < k && (#[trigger] events[j]).1.end == range.end;
            assert(events[a].1.start == range.start && events[d].1.end == range.end);
            assert(more.start == events[a].1.start || more.start == events[k].1.start);
            assert(more.end == events[d].1.end || more.end == events[k].1.end);
        },
        None => {
            assert(events[k].1.start == more.start && events[k].1.end == more.end);
        },
    }
}

/// Inside a metadata block, a conversion knows where it starts and what its text extends over.
proof fn lemma_inside_metadata(
    b: Seq<u8>,
    events: Seq<RangedSourceModel>,
    options: ConvertOptions,
    html: Seq<usize>,
    s: int,
    e: int,
    k: int,
) -> (g: Flow)
    requires
        conversion::are_parser_events(events),
        conversion::document_of(b, events, options, html) is Some,
        options.parse_metadata_blocks,
        is_metadata_block(events, s, e),
        s < k <= e,
    ensures
        conversion::knows_its_place(events, options, k, g),
        convert::converted(b, events, options, html, 0, convert::start_of_flow())
            == convert::converted(b, events, options, html, k, g),
        g.within_metadata,
        !g.within_html,
        g.metadata_start == Some(events[s].1.start),
        match g.metadata_range {
            Some(range) => is_around(events, s, k, range),
            None => k == s + 1,
        },
    decreases k,
{
    let start = convert::start_of_flow();
    if k == s + 1 {
        conversion::lemma_start_knows_its_place(events, options);
        let f = conversion::lemma_flow_at(b, events, options, html, 0, start, s);
        let source = nesting::source_nesting(events, s)->0;
        assert(source.len() > 0 ==> nesting::fits_into(source.last(), events[s].0));
        conversion::lemma_step_knows_its_place(b, events, options, html, s, f);
        (convert::step(b, events, options, html, s, f)->0).0
    } else {
        let f = lemma_inside_metadata(b, events, options, html, s, e, k - 1);
        assert(events[k - 1].0 is Text);
        conversion::lemma_step_knows_its_place(b, events, options, html, k - 1, f);
        lemma_is_around_more(events, s, k - 1, f.metadata_range);
        (convert::step(b, events, options, html, k - 1, f)->0).0
    }
}

proof fn lemma_metadata_stays(
    b: Seq<u8>,
    events: Seq<RangedSourceModel>,
    options: ConvertOptions,
    html: Seq<usize>,
    i: int,
    f: Flow,
    key: usize,
)
    requires
        0 <= i <= events.len(),
        convert::converted(b, events, options, html, i, f) is Some,
        f.metadata_blocks.contains_key(key),
        f.metadata_start != Some(key),
        forall|k: int|
            i <= k < events.len() && starts_metadata((#[trigger] events[k]).0) ==> events[k].1.start
                != key,
    ensures
        ({
            let g = convert::converted(b, events, options, html, i, f)->0;
            g.metadata_blocks.contains_key(key) && g.metadata_blocks[key] == f.metadata_blocks[key]
        }),
    decreases events.len() - i,
{
    if i < events.len() {
        convert::lemma_text_run_end(events, i + 1, options.parse_html);
        let (g, next) = convert::step(b, events, options, html, i, f)->0;
        assert(g.metadata_start != Some(key));
        lemma_metadata_stays(b, events, options, html, next, g, key);
    }
}

/// A metadata block that is of interest is found where it starts. Its content is what its text
/// extends over, and its rows are those of its content, if there are any.
pub proof fn law_metadata_blocks_are_read(
    b: Seq<u8>,
    events: Seq<RangedSourceModel>,
    options: ConvertOptions,
    html: Seq<usize>,
    s: int,
    e: int,
    content: Range<usize>,
)
    requires
        conversion::are_parser_events(events),
        conversion::document_of(b, events, options, html) is Some,
        options.parse_metadata_blocks,
        is_metadata_block(events, s, e),
        is_around(events, s, e, content),
        forall|k: int|
            e < k < events.len() && starts_metadata((#[trigger] events[k]).0) ==> events[k].1.start
                != events[s].1.start,
    ensures
        ({
            let blocks = (conversion::document_of(b, events, options, html)->0).metadata_blocks;
            let start = events[s].1.start;
            let rows = scan::metadata_rows(b, content.start as int, content.end as int);
            &&& blocks.contains_key(start)
            &&& blocks[start].content_range == content
            &&& rows is Some && (rows->0).len() > 0 ==> blocks[start].rows == rows
            &&& rows is None || (rows->0).len() == 0 ==> blocks[start].rows is None
        }),
{
    let f = lemma_inside_metadata(b, events, options, html, s, e, e);
    lemma_is_around_unique(events, s, e, f.metadata_range->0, content);
    let (g, next) = convert::step(b, events, options, html, e, f)->0;
    let start = events[s].1.start;
    assert(g.metadata_blocks.contains_key(start));
    lemma_metadata_stays(b, events, options, html, next, g, start);
}

/// What a metadata block is found by is where one of the parser's starts.
spec fn are_found_by_starts(events: Seq<RangedSourceModel>, i: int, f: Flow) -> bool {
    &&& forall|key: usize|
        f.metadata_blocks.contains_key(key) ==> #[trigger] starts_at(events, i, key)
    &&& f.metadata_start matches Some(key) ==> starts_at(events, i, key)
}

/// One of the first `i` events starts a metadata block at the offset.
pub open spec fn starts_at(events: Seq<RangedSourceModel>, i: int, key: usize) -> bool {
    exists|k: int| 0 <= k < i && starts_metadata((#[trigger] events[k]).0) && events[k].1.start == key
}

proof fn lemma_starts_at_more(events: Seq<RangedSourceModel>, i: int, j: int, key: usize)
    requires
        i <= j,
        starts_at(events, i, key),
    ensures
        starts_at(events, j, key),
{
    let k = choose|k: int|
        0 <= k < i && starts_metadata((#[trigger] events[k]).0) && events[k].1.start == key;
    assert(starts_metadata(events[k].0));
}

proof fn lemma_metadata_has_starts(
    b: Seq<u8>,
    events: Seq<RangedSourceModel>,
    options: ConvertOptions,
    html: Seq<usize>,
    i: int,
    f: Flow,
)
    requires
        0 <= i <= events.len(),
        are_found_by_starts(events, i, f),
        convert::converted(b, events, options, html, i, f) is Some,
    ensures
        are_found_by_starts(
            events,
            events.len() as int,
            convert::converted(b, events, options, html, i, f)->0,
        ),
    decreases events.len() - i,
{
    if i < events.len() {
        convert::lemma_text_run_end(events, i + 1, options.parse_html);
        let (g, next) = convert::step(b, events, options, html, i, f)->0;
        assert forall|key: usize| g.metadata_blocks.contains_key(key) implies #[trigger] starts_at(
            events,
            next,
            key,
        ) by {
            if f.metadata_blocks.contains_key(key) {
                assert(starts_at(events, i, key));
            } else {
                assert(f.metadata_start == Some(key));
            }
            lemma_starts_at_more(events, i, next, key);
        }
        if let Some(key) = g.metadata_start {
            if f.metadata_start == Some(key) {
                lemma_starts_at_more(events, i, next, key);
            } else {
                assert(starts_metadata(events[i].0) && events[i].1.start == key);
            }
        }
        lemma_metadata_has_starts(b, events, options, html, next, g);
    }
}

/// Nothing but a metadata block of the parser is found as one.
pub proof fn law_metadata_blocks_stand_where_they_start(
    b: Seq<u8>,
    events: Seq<RangedSourceModel>,
    options: ConvertOptions,
    html: Seq<usize>,
    key: usize,
)
    requires
        conversion::document_of(b, events, options, html) is Some,
        (conversion::document_of(b, events, options, html)->0).metadata_blocks.contains_key(key),
    ensures
        starts_at(events, events.len() as int, key),
{
    lemma_metadata_has_starts(b, events, options, html, 0, convert::start_of_flow());
}

/// An HTML block of the parser stands from `s` to `e`.
pub open spec fn is_html_block(events: Seq<RangedSourceModel>, s: int, e: int) -> bool {
    &&& 0 <= s < e < events.len()
    &&& events[s].0 == SourceModel::Start(SourceTagModel::Plain(TagModel::HtmlBlock))
    &&& events[e].0 == SourceModel::End(MarkdownTagEnd::HtmlBlock)
    &&& forall|k: int|
        s < k < e ==> (#[trigger] events[k]).0 is Text || events[k].0 is Html
}

/// Inside an HTML block that is taken over, nothing is put out.
proof fn lemma_inside_html(
    b: Seq<u8>,
    events: Seq<RangedSourceModel>,
    options: ConvertOptions,
    html: Seq<usize>,
    s: int,
    e: int,
    k: int,
) -> (r: (Flow, Flow))
    requires
        conversion::are_parser_events(events),
        conversion::document_of(b, events, options, html) is Some,
        options.parse_html,
        is_html_block(events, s, e),
        html.contains(events[s].1.start),
        s < k <= e,
    ensures
        convert::converted(b, events, options, html, 0, convert::start_of_flow())
            == convert::converted(b, events, options, html, k, r.1),
        r.1.within_html,
        r.1.html_blocks.contains(events[s].1.start),
        r.1.out == r.0.out.push((events[s].1, EventModel::Start(TagModel::HtmlBlock))),
    decreases k,
{
    let start = convert::start_of_flow();
    if k == s + 1 {
        conversion::lemma_start_knows_its_place(events, options);
        let f = conversion::lemma_flow_at(b, events, options, html, 0, start, s);
        let source = nesting::source_nesting(events, s)->0;
        assert(source.len() > 0 ==> nesting::fits_into(source.last(), events[s].0));
        let g = (convert::step(b, events, options, html, s, f)->0).0;
        super::editor::lemma_added(f.html_blocks, events[s].1.start, events[s].1.start);
        (f, g)
    } else {
        let (f, g) = lemma_inside_html(b, events, options, html, s, e, k - 1);
        assert(events[k - 1].0 is Text || events[k - 1].0 is Html);
        assert(convert::step(b, events, options, html, k - 1, g) == Some((g, k)));
        (f, g)
    }
}

proof fn lemma_html_blocks_stay(
    b: Seq<u8>,
    events: Seq<RangedSourceModel>,
    options: ConvertOptions,
    html: Seq<usize>,
    i: int,
    f: Flow,
    key: usize,
)
    requires
        0 <= i <= events.len(),
        convert::converted(b, events, options, html, i, f) is Some,
        f.html_blocks.contains(key),
    ensures
        (convert::converted(b, events, options, html, i, f)->0).html_blocks.contains(key),
    decreases events.len() - i,
{
    if i < events.len() {
        convert::lemma_text_run_end(events, i + 1, options.parse_html);
        let (g, next) = convert::step(b, events, options, html, i, f)->0;
        super::editor::lemma_added(f.html_blocks, events[i].1.start, key);
        lemma_html_blocks_stay(b, events, options, html, next, g, key);
    }
}

/// An HTML block that can be shown as a whole is listed by its start, and nothing of what is inside
/// it is in the document: its end comes directly behind its start.
pub proof fn law_html_blocks_are_taken_over_whole(
    b: Seq<u8>,
    events: Seq<RangedSourceModel>,
    options: ConvertOptions,
    html: Seq<usize>,
    s: int,
    e: int,
)
    requires
        conversion::are_parser_events(events),
        conversion::document_of(b, events, options, html) is Some,
        options.parse_html,
        is_html_block(events, s, e),
        html.contains(events[s].1.start),
    ensures
        ({
            let d = conversion::document_of(b, events, options, html)->0;
            let out = roots::without_markers(d.events);
            &&& d.html_blocks.contains(events[s].1.start)
            &&& exists|k: int|
                0 <= k && k + 1 < out.len() && #[trigger] out[k] == (
                    events[s].1,
                    EventModel::Start(TagModel::HtmlBlock),
                ) && out[k + 1] == (events[e].1, EventModel::End(MarkdownTagEnd::HtmlBlock))
        }),
{
    let (f, g) = lemma_inside_html(b, events, options, html, s, e, e);
    super::events::lemma_one_step(b, events, options, html, e, g);
    let (h, next) = convert::step(b, events, options, html, e, g)->0;
    super::events::lemma_out_is_in_document(
        b,
        events,
        options,
        html,
        next,
        h,
        (0..0, EventModel::Text),
    );
    lemma_html_blocks_stay(b, events, options, html, next, h, events[s].1.start);
    let out = roots::without_markers(
        (conversion::document_of(b, events, options, html)->0).events,
    );
    let k = f.out.len() as int;
    assert(h.out[k] == (events[s].1, EventModel::Start(TagModel::HtmlBlock)));
    assert(h.out[k + 1] == (events[e].1, EventModel::End(MarkdownTagEnd::HtmlBlock)));
    assert(out[k] == h.out[k] && out[k + 1] == h.out[k + 1]);
}

proof fn lemma_html_blocks_come_from(
    b: Seq<u8>,
    events: Seq<RangedSourceModel>,
    options: ConvertOptions,
    html: Seq<usize>,
    i: int,
    f: Flow,
    key: usize,
)
    requires
        0 <= i <= events.len(),
        convert::converted(b, events, options, html, i, f) is Some,
        !f.html_blocks.contains(key),
        (convert::converted(b, events, options, html, i, f)->0).html_blocks.contains(key),
    ensures
        options.parse_html,
        html.contains(key),
        exists|k: int|
            0 <= k < events.len() && (#[trigger] events[k]).0 == SourceModel::Start(
                SourceTagModel::Plain(TagModel::HtmlBlock),
            ) && events[k].1.start == key,
    decreases events.len() - i,
{
    if i < events.len() {
        convert::lemma_text_run_end(events, i + 1, options.parse_html);
        let (g, next) = convert::step(b, events, options, html, i, f)->0;
        super::editor::lemma_added(f.html_blocks, events[i].1.start, key);
        if !g.html_blocks.contains(key) {
            lemma_html_blocks_come_from(b, events, options, html, next, g, key);
        } else {
            assert(events[i].0 == SourceModel::Start(SourceTagModel::Plain(TagModel::HtmlBlock)));
        }
    }
}

/// Nothing but an HTML block that can be shown as a whole is listed as one.
pub proof fn law_listed_html_blocks_can_be_shown(
    b: Seq<u8>,
    events: Seq<RangedSourceModel>,
    options: ConvertOptions,
    html: Seq<usize>,
    key: usize,
)
    requires
        conversion::document_of(b, events, options, html) is Some,
        (conversion::document_of(b, events, options, html)->0).html_blocks.contains(key),
    ensures
        options.parse_html,
        html.contains(key),
        exists|k: int|
            0 <= k < events.len() && (#[trigger] events[k]).0 == SourceModel::Start(
                SourceTagModel::Plain(TagModel::HtmlBlock),
            ) && events[k].1.start == key,
{
    lemma_html_blocks_come_from(b, events, options, html, 0, convert::start_of_flow(), key);
}

proof fn lemma_ends_before_returns(b: Seq<u8>, i: int, v: int, e: int)
    requires
        valid_utf8(b),
        span::is_slice(b, i, v),
        i < v <= e <= b.len(),
        !text::is_blank(span::chars_of(b, i, v).last()),
    ensures
        v <= span::run_start(b, 13, i, e),
{
    super::markers::lemma_run_start_holds(b, 13, i, e);
    if span::run_start(b, 13, i, e) < v {
        assert(b[v - 1] == 13);
        span::lemma_ascii_boundary(b, v - 1);
        text::lemma_ascii_scalar(b, v - 1);
        text::lemma_chars_step(b, v - 1, v);
        text::lemma_chars_empty(b, v, v);
        text::lemma_chars_concat(b, i, v - 1, v);
        assert(span::chars_of(b, i, v).last() == span::scalar_at(b, v - 1) as char);
        char_u32_cast(span::scalar_at(b, v - 1) as char, 13);
        assert(span::chars_of(b, i, v).last() == '\r');
    }
}

proof fn lemma_line_is_read(b: Seq<u8>, p: int, end: int, e: int, colon: int, row: MetadataRow)
    requires
        valid_utf8(b),
        b.len() <= usize::MAX,
        span::is_slice(b, p, end),
        p < end,
        text::is_line(b, p, end, p, e),
        text::reads_as_row(b, p, e, colon, row),
    ensures
        scan::metadata_row(b, p, end) is Some,
        scan::line_end(b, p, end) == e,
{
    if e < end {
        super::code::lemma_find_byte_is(b, 10, p, end, e);
    } else {
        super::code::lemma_find_byte_none(b, 10, p, end);
    }
    let vs = row.value.start as int;
    let ve = row.value.end as int;
    let ke = row.key.end as int;
    span::lemma_ascii_boundary(b, colon);
    text::lemma_chars_concat(b, p, ve, ve);
    text::lemma_chars_concat(b, p, vs, ve);
    text::lemma_chars_empty(b, vs, ve);
    assert(span::chars_of(b, p, ve).last() == span::chars_of(b, vs, ve).last()) by {
        let x = span::chars_of(b, p, vs);
        let y = span::chars_of(b, vs, ve);
        assert((x + y).last() == y.last());
    }
    lemma_ends_before_returns(b, p, ve, e);
    let content_end = span::run_start(b, 13, p, e);
    if e < end {
        span::lemma_ascii_boundary(b, e);
    }
    span::lemma_run_start_boundary(b, 13, p, e);
    super::code::lemma_find_byte_is(b, 58, p, content_end, colon);
    text::lemma_chars_step(b, p, ke);
    text::law_white_space_is_the_unicode_property(span::scalar_at(b, p) as char);
    text::law_trimming_takes_white_space_off(b, p, colon);
    text::lemma_chars_concat(b, p, ke, colon);
    text::lemma_chars_empty(b, p, ke);
    let key = span::chars_of(b, p, colon);
    assert(key[0] == span::chars_of(b, p, ke)[0]);
    text::law_trimming_takes_white_space_off(b, colon + 1, content_end);
    text::lemma_chars_concat(b, colon + 1, vs, content_end);
    text::lemma_chars_concat(b, vs, ve, content_end);
    let value = span::chars_of(b, colon + 1, content_end);
    let k = span::chars_of(b, colon + 1, vs).len() as int;
    assert(value[k] == span::chars_of(b, vs, content_end)[0]);
    assert(span::chars_of(b, vs, content_end)[0] == span::chars_of(b, vs, ve)[0]);
}

/// Metadata in which each line reads as a key and a value is read as rows.
pub proof fn law_plain_metadata_is_read_as_rows(b: Seq<u8>, p: int, end: int)
    requires
        valid_utf8(b),
        b.len() <= usize::MAX,
        span::is_slice(b, p, end),
        forall|s: int, e: int|
            s < end && #[trigger] text::is_line(b, p, end, s, e) ==> exists|colon: int, row: MetadataRow|
                #[trigger] text::reads_as_row(b, s, e, colon, row),
    ensures
        scan::metadata_rows(b, p, end) is Some,
    decreases end - p,
{
    if p < end {
        let e = span::find_byte(b, 10, p, end);
        span::lemma_find_byte(b, 10, p, end);
        assert(text::is_line(b, p, end, p, e));
        let (colon, row) = choose|colon: int, row: MetadataRow|
            #[trigger] text::reads_as_row(b, p, e, colon, row);
        lemma_line_is_read(b, p, end, e, colon, row);
        let next = scan::next_line(b, p, end);
        if e < end {
            span::lemma_ascii_boundary(b, e);
        }
        assert forall|s: int, t: int|
            s < end && #[trigger] text::is_line(b, next, end, s, t) implies exists|
            colon: int,
            row: MetadataRow,
        | #[trigger]
            text::reads_as_row(b, s, t, colon, row) by {
            assert(s == next ==> e < end && b[s - 1] == 10);
            assert(text::is_line(b, p, end, s, t));
        }
        law_plain_metadata_is_read_as_rows(b, next, end);
    }
}

} // verus!
