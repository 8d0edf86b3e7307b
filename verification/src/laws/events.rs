//! What becomes of each event of the parser in a document.
use super::conversion;
use super::links;
use crate::autolink;
use crate::cmark::{RangedSourceModel, SourceModel, SourceTagModel};
use crate::convert;
use crate::convert::{ConvertOptions, Flow, Verbatim};
use crate::event::{
    CodeBlockKindModel, CodeBlockMetadata, EventModel, MarkdownTagEnd, RangedModel, TagModel,
};
use crate::nesting;
use crate::roots;
use crate::scan;
use vstd::prelude::*;
use vstd::utf8::*;

verus! {

/// What a conversion has put out is in the document.
pub proof fn lemma_out_is_in_document(
    b: Seq<u8>,
    events: Seq<RangedSourceModel>,
    options: ConvertOptions,
    html: Seq<usize>,
    i: int,
    h: Flow,
    e: RangedModel,
)
    requires
        conversion::document_of(b, events, options, html) is Some,
        0 <= i <= events.len(),
        convert::converted(b, events, options, html, 0, convert::start_of_flow())
            == convert::converted(b, events, options, html, i, h),
    ensures
        h.out.contains(e) ==> (conversion::document_of(
            b,
            events,
            options,
            html,
        )->0).events.contains(e),
        h.out.is_prefix_of(
            roots::without_markers(
                (conversion::document_of(b, events, options, html)->0).events,
            ),
        ),
{
    let start = convert::start_of_flow();
    conversion::lemma_conversion_goes_on(b, events, options, html, i, h);
    let f = convert::converted(b, events, options, html, 0, start)->0;
    if h.out.contains(e) {
        let k = choose|k: int| 0 <= k < h.out.len() && h.out[k] == e;
        assert(f.out[k] == e);
        roots::lemma_events_are_grouped(f.out, k);
    }
    convert::lemma_conversion_is_unmarked(b, events, options, html, 0, start);
    roots::law_grouping_keeps_events(f.out);
}

/// One step of a conversion.
pub proof fn lemma_one_step(
    b: Seq<u8>,
    events: Seq<RangedSourceModel>,
    options: ConvertOptions,
    html: Seq<usize>,
    i: int,
    g: Flow,
)
    requires
        0 <= i < events.len(),
        convert::converted(b, events, options, html, i, g) is Some,
    ensures
        convert::step(b, events, options, html, i, g) is Some,
        convert::converted(b, events, options, html, i, g) == convert::converted(
            b,
            events,
            options,
            html,
            (convert::step(b, events, options, html, i, g)->0).1,
            (convert::step(b, events, options, html, i, g)->0).0,
        ),
        i <= (convert::step(b, events, options, html, i, g)->0).1 <= events.len(),
{
    convert::lemma_text_run_end(events, i + 1, options.parse_html);
}

/// The flow before an event, if no run of text goes on there, and what is known of the document from
/// the step over it.
proof fn lemma_step_is_in_document(
    b: Seq<u8>,
    events: Seq<RangedSourceModel>,
    options: ConvertOptions,
    html: Seq<usize>,
    i: int,
    e: RangedModel,
) -> (g: Flow)
    requires
        conversion::are_parser_events(events),
        conversion::document_of(b, events, options, html) is Some,
        0 <= i < events.len(),
        i == 0 || !convert::continues_text(events[i - 1].0, options.parse_html)
            || !convert::continues_text(events[i].0, options.parse_html),
    ensures
        conversion::knows_its_place(events, options, i, g),
        convert::step(b, events, options, html, i, g) is Some,
        (convert::step(b, events, options, html, i, g)->0).0.out.contains(e) ==> (
        conversion::document_of(b, events, options, html)->0).events.contains(e),
        (convert::step(b, events, options, html, i, g)->0).0.out.is_prefix_of(
            roots::without_markers(
                (conversion::document_of(b, events, options, html)->0).events,
            ),
        ),
{
    let start = convert::start_of_flow();
    conversion::lemma_start_knows_its_place(events, options);
    let g = conversion::lemma_flow_at(b, events, options, html, 0, start, i);
    lemma_one_step(b, events, options, html, i, g);
    let (h, next) = convert::step(b, events, options, html, i, g)->0;
    lemma_out_is_in_document(b, events, options, html, next, h, e);
    g
}

/// What an event of the parser that is neither text nor code nor in a block of its own becomes: the
/// same event, at the same range.
pub open spec fn becomes(event: SourceModel, options: ConvertOptions) -> Option<EventModel> {
    match event {
        SourceModel::Start(SourceTagModel::Plain(tag)) => if tag is MetadataBlock
            && !options.parse_metadata_blocks {
            None
        } else {
            Some(EventModel::Start(tag))
        },
        SourceModel::End(tag) => if tag is MetadataBlock && !options.parse_metadata_blocks {
            None
        } else {
            Some(EventModel::End(tag))
        },
        SourceModel::FootnoteReference(label) => Some(EventModel::FootnoteReference(label)),
        SourceModel::SoftBreak => Some(EventModel::SoftBreak),
        SourceModel::HardBreak => Some(EventModel::HardBreak),
        SourceModel::Rule => Some(EventModel::Rule),
        SourceModel::TaskListMarker(checked) => Some(EventModel::TaskListMarker(checked)),
        _ => None,
    }
}

/// The starts and ends of elements, links among them, breaks, rules, boxes and footnote references
/// of the parser are in the document, each with its range.
pub proof fn law_events_are_kept(
    b: Seq<u8>,
    events: Seq<RangedSourceModel>,
    options: ConvertOptions,
    html: Seq<usize>,
    i: int,
    event: EventModel,
)
    requires
        conversion::are_parser_events(events),
        conversion::document_of(b, events, options, html) is Some,
        0 <= i < events.len(),
        becomes(events[i].0, options) == Some(event),
    ensures
        (conversion::document_of(b, events, options, html)->0).events.contains(
            (events[i].1, event),
        ),
{
    let e = (events[i].1, event);
    let g = lemma_step_is_in_document(b, events, options, html, i, e);
    nesting::lemma_source_nesting(events, i + 1, events.len() as int);
    let source = nesting::source_nesting(events, i)->0;
    assert(source.len() > 0 ==> nesting::fits_into(source.last(), events[i].0));
    let h = (convert::step(b, events, options, html, i, g)->0).0;
    assert(h.out.last() == e);
    assert(h.out[h.out.len() - 1] == e);
}

/// Where HTML is of interest, a `<br>` breaks the line.
pub proof fn law_br_tags_break_lines(
    b: Seq<u8>,
    events: Seq<RangedSourceModel>,
    options: ConvertOptions,
    html: Seq<usize>,
    i: int,
    tag: Seq<char>,
)
    requires
        conversion::are_parser_events(events),
        conversion::document_of(b, events, options, html) is Some,
        0 <= i < events.len(),
        events[i].0 == SourceModel::InlineHtml(tag),
        options.parse_html,
        scan::br_tag(encode_utf8(tag)),
    ensures
        (conversion::document_of(b, events, options, html)->0).events.contains(
            (events[i].1, EventModel::HardBreak),
        ),
{
    let e = (events[i].1, EventModel::HardBreak);
    let g = lemma_step_is_in_document(b, events, options, html, i, e);
    let source = nesting::source_nesting(events, i)->0;
    assert(source.len() > 0 ==> nesting::fits_into(source.last(), events[i].0));
    let h = (convert::step(b, events, options, html, i, g)->0).0;
    assert(h.out[h.out.len() - 1] == e);
}

/// Where HTML is of no interest, inline HTML stays what it is.
pub proof fn law_html_is_kept_where_it_is_of_no_interest(
    b: Seq<u8>,
    events: Seq<RangedSourceModel>,
    options: ConvertOptions,
    html: Seq<usize>,
    i: int,
)
    requires
        conversion::are_parser_events(events),
        conversion::document_of(b, events, options, html) is Some,
        0 <= i < events.len(),
        events[i].0 is InlineHtml,
        !options.parse_html,
    ensures
        (conversion::document_of(b, events, options, html)->0).events.contains(
            (events[i].1, EventModel::InlineHtml),
        ),
{
    let e = (events[i].1, EventModel::InlineHtml);
    let g = lemma_step_is_in_document(b, events, options, html, i, e);
    let source = nesting::source_nesting(events, i)->0;
    assert(source.len() > 0 ==> nesting::fits_into(source.last(), events[i].0));
    let h = (convert::step(b, events, options, html, i, g)->0).0;
    assert(h.out[h.out.len() - 1] == e);
}

/// `\|` stands in `i..j`.
pub open spec fn has_escaped_pipe(b: Seq<u8>, i: int, j: int) -> bool {
    exists|k: int| i <= k && k + 1 < j && #[trigger] b[k] == '\\' as u8 && b[k + 1] == '|' as u8
}

/// Inline code is in the document with the range of what is between its backticks. In a table,
/// where pipes are escaped, it reads as the parser has it if there is an escaped pipe in it;
/// else it reads as in the source.
pub proof fn law_code_spans_are_kept(
    b: Seq<u8>,
    events: Seq<RangedSourceModel>,
    options: ConvertOptions,
    html: Seq<usize>,
    i: int,
    code: Seq<char>,
)
    requires
        b.len() <= usize::MAX,
        conversion::are_parser_events(events),
        conversion::document_of(b, events, options, html) is Some,
        0 <= i < events.len(),
        events[i].0 == SourceModel::Code(code),
    ensures
        ({
            let range = events[i].1;
            let (s, e) = scan::code_content(
                b.subrange(range.start as int, range.end as int),
            );
            let from = range.start + s;
            let to = range.start + e;
            &&& range.end <= b.len()
            &&& (conversion::document_of(b, events, options, html)->0).events.contains(
                (
                    from as usize..to as usize,
                    if conversion::in_source_table(events, i) && has_escaped_pipe(b, from, to) {
                        EventModel::SubstitutedCode(code)
                    } else {
                        EventModel::Code
                    },
                ),
            )
        }),
{
    let range = events[i].1;
    let (s, e) = scan::code_content(b.subrange(range.start as int, range.end as int));
    let from = range.start + s;
    let to = range.start + e;
    let event = (
        from as usize..to as usize,
        if conversion::in_source_table(events, i) && has_escaped_pipe(b, from, to) {
            EventModel::SubstitutedCode(code)
        } else {
            EventModel::Code
        },
    );
    let g = lemma_step_is_in_document(b, events, options, html, i, event);
    let source = nesting::source_nesting(events, i)->0;
    assert(source.len() > 0 ==> nesting::fits_into(source.last(), events[i].0));
    let h = (convert::step(b, events, options, html, i, g)->0).0;
    assert(convert::holds_escaped_pipe(b, from, to) == has_escaped_pipe(b, from, to)) by {
        if convert::holds_escaped_pipe(b, from, to) {
            let k = choose|k: int|
                from <= k && k + 1 < to && #[trigger] b[k] == 0x5c && b[k + 1] == 0x7c;
            assert(b[k] == '\\' as u8);
        }
        if has_escaped_pipe(b, from, to) {
            let k = choose|k: int|
                from <= k && k + 1 < to && #[trigger] b[k] == '\\' as u8 && b[k + 1] == '|' as u8;
            assert(b[k] == 0x5c);
        }
    }
    assert(h.out[h.out.len() - 1] == event);
}

/// A fenced code block is in the document with what its info string calls it and with what is known
/// of its content; an indented one with its whole range as its content.
pub proof fn law_code_blocks_are_kept(
    b: Seq<u8>,
    events: Seq<RangedSourceModel>,
    options: ConvertOptions,
    html: Seq<usize>,
    i: int,
)
    requires
        conversion::are_parser_events(events),
        conversion::document_of(b, events, options, html) is Some,
        0 <= i < events.len(),
    ensures
        events[i].0 matches SourceModel::Start(SourceTagModel::FencedCode(info)) ==> (
        conversion::document_of(b, events, options, html)->0).events.contains(
            (
                events[i].1,
                EventModel::Start(
                    TagModel::CodeBlock {
                        kind: convert::fenced_kind(info),
                        metadata: convert::fenced_metadata(b, events[i].1),
                    },
                ),
            ),
        ),
        events[i].0 == SourceModel::Start(SourceTagModel::IndentedCode) ==> (
        conversion::document_of(b, events, options, html)->0).events.contains(
            (
                events[i].1,
                EventModel::Start(
                    TagModel::CodeBlock {
                        kind: CodeBlockKindModel::Indented,
                        metadata: CodeBlockMetadata {
                            content_range: events[i].1,
                            line_count: 1,
                            is_fenced_closed: false,
                        },
                    },
                ),
            ),
        ),
{
    let source = nesting::source_nesting(events, i)->0;
    match events[i].0 {
        SourceModel::Start(SourceTagModel::FencedCode(info)) => {
            let e = (
                events[i].1,
                EventModel::Start(
                    TagModel::CodeBlock {
                        kind: convert::fenced_kind(info),
                        metadata: convert::fenced_metadata(b, events[i].1),
                    },
                ),
            );
            let g = lemma_step_is_in_document(b, events, options, html, i, e);
            assert(source.len() > 0 ==> nesting::fits_into(source.last(), events[i].0));
            let h = (convert::step(b, events, options, html, i, g)->0).0;
            assert(h.out[h.out.len() - 1] == e);
        },
        SourceModel::Start(SourceTagModel::IndentedCode) => {
            let e = (
                events[i].1,
                EventModel::Start(
                    TagModel::CodeBlock {
                        kind: CodeBlockKindModel::Indented,
                        metadata: CodeBlockMetadata {
                            content_range: events[i].1,
                            line_count: 1,
                            is_fenced_closed: false,
                        },
                    },
                ),
            );
            let g = lemma_step_is_in_document(b, events, options, html, i, e);
            assert(source.len() > 0 ==> nesting::fits_into(source.last(), events[i].0));
            let h = (convert::step(b, events, options, html, i, g)->0).0;
            assert(h.out[h.out.len() - 1] == e);
        },
        _ => {},
    }
}

/// The bytes of the text in `i..j`.
pub open spec fn run_bytes(events: Seq<RangedSourceModel>, i: int, j: int) -> Seq<u8>
    decreases j - i,
{
    if i >= j {
        Seq::empty()
    } else {
        run_bytes(events, i, j - 1) + match events[j - 1].0 {
            SourceModel::Text(text) => encode_utf8(text),
            _ => Seq::empty(),
        }
    }
}

/// The event is text; or inline HTML other than a `<br>`, if HTML is of interest. Such HTML is left
/// out of the text that it stands in.
pub open spec fn belongs_to_text(event: SourceModel, parse_html: bool) -> bool {
    event is Text || parse_html && (event matches SourceModel::InlineHtml(tag) && !scan::br_tag(
        encode_utf8(tag),
    ))
}

/// A run of text is in `i..j`: it starts with text, and what is directly before and behind it does not
/// belong to text.
pub open spec fn is_run(events: Seq<RangedSourceModel>, i: int, j: int, parse_html: bool) -> bool {
    &&& 0 <= i < j <= events.len()
    &&& events[i].0 is Text
    &&& forall|k: int| i <= k < j ==> belongs_to_text((#[trigger] events[k]).0, parse_html)
    &&& i > 0 ==> !belongs_to_text(events[i - 1].0, parse_html)
    &&& j < events.len() ==> !belongs_to_text(events[j].0, parse_html)
}

proof fn lemma_run_end(events: Seq<RangedSourceModel>, i: int, j: int, parse_html: bool)
    requires
        0 <= i <= j <= events.len(),
        forall|k: int| i <= k < j ==> belongs_to_text((#[trigger] events[k]).0, parse_html),
        j < events.len() ==> !belongs_to_text(events[j].0, parse_html),
    ensures
        convert::text_run_end(events, i, parse_html) == j,
    decreases j - i,
{
    if i < j {
        assert(belongs_to_text(events[i].0, parse_html));
        lemma_run_end(events, i + 1, j, parse_html);
    }
}

proof fn lemma_run_pieces(events: Seq<RangedSourceModel>, i: int, j: int)
    requires
        0 <= i <= j <= events.len(),
    ensures
        autolink::merged(convert::text_pieces(events, i, j)) == run_bytes(events, i, j),
        autolink::all_valid(convert::text_pieces(events, i, j)),
    decreases j - i,
{
    let pieces = convert::text_pieces(events, i, j);
    if i < j {
        lemma_run_pieces(events, i, j - 1);
        let init = convert::text_pieces(events, i, j - 1);
        let last = convert::text_piece(events[j - 1]);
        assert(pieces =~= init.push(last));
        assert(pieces.drop_last() =~= init);
        if let SourceModel::Text(text) = events[j - 1].0 {
            encode_utf8_valid_utf8(text);
        }
        assert forall|k: int| 0 <= k < pieces.len() implies valid_utf8(
            (#[trigger] pieces[k]).parsed,
        ) by {
            if k < init.len() {
                assert(pieces[k] == init[k]);
            }
        }
    } else {
        assert(pieces =~= Seq::empty());
    }
}

/// Each URL in the text of a document becomes a link to it with the URL as its text, unless it is in
/// a link, in code or in metadata. The text that URLs are looked for in is all of a run of text,
/// whatever pieces the parser has cut it into and whatever inline HTML is left out of it.
pub proof fn law_urls_in_documents_become_links(
    b: Seq<u8>,
    events: Seq<RangedSourceModel>,
    options: ConvertOptions,
    html: Seq<usize>,
    i: int,
    j: int,
    u: int,
)
    requires
        conversion::are_parser_events(events),
        conversion::document_of(b, events, options, html) is Some,
        is_run(events, i, j, options.parse_html),
        !conversion::in_source_link(events, i),
        !convert::source_in(Verbatim::Code, events, i),
        !convert::source_in(Verbatim::Metadata, events, i),
        nesting::source_nesting(events, i) matches Some(open) && (open.len() == 0 || open.last()
            != MarkdownTagEnd::HtmlBlock),
        autolink::are_links(
            run_bytes(events, i, j),
            autolink::url_ranges(decode_utf8(run_bytes(events, i, j))),
        ),
        0 <= u < autolink::url_ranges(decode_utf8(run_bytes(events, i, j))).len(),
    ensures
        ({
            let text = run_bytes(events, i, j);
            let link = autolink::url_ranges(decode_utf8(text))[u];
            let url = text.subrange(link.start as int, link.end as int);
            let out = roots::without_markers(
                (conversion::document_of(b, events, options, html)->0).events,
            );
            exists|s: int, t: int|
                #[trigger] links::is_link_to(out, s, t, decode_utf8(url)) && autolink::all_shown(
                    b,
                    out.subrange(s + 1, t),
                ) == url
        }),
{
    let text = run_bytes(events, i, j);
    let urls = autolink::url_ranges(decode_utf8(text));
    let url = text.subrange(urls[u].start as int, urls[u].end as int);
    let out = roots::without_markers(
        (conversion::document_of(b, events, options, html)->0).events,
    );
    assert(events[i].0 is Text);
    let g = lemma_step_is_in_document(b, events, options, html, i, (0..0, EventModel::Text));
    let (h, next) = convert::step(b, events, options, html, i, g)->0;
    lemma_run_end(events, i + 1, j, options.parse_html);
    lemma_run_pieces(events, i, j);
    let pieces = convert::text_pieces(events, i, j);
    let run = autolink::linked(b, pieces, 0, text, urls)->0;
    assert(h.out == g.out + run);
    assert(text.subrange(0, text.len() as int) =~= text);
    links::law_urls_become_links(b, pieces, 0, text, urls, u);
    let (s, t) = choose|s: int, t: int|
        #[trigger] links::is_link_to(run, s, t, decode_utf8(url)) && autolink::all_shown(
            b,
            run.subrange(s + 1, t),
        ) == url;
    lemma_link_in_more(b, g.out, run, out, s, t, decode_utf8(url));
}

proof fn lemma_link_in_more(
    b: Seq<u8>,
    before: Seq<RangedModel>,
    run: Seq<RangedModel>,
    out: Seq<RangedModel>,
    s: int,
    t: int,
    url: Seq<char>,
)
    requires
        (before + run).is_prefix_of(out),
        links::is_link_to(run, s, t, url),
    ensures
        links::is_link_to(out, before.len() + s, before.len() + t, url),
        out.subrange(before.len() + s + 1, before.len() + t) == run.subrange(s + 1, t),
{
    let n = before.len() as int;
    let both = before + run;
    assert forall|k: int| 0 <= k < run.len() implies #[trigger] out[n + k] == run[k] by {
        assert(both[n + k] == run[k]);
        assert(both[n + k] == out[n + k]);
    }
    let x = out.subrange(n + s + 1, n + t);
    let y = run.subrange(s + 1, t);
    assert(x.len() == y.len());
    assert forall|k: int| 0 <= k < x.len() implies #[trigger] x[k] == y[k] by {
        assert(out[n + (s + 1 + k)] == run[s + 1 + k]);
    }
    assert(x =~= y);
    assert forall|k: int| n + s < k < n + t implies links::is_text((#[trigger] out[k]).1) by {
        assert(out[n + (k - n)] == run[k - n]);
    }
    assert(out[n + s] == run[s] && out[n + t] == run[t]);
}

} // verus!
