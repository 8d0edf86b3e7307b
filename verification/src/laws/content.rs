//! What a document keeps of the parser's events: their structure, their text and their URLs.
use super::conversion;
use crate::autolink;
use crate::cmark::{RangedSourceModel, SourceModel, SourceTagModel};
use crate::convert;
use crate::convert::{ConvertOptions, Flow, Verbatim};
use crate::event::{CodeBlockKindModel, CodeBlockMetadata, EventModel, RangedModel, TagModel};
use crate::nesting;
use crate::roots;
use vstd::prelude::*;
use vstd::utf8::*;

verus! {

/// The bytes of the text that the first `n` events of the parser hold outside of metadata blocks.
pub open spec fn text_of(events: Seq<RangedSourceModel>, n: int) -> Seq<u8>
    decreases n,
{
    if n <= 0 {
        Seq::empty()
    } else {
        let before = text_of(events, n - 1);
        match events[n - 1].0 {
            SourceModel::Text(text) => if convert::source_in(
                Verbatim::Metadata,
                events,
                n - 1,
            ) {
                before
            } else {
                before + encode_utf8(text)
            },
            _ => before,
        }
    }
}

proof fn lemma_run_text(events: Seq<RangedSourceModel>, i: int, j: int, parse_html: bool)
    requires
        0 <= i < j <= events.len(),
        events[i].0 is Text,
        !convert::source_in(Verbatim::Metadata, events, i),
        forall|k: int|
            i < k < j ==> convert::continues_text((#[trigger] events[k]).0, parse_html),
    ensures
        text_of(events, j) == text_of(events, i) + autolink::merged(
            convert::text_pieces(events, i, j),
        ),
        !convert::source_in(Verbatim::Metadata, events, j),
        autolink::all_valid(convert::text_pieces(events, i, j)),
    decreases j - i,
{
    let pieces = convert::text_pieces(events, i, j);
    let last = convert::text_piece(events[j - 1]);
    if let SourceModel::Text(text) = events[j - 1].0 {
        encode_utf8_valid_utf8(text);
    }
    if i + 1 < j {
        lemma_run_text(events, i, j - 1, parse_html);
        let init = convert::text_pieces(events, i, j - 1);
        assert(pieces =~= init.push(last));
        assert(pieces =~= init + seq![last]);
        autolink::lemma_merged_concat(init, seq![last]);
        autolink::lemma_merged_one(last);
        assert(convert::continues_text(events[j - 1].0, parse_html));
        assert(text_of(events, i) + (autolink::merged(init) + last.parsed) =~= text_of(events, i)
            + autolink::merged(init) + last.parsed);
        assert forall|k: int| 0 <= k < pieces.len() implies valid_utf8(
            (#[trigger] pieces[k]).parsed,
        ) by {
            if k < init.len() {
                assert(pieces[k] == init[k]);
            }
        }
    } else {
        assert(pieces =~= seq![last]);
        autolink::lemma_merged_one(last);
    }
}

proof fn lemma_run_events(events: Seq<RangedSourceModel>, i: int, parse_html: bool)
    requires
        0 <= i < events.len(),
    ensures
        forall|k: int|
            i < k < convert::text_run_end(events, i + 1, parse_html) ==> convert::continues_text(
                (#[trigger] events[k]).0,
                parse_html,
            ),
        i < convert::text_run_end(events, i + 1, parse_html) <= events.len(),
{
    convert::lemma_text_run_end(events, i + 1, parse_html);
    assert forall|k: int|
        i < k < convert::text_run_end(events, i + 1, parse_html) implies convert::continues_text(
        (#[trigger] events[k]).0,
        parse_html,
    ) by {
        conversion::lemma_run_is_text(events, i + 1, k, parse_html);
    }
}

proof fn lemma_step_keeps_text(
    b: Seq<u8>,
    events: Seq<RangedSourceModel>,
    options: ConvertOptions,
    html: Seq<usize>,
    i: int,
    f: Flow,
)
    requires
        0 <= i < events.len(),
        !options.parse_metadata_blocks,
        !options.parse_html || html.len() == 0,
        conversion::are_parser_events(events),
        conversion::knows_its_place(events, options, i, f),
        !f.within_html,
        autolink::all_shown(b, f.out) == text_of(events, i),
        convert::step(b, events, options, html, i, f) is Some,
    ensures
        ({
            let (g, next) = convert::step(b, events, options, html, i, f)->0;
            autolink::all_shown(b, g.out) == text_of(events, next) && !g.within_html
        }),
{
    let (g, next) = convert::step(b, events, options, html, i, f)->0;
    if events[i].0 is Text && !f.within_metadata && !f.within_code_block {
        lemma_run_events(events, i, options.parse_html);
        let end = convert::text_run_end(events, i + 1, options.parse_html);
        lemma_run_text(events, i, end, options.parse_html);
        let pieces = convert::text_pieces(events, i, end);
        let text = autolink::merged(pieces);
        let urls = if f.within_link {
            Seq::empty()
        } else {
            autolink::url_ranges(decode_utf8(text))
        };
        autolink::law_linking_keeps_text(b, pieces, 0, text, urls);
        autolink::lemma_all_shown_concat(b, f.out, autolink::linked(b, pieces, 0, text, urls)->0);
    } else if g.out.len() == f.out.len() + 1 {
        let e = g.out.last();
        if g.out =~= f.out.push(e) {
            assert(f.out.push(e).drop_last() =~= f.out);
            if let SourceModel::Text(text) = events[i].0 {
                encode_utf8_valid_utf8(text);
                decode_utf8_encode_utf8(encode_utf8(text));
            } else {
                assert(autolink::all_shown(b, g.out) =~= autolink::all_shown(b, f.out));
            }
        }
    }
}

proof fn lemma_conversion_keeps_text(
    b: Seq<u8>,
    events: Seq<RangedSourceModel>,
    options: ConvertOptions,
    html: Seq<usize>,
    i: int,
    f: Flow,
)
    requires
        0 <= i <= events.len(),
        !options.parse_metadata_blocks,
        !options.parse_html || html.len() == 0,
        conversion::are_parser_events(events),
        conversion::knows_its_place(events, options, i, f),
        !f.within_html,
        autolink::all_shown(b, f.out) == text_of(events, i),
        convert::converted(b, events, options, html, i, f) is Some,
    ensures
        autolink::all_shown(b, (convert::converted(b, events, options, html, i, f)->0).out)
            == text_of(events, events.len() as int),
    decreases events.len() - i,
{
    if i < events.len() {
        convert::lemma_text_run_end(events, i + 1, options.parse_html);
        conversion::lemma_step_knows_its_place(b, events, options, html, i, f);
        lemma_step_keeps_text(b, events, options, html, i, f);
        let (g, next) = convert::step(b, events, options, html, i, f)->0;
        lemma_conversion_keeps_text(b, events, options, html, next, g);
    }
}

proof fn lemma_shown_push(b: Seq<u8>, events: Seq<RangedModel>, e: RangedModel)
    ensures
        autolink::all_shown(b, events.push(e)) == autolink::all_shown(b, events) + autolink::shown(
            b,
            e,
        ),
{
    assert(events.push(e).drop_last() =~= events);
}

proof fn lemma_grouped_shows(b: Seq<u8>, events: Seq<RangedModel>)
    ensures
        autolink::all_shown(b, roots::grouped(events).events) == autolink::all_shown(b, events),
    decreases events.len(),
{
    if events.len() > 0 {
        let init = events.drop_last();
        let e = events.last();
        lemma_grouped_shows(b, init);
        let m = roots::grouped(init);
        let start = (e.0, EventModel::RootStart);
        let ended = (e.0, EventModel::RootEnd((m.starts.len() - 1) as usize));
        let ruled = (e.0, EventModel::RootEnd(m.starts.len() as usize));
        lemma_shown_push(b, m.events, start);
        lemma_shown_push(b, m.events, e);
        lemma_shown_push(b, m.events.push(start), e);
        lemma_shown_push(b, m.events.push(e), ended);
        lemma_shown_push(b, m.events.push(start).push(e), ruled);
        let all = roots::grouped(events).events;
        assert(autolink::all_shown(b, m.events) + Seq::<u8>::empty() =~= autolink::all_shown(
            b,
            m.events,
        ));
        assert(autolink::all_shown(b, all) =~= autolink::all_shown(b, init) + autolink::shown(
            b,
            e,
        ));
    }
}

/// The text events of a document show the text that the parser found, all of it, once and in order,
/// whatever became of the URLs in it.
pub proof fn law_documents_show_the_parsed_text(
    b: Seq<u8>,
    events: Seq<RangedSourceModel>,
    options: ConvertOptions,
    html: Seq<usize>,
)
    requires
        !options.parse_metadata_blocks,
        !options.parse_html || html.len() == 0,
        conversion::are_parser_events(events),
        conversion::document_of(b, events, options, html) is Some,
    ensures
        autolink::all_shown(b, (conversion::document_of(b, events, options, html)->0).events)
            == text_of(events, events.len() as int),
{
    let start = convert::start_of_flow();
    conversion::lemma_start_knows_its_place(events, options);
    lemma_conversion_keeps_text(b, events, options, html, 0, start);
    lemma_grouped_shows(b, (convert::converted(b, events, options, html, 0, start)->0).out);
}

/// The event without what is found out of code: its kind, and where its content is.
pub open spec fn bare(event: RangedModel) -> RangedModel {
    match event.1 {
        EventModel::Start(TagModel::CodeBlock { .. }) => (
            event.0,
            EventModel::Start(
                TagModel::CodeBlock {
                    kind: CodeBlockKindModel::Fenced,
                    metadata: CodeBlockMetadata {
                        content_range: 0..0,
                        line_count: 0,
                        is_fenced_closed: false,
                    },
                },
            ),
        ),
        EventModel::Code | EventModel::SubstitutedCode(_) => (0..0, EventModel::Code),
        _ => event,
    }
}

/// The event is neither text, nor of a link, nor a mark of a root-level block, nor one that depends
/// on what is asked for.
pub open spec fn is_structural(event: EventModel, options: ConvertOptions) -> bool {
    match event {
        EventModel::Start(tag) => !(tag is Link) && (options.parse_metadata_blocks || !(tag
            is MetadataBlock)),
        EventModel::End(tag) => !(tag is Link) && (options.parse_metadata_blocks || !(tag
            is MetadataBlock)),
        EventModel::Html | EventModel::InlineHtml | EventModel::HardBreak => !options.parse_html,
        EventModel::Text | EventModel::SubstitutedText(_) => false,
        EventModel::RootStart | EventModel::RootEnd(_) => false,
        _ => true,
    }
}

/// The structure of some events.
pub open spec fn structure(events: Seq<RangedModel>, options: ConvertOptions) -> Seq<RangedModel>
    decreases events.len(),
{
    if events.len() == 0 {
        Seq::empty()
    } else {
        let before = structure(events.drop_last(), options);
        if is_structural(events.last().1, options) {
            before.push(bare(events.last()))
        } else {
            before
        }
    }
}

/// The event that stands for one of the parser, if it is not text.
pub open spec fn counterpart(event: SourceModel) -> Option<EventModel> {
    let code = TagModel::CodeBlock {
        kind: CodeBlockKindModel::Fenced,
        metadata: CodeBlockMetadata {
            content_range: 0..0,
            line_count: 0,
            is_fenced_closed: false,
        },
    };
    match event {
        SourceModel::Start(SourceTagModel::Plain(tag)) => Some(EventModel::Start(tag)),
        SourceModel::Start(_) => Some(EventModel::Start(code)),
        SourceModel::End(tag) => Some(EventModel::End(tag)),
        SourceModel::Code(_) => Some(EventModel::Code),
        SourceModel::Html => Some(EventModel::Html),
        SourceModel::InlineHtml(_) => Some(EventModel::InlineHtml),
        SourceModel::FootnoteReference(label) => Some(EventModel::FootnoteReference(label)),
        SourceModel::SoftBreak => Some(EventModel::SoftBreak),
        SourceModel::HardBreak => Some(EventModel::HardBreak),
        SourceModel::Rule => Some(EventModel::Rule),
        SourceModel::TaskListMarker(checked) => Some(EventModel::TaskListMarker(checked)),
        SourceModel::Text(_) | SourceModel::Math => None,
    }
}

/// The structure of the first `n` events of the parser.
pub open spec fn source_structure(
    events: Seq<RangedSourceModel>,
    options: ConvertOptions,
    n: int,
) -> Seq<RangedModel>
    decreases n,
{
    if n <= 0 {
        Seq::empty()
    } else {
        let before = source_structure(events, options, n - 1);
        match counterpart(events[n - 1].0) {
            Some(event) if is_structural(event, options) => before.push(
                bare((events[n - 1].1, event)),
            ),
            _ => before,
        }
    }
}

proof fn lemma_structure_push(events: Seq<RangedModel>, e: RangedModel, options: ConvertOptions)
    ensures
        structure(events.push(e), options) == (if is_structural(e.1, options) {
            structure(events, options).push(bare(e))
        } else {
            structure(events, options)
        }),
{
    assert(events.push(e).drop_last() =~= events);
}

proof fn lemma_structure_of_run(
    events: Seq<RangedModel>,
    run: Seq<RangedModel>,
    options: ConvertOptions,
)
    requires
        autolink::are_run_events(run),
    ensures
        structure(events + run, options) == structure(events, options),
    decreases run.len(),
{
    if run.len() == 0 {
        assert(events + run =~= events);
    } else {
        let init = run.drop_last();
        assert forall|k: int| 0 <= k < init.len() implies autolink::is_run_event(
            (#[trigger] init[k]).1,
        ) by {
            assert(init[k] == run[k]);
        }
        lemma_structure_of_run(events, init, options);
        assert((events + run).drop_last() =~= events + init);
        assert(autolink::is_run_event(run[run.len() - 1].1));
    }
}

proof fn lemma_run_has_no_structure(
    events: Seq<RangedSourceModel>,
    options: ConvertOptions,
    i: int,
    j: int,
)
    requires
        0 <= i < j <= events.len(),
        events[i].0 is Text,
        forall|k: int|
            i < k < j ==> convert::continues_text((#[trigger] events[k]).0, options.parse_html),
    ensures
        source_structure(events, options, j) == source_structure(events, options, i),
    decreases j - i,
{
    if i + 1 < j {
        lemma_run_has_no_structure(events, options, i, j - 1);
        assert(convert::continues_text(events[j - 1].0, options.parse_html));
    }
}

proof fn lemma_step_keeps_structure(
    b: Seq<u8>,
    events: Seq<RangedSourceModel>,
    options: ConvertOptions,
    html: Seq<usize>,
    i: int,
    f: Flow,
)
    requires
        0 <= i < events.len(),
        conversion::are_parser_events(events),
        conversion::knows_its_place(events, options, i, f),
        structure(f.out, options) == source_structure(events, options, i),
        !options.parse_html ==> !f.within_html,
        convert::step(b, events, options, html, i, f) is Some,
    ensures
        ({
            let (g, next) = convert::step(b, events, options, html, i, f)->0;
            &&& structure(g.out, options) == source_structure(events, options, next)
            &&& !options.parse_html ==> !g.within_html
        }),
{
    let (g, next) = convert::step(b, events, options, html, i, f)->0;
    nesting::lemma_source_nesting(events, i + 1, events.len() as int);
    let source = nesting::source_nesting(events, i)->0;
    assert(source.len() > 0 ==> nesting::fits_into(source.last(), events[i].0));
    if events[i].0 is Text && !f.within_html && !f.within_metadata && !f.within_code_block {
        lemma_run_events(events, i, options.parse_html);
        let end = convert::text_run_end(events, i + 1, options.parse_html);
        lemma_run_has_no_structure(events, options, i, end);
        let pieces = convert::text_pieces(events, i, end);
        let text = autolink::merged(pieces);
        let urls = if f.within_link {
            Seq::empty()
        } else {
            autolink::url_ranges(decode_utf8(text))
        };
        autolink::law_runs_give_text_and_links(b, pieces, 0, text, urls);
        lemma_structure_of_run(
            f.out,
            autolink::linked(b, pieces, 0, text, urls)->0,
            options,
        );
    } else if g.out.len() == f.out.len() + 1 {
        let e = g.out.last();
        if g.out =~= f.out.push(e) {
            lemma_structure_push(f.out, e, options);
        }
    }
}

proof fn lemma_conversion_keeps_structure(
    b: Seq<u8>,
    events: Seq<RangedSourceModel>,
    options: ConvertOptions,
    html: Seq<usize>,
    i: int,
    f: Flow,
)
    requires
        0 <= i <= events.len(),
        conversion::are_parser_events(events),
        conversion::knows_its_place(events, options, i, f),
        structure(f.out, options) == source_structure(events, options, i),
        !options.parse_html ==> !f.within_html,
        convert::converted(b, events, options, html, i, f) is Some,
    ensures
        structure((convert::converted(b, events, options, html, i, f)->0).out, options)
            == source_structure(events, options, events.len() as int),
    decreases events.len() - i,
{
    if i < events.len() {
        convert::lemma_text_run_end(events, i + 1, options.parse_html);
        conversion::lemma_step_knows_its_place(b, events, options, html, i, f);
        lemma_step_keeps_structure(b, events, options, html, i, f);
        let (g, next) = convert::step(b, events, options, html, i, f)->0;
        lemma_conversion_keeps_structure(b, events, options, html, next, g);
    }
}

proof fn lemma_grouped_structure(events: Seq<RangedModel>, options: ConvertOptions)
    ensures
        structure(roots::grouped(events).events, options) == structure(events, options),
    decreases events.len(),
{
    if events.len() > 0 {
        let init = events.drop_last();
        let e = events.last();
        lemma_grouped_structure(init, options);
        let m = roots::grouped(init);
        let start = (e.0, EventModel::RootStart);
        let ended = (e.0, EventModel::RootEnd((m.starts.len() - 1) as usize));
        let ruled = (e.0, EventModel::RootEnd(m.starts.len() as usize));
        lemma_structure_push(m.events, start, options);
        lemma_structure_push(m.events, e, options);
        lemma_structure_push(m.events.push(start), e, options);
        lemma_structure_push(m.events.push(e), ended, options);
        lemma_structure_push(m.events.push(start).push(e), ruled, options);
    }
}

/// A document has the structure that the parser found: its elements with their tags and ranges, its
/// breaks, rules, boxes, footnote references and code spans, each once and in order.
pub proof fn law_documents_have_the_parsed_structure(
    b: Seq<u8>,
    events: Seq<RangedSourceModel>,
    options: ConvertOptions,
    html: Seq<usize>,
)
    requires
        conversion::are_parser_events(events),
        conversion::document_of(b, events, options, html) is Some,
    ensures
        structure((conversion::document_of(b, events, options, html)->0).events, options)
            == source_structure(events, options, events.len() as int),
{
    let start = convert::start_of_flow();
    conversion::lemma_start_knows_its_place(events, options);
    lemma_conversion_keeps_structure(b, events, options, html, 0, start);
    lemma_grouped_structure(
        (convert::converted(b, events, options, html, 0, start)->0).out,
        options,
    );
}

} // verus!
