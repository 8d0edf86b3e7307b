//! How a document follows the parser's events: nothing of them is lost, and links lie apart.
use super::links;
use crate::autolink;
use crate::cmark;
use crate::cmark::{RangedSourceModel, SourceModel, SourceTagModel};
use crate::convert;
use crate::convert::{ConvertOptions, Flow, Verbatim};
use crate::event::{EventModel, MarkdownTagEnd, RangedModel};
use crate::nesting;
use crate::parse;
use crate::parse::DocumentModel;
use crate::roots;
use vstd::prelude::*;
use vstd::utf8::*;

verus! {

/// The parser's event starts a link.
pub open spec fn starts_source_link(event: SourceModel) -> bool {
    event matches SourceModel::Start(SourceTagModel::Plain(tag)) && tag is Link
}

/// The parser's event starts a table.
pub open spec fn starts_source_table(event: SourceModel) -> bool {
    event matches SourceModel::Start(SourceTagModel::Plain(tag)) && tag is Table
}

/// A link of the parser is open before its event at `i`.
pub open spec fn in_source_link(events: Seq<RangedSourceModel>, i: int) -> bool {
    exists|s: int|
        0 <= s < i && starts_source_link((#[trigger] events[s]).0) && forall|e: int|
            s < e < i ==> (#[trigger] events[e]).0 != SourceModel::End(MarkdownTagEnd::Link)
}

/// A table of the parser is open before its event at `i`.
pub open spec fn in_source_table(events: Seq<RangedSourceModel>, i: int) -> bool {
    exists|s: int|
        0 <= s < i && starts_source_table((#[trigger] events[s]).0) && forall|e: int|
            s < e < i ==> (#[trigger] events[e]).0 != SourceModel::End(MarkdownTagEnd::Table)
}

/// The parser puts no link into a link.
pub open spec fn source_links_lie_apart(events: Seq<RangedSourceModel>) -> bool {
    forall|i: int|
        0 <= i < events.len() && starts_source_link((#[trigger] events[i]).0) ==> !in_source_link(
            events,
            i,
        )
}

/// The parser's events are as the parser gives them.
pub open spec fn are_parser_events(events: Seq<RangedSourceModel>) -> bool {
    &&& nesting::is_source_balanced(events)
    &&& nesting::has_leaf_blocks(events)
    &&& cmark::has_parser_code_tags(events)
}

proof fn lemma_in_source_link_step(events: Seq<RangedSourceModel>, i: int)
    requires
        0 <= i < events.len(),
    ensures
        in_source_link(events, i + 1) == (if starts_source_link(events[i].0) {
            true
        } else if events[i].0 == SourceModel::End(MarkdownTagEnd::Link) {
            false
        } else {
            in_source_link(events, i)
        }),
        in_source_table(events, i + 1) == (if starts_source_table(events[i].0) {
            true
        } else if events[i].0 == SourceModel::End(MarkdownTagEnd::Table) {
            false
        } else {
            in_source_table(events, i)
        }),
{
    let end = SourceModel::End(MarkdownTagEnd::Link);
    if in_source_link(events, i) && events[i].0 != end {
        let s = choose|s: int|
            0 <= s < i && starts_source_link((#[trigger] events[s]).0) && forall|e: int|
                s < e < i ==> (#[trigger] events[e]).0 != end;
        assert(starts_source_link(events[s].0));
        assert(in_source_link(events, i + 1));
    }
    if in_source_link(events, i + 1) {
        let s = choose|s: int|
            0 <= s < i + 1 && starts_source_link((#[trigger] events[s]).0) && forall|e: int|
                s < e < i + 1 ==> (#[trigger] events[e]).0 != end;
        if s < i {
            assert(events[i].0 != end);
            assert(in_source_link(events, i));
        }
    }
    let end = SourceModel::End(MarkdownTagEnd::Table);
    if in_source_table(events, i) && events[i].0 != end {
        let s = choose|s: int|
            0 <= s < i && starts_source_table((#[trigger] events[s]).0) && forall|e: int|
                s < e < i ==> (#[trigger] events[e]).0 != end;
        assert(starts_source_table(events[s].0));
        assert(in_source_table(events, i + 1));
    }
    if in_source_table(events, i + 1) {
        let s = choose|s: int|
            0 <= s < i + 1 && starts_source_table((#[trigger] events[s]).0) && forall|e: int|
                s < e < i + 1 ==> (#[trigger] events[e]).0 != end;
        if s < i {
            assert(events[i].0 != end);
            assert(in_source_table(events, i));
        }
    }
}

/// A conversion knows which elements of the parser it is in.
pub open spec fn knows_its_place(
    events: Seq<RangedSourceModel>,
    options: ConvertOptions,
    i: int,
    f: Flow,
) -> bool {
    &&& nesting::nests_alike(events, options, i, f)
    &&& f.within_link == in_source_link(events, i)
    &&& f.within_table == in_source_table(events, i)
    &&& f.within_code_block == convert::source_in(Verbatim::Code, events, i)
    &&& f.within_metadata == convert::source_in(Verbatim::Metadata, events, i)
}

proof fn lemma_run_keeps_place(events: Seq<RangedSourceModel>, i: int, parse_html: bool)
    requires
        0 <= i <= events.len(),
    ensures
        ({
            let end = convert::text_run_end(events, i, parse_html);
            &&& i <= end <= events.len()
            &&& in_source_link(events, end) == in_source_link(events, i)
            &&& in_source_table(events, end) == in_source_table(events, i)
            &&& convert::source_in(Verbatim::Code, events, end) == convert::source_in(
                Verbatim::Code,
                events,
                i,
            )
            &&& convert::source_in(Verbatim::Metadata, events, end) == convert::source_in(
                Verbatim::Metadata,
                events,
                i,
            )
        }),
    decreases events.len() - i,
{
    if i < events.len() && convert::continues_text(events[i].0, parse_html) {
        lemma_run_keeps_place(events, i + 1, parse_html);
        lemma_in_source_link_step(events, i);
    }
}

/// One step further, a conversion knows which elements it is in.
pub proof fn lemma_step_knows_its_place(
    b: Seq<u8>,
    events: Seq<RangedSourceModel>,
    options: ConvertOptions,
    html: Seq<usize>,
    i: int,
    f: Flow,
)
    requires
        0 <= i < events.len(),
        are_parser_events(events),
        knows_its_place(events, options, i, f),
        convert::step(b, events, options, html, i, f) is Some,
    ensures
        ({
            let (g, next) = convert::step(b, events, options, html, i, f)->0;
            knows_its_place(events, options, next, g)
        }),
{
    nesting::lemma_step_nests_alike(b, events, options, html, i, f);
    let (g, next) = convert::step(b, events, options, html, i, f)->0;
    nesting::lemma_source_nesting(events, i + 1, events.len() as int);
    let source = nesting::source_nesting(events, i)->0;
    assert(source.len() > 0 ==> nesting::fits_into(source.last(), events[i].0));
    lemma_in_source_link_step(events, i);
    if events[i].0 is Text && !f.within_html && !f.within_metadata && !f.within_code_block {
        lemma_run_keeps_place(events, i + 1, options.parse_html);
    }
}

/// What a conversion has put out by the event at `i` of the parser, if no run of text goes on there.
pub proof fn lemma_flow_at(
    b: Seq<u8>,
    events: Seq<RangedSourceModel>,
    options: ConvertOptions,
    html: Seq<usize>,
    j: int,
    f: Flow,
    i: int,
) -> (g: Flow)
    requires
        0 <= j <= i <= events.len(),
        are_parser_events(events),
        knows_its_place(events, options, j, f),
        convert::converted(b, events, options, html, j, f) is Some,
        i == j || !convert::continues_text(events[i - 1].0, options.parse_html) || i
            == events.len() || !convert::continues_text(events[i].0, options.parse_html),
    ensures
        knows_its_place(events, options, i, g),
        convert::converted(b, events, options, html, j, f) == convert::converted(
            b,
            events,
            options,
            html,
            i,
            g,
        ),
    decreases i - j,
{
    if i == j {
        f
    } else {
        convert::lemma_text_run_end(events, j + 1, options.parse_html);
        lemma_step_knows_its_place(b, events, options, html, j, f);
        let (g, next) = convert::step(b, events, options, html, j, f)->0;
        if next > i {
            lemma_run_is_text(events, j + 1, i, options.parse_html);
            assert(convert::continues_text(events[i].0, options.parse_html));
            if i > j + 1 {
                lemma_run_is_text(events, j + 1, i - 1, options.parse_html);
            }
            assert(convert::continues_text(events[i - 1].0, options.parse_html));
        }
        lemma_flow_at(b, events, options, html, next, g, i)
    }
}

/// The events of a run of text go on with it.
pub proof fn lemma_run_is_text(events: Seq<RangedSourceModel>, i: int, k: int, parse_html: bool)
    requires
        0 <= i <= k < convert::text_run_end(events, i, parse_html),
    ensures
        k < events.len(),
        convert::continues_text(events[k].0, parse_html),
    decreases k - i,
{
    if i < k {
        lemma_run_is_text(events, i + 1, k, parse_html);
    }
}

/// A conversion takes nothing back that it has put out.
pub proof fn lemma_conversion_goes_on(
    b: Seq<u8>,
    events: Seq<RangedSourceModel>,
    options: ConvertOptions,
    html: Seq<usize>,
    i: int,
    f: Flow,
)
    requires
        0 <= i <= events.len(),
        convert::converted(b, events, options, html, i, f) is Some,
    ensures
        f.out.is_prefix_of((convert::converted(b, events, options, html, i, f)->0).out),
    decreases events.len() - i,
{
    if i < events.len() {
        convert::lemma_text_run_end(events, i + 1, options.parse_html);
        let (g, next) = convert::step(b, events, options, html, i, f)->0;
        lemma_conversion_goes_on(b, events, options, html, next, g);
        assert(f.out.is_prefix_of(g.out));
        let all = (convert::converted(b, events, options, html, i, f)->0).out;
        assert(forall|k: int| 0 <= k < f.out.len() ==> f.out[k] == g.out[k]);
        assert(forall|k: int| 0 <= k < g.out.len() ==> g.out[k] == all[k]);
        assert(f.out =~= all.subrange(0, f.out.len() as int));
    } else {
        assert(f.out =~= f.out.subrange(0, f.out.len() as int));
    }
}

/// The document of the parser's events.
pub open spec fn document_of(
    b: Seq<u8>,
    events: Seq<RangedSourceModel>,
    options: ConvertOptions,
    html: Seq<usize>,
) -> Option<DocumentModel> {
    parse::document(
        b,
        events,
        options.parse_html,
        false,
        options.parse_metadata_blocks,
        html,
    )
}

proof fn lemma_step_links_lie_apart(
    b: Seq<u8>,
    events: Seq<RangedSourceModel>,
    options: ConvertOptions,
    html: Seq<usize>,
    i: int,
    f: Flow,
)
    requires
        0 <= i < events.len(),
        are_parser_events(events),
        source_links_lie_apart(events),
        knows_its_place(events, options, i, f),
        links::link_flow(false, f.out) == Some(f.within_link),
        convert::step(b, events, options, html, i, f) is Some,
    ensures
        ({
            let (g, next) = convert::step(b, events, options, html, i, f)->0;
            links::link_flow(false, g.out) == Some(g.within_link)
        }),
{
    let (g, next) = convert::step(b, events, options, html, i, f)->0;
    if events[i].0 is Text && !f.within_html && !f.within_metadata && !f.within_code_block {
        let end = convert::text_run_end(events, i + 1, options.parse_html);
        let pieces = convert::text_pieces(events, i, end);
        let text = autolink::merged(pieces);
        let run = autolink::text_run_events(b, pieces, f.within_link)->0;
        if f.within_link {
            assert forall|k: int| 0 <= k < run.len() implies !links::starts_link(
                (#[trigger] run[k]).1,
            ) && run[k].1 != EventModel::End(MarkdownTagEnd::Link) by {
                links::law_text_in_links_is_not_linked(b, pieces, k);
            }
            links::lemma_link_flow_of_text(true, run);
        } else {
            links::lemma_run_links_lie_apart(
                b,
                pieces,
                0,
                text,
                autolink::url_ranges(decode_utf8(text)),
            );
        }
        links::lemma_link_flow_concat(false, f.out, run);
    } else if g.out.len() == f.out.len() + 1 {
        let e = g.out.last();
        if g.out =~= f.out.push(e) {
            assert(f.out.push(e).drop_last() =~= f.out);
        }
    }
}

proof fn lemma_conversion_links_lie_apart(
    b: Seq<u8>,
    events: Seq<RangedSourceModel>,
    options: ConvertOptions,
    html: Seq<usize>,
    i: int,
    f: Flow,
)
    requires
        0 <= i <= events.len(),
        are_parser_events(events),
        source_links_lie_apart(events),
        knows_its_place(events, options, i, f),
        links::link_flow(false, f.out) == Some(f.within_link),
        convert::converted(b, events, options, html, i, f) is Some,
    ensures
        links::link_flow(
            false,
            (convert::converted(b, events, options, html, i, f)->0).out,
        ) is Some,
    decreases events.len() - i,
{
    if i < events.len() {
        convert::lemma_text_run_end(events, i + 1, options.parse_html);
        lemma_step_knows_its_place(b, events, options, html, i, f);
        lemma_step_links_lie_apart(b, events, options, html, i, f);
        let (g, next) = convert::step(b, events, options, html, i, f)->0;
        lemma_conversion_links_lie_apart(b, events, options, html, next, g);
    }
}

proof fn lemma_grouped_links(events: Seq<RangedModel>)
    ensures
        links::link_flow(false, roots::grouped(events).events) == links::link_flow(false, events),
    decreases events.len(),
{
    if events.len() > 0 {
        let init = events.drop_last();
        let e = events.last();
        lemma_grouped_links(init);
        let m = roots::grouped(init);
        let start = (e.0, EventModel::RootStart);
        let ended = (e.0, EventModel::RootEnd((m.starts.len() - 1) as usize));
        let ruled = (e.0, EventModel::RootEnd(m.starts.len() as usize));
        links::lemma_link_flow_push(init, e);
        assert(init.push(e) =~= events);
        links::lemma_link_flow_push(m.events, start);
        links::lemma_link_flow_push(m.events, e);
        links::lemma_link_flow_push(m.events.push(start), e);
        links::lemma_link_flow_push(m.events.push(e), ended);
        links::lemma_link_flow_push(m.events.push(start).push(e), ruled);
    }
}

/// Before its first event, a conversion is in no element.
pub proof fn lemma_start_knows_its_place(events: Seq<RangedSourceModel>, options: ConvertOptions)
    ensures
        knows_its_place(events, options, 0, convert::start_of_flow()),
{
}

/// No link of a document lies inside another one: where the parser puts no link into a link, there
/// is the end of a link between the starts of any two.
pub proof fn law_links_lie_apart(
    b: Seq<u8>,
    events: Seq<RangedSourceModel>,
    options: ConvertOptions,
    html: Seq<usize>,
    s: int,
    m: int,
)
    requires
        are_parser_events(events),
        source_links_lie_apart(events),
        document_of(b, events, options, html) is Some,
        0 <= s < m < (document_of(b, events, options, html)->0).events.len(),
        links::starts_link((document_of(b, events, options, html)->0).events[s].1),
        links::starts_link((document_of(b, events, options, html)->0).events[m].1),
    ensures
        exists|e: int|
            s < e < m && (#[trigger] (document_of(b, events, options, html)->0).events[e]).1
                == EventModel::End(MarkdownTagEnd::Link),
{
    let start = convert::start_of_flow();
    lemma_start_knows_its_place(events, options);
    lemma_conversion_links_lie_apart(b, events, options, html, 0, start);
    let f = convert::converted(b, events, options, html, 0, start)->0;
    lemma_grouped_links(f.out);
    links::lemma_links_end_before_others(roots::grouped(f.out).events, s, m);
}

} // verus!
