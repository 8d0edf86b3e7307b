//! How the elements of a document lie inside each other.
use crate::autolink;
use crate::autolink::PieceModel;
use crate::cmark;
use crate::cmark::{RangedSourceModel, SourceModel, SourceTagModel};
use crate::convert;
use crate::convert::{ConvertOptions, Flow, Verbatim};
use crate::event::{EventModel, MarkdownTagEnd, RangedModel, TagModel};
use crate::roots;
use std::ops::Range;
use vstd::prelude::*;
use vstd::utf8::*;

verus! {

/// The end of an element with this tag.
pub open spec fn end_of(tag: TagModel) -> MarkdownTagEnd {
    match tag {
        TagModel::Paragraph => MarkdownTagEnd::Paragraph,
        TagModel::Heading { level, .. } => MarkdownTagEnd::Heading(level),
        TagModel::BlockQuote(kind) => MarkdownTagEnd::BlockQuote(kind),
        TagModel::CodeBlock { .. } => MarkdownTagEnd::CodeBlock,
        TagModel::HtmlBlock => MarkdownTagEnd::HtmlBlock,
        TagModel::List(start) => MarkdownTagEnd::List(start is Some),
        TagModel::Item => MarkdownTagEnd::Item,
        TagModel::FootnoteDefinition(_) => MarkdownTagEnd::FootnoteDefinition,
        TagModel::Table(_) => MarkdownTagEnd::Table,
        TagModel::TableHead => MarkdownTagEnd::TableHead,
        TagModel::TableRow => MarkdownTagEnd::TableRow,
        TagModel::TableCell => MarkdownTagEnd::TableCell,
        TagModel::Emphasis => MarkdownTagEnd::Emphasis,
        TagModel::Strong => MarkdownTagEnd::Strong,
        TagModel::Strikethrough => MarkdownTagEnd::Strikethrough,
        TagModel::Superscript => MarkdownTagEnd::Superscript,
        TagModel::Subscript => MarkdownTagEnd::Subscript,
        TagModel::Link { .. } => MarkdownTagEnd::Link,
        TagModel::Image { .. } => MarkdownTagEnd::Image,
        TagModel::MetadataBlock(kind) => MarkdownTagEnd::MetadataBlock(kind),
        TagModel::DefinitionList => MarkdownTagEnd::DefinitionList,
        TagModel::DefinitionListTitle => MarkdownTagEnd::DefinitionListTitle,
        TagModel::DefinitionListDefinition => MarkdownTagEnd::DefinitionListDefinition,
    }
}

/// The end of an element of the parser with this tag.
pub open spec fn source_end_of(tag: SourceTagModel) -> MarkdownTagEnd {
    match tag {
        SourceTagModel::IndentedCode => MarkdownTagEnd::CodeBlock,
        SourceTagModel::FencedCode(_) => MarkdownTagEnd::CodeBlock,
        SourceTagModel::Plain(tag) => end_of(tag),
    }
}

/// The open elements, by their ends, once one more has ended. `None` if another one was to end
/// first.
pub open spec fn closed(open: Seq<MarkdownTagEnd>, tag: MarkdownTagEnd) -> Option<
    Seq<MarkdownTagEnd>,
> {
    if open.len() > 0 && open.last() == tag {
        Some(open.drop_last())
    } else {
        None
    }
}

/// The open elements behind one more event.
pub open spec fn nest(open: Seq<MarkdownTagEnd>, event: EventModel) -> Option<Seq<MarkdownTagEnd>> {
    match event {
        EventModel::Start(tag) => Some(open.push(end_of(tag))),
        EventModel::End(tag) => closed(open, tag),
        _ => Some(open),
    }
}

/// The open elements behind some events, if `open` are open before them. `None` if an element ends
/// that is not the last one that is open.
pub open spec fn nest_all(open: Seq<MarkdownTagEnd>, events: Seq<RangedModel>) -> Option<
    Seq<MarkdownTagEnd>,
>
    decreases events.len(),
{
    if events.len() == 0 {
        Some(open)
    } else {
        match nest_all(open, events.drop_last()) {
            Some(open) => nest(open, events.last().1),
            None => None,
        }
    }
}

/// Each start of an element has its end, and each element lies in another one or outside of it.
pub open spec fn is_balanced(events: Seq<RangedModel>) -> bool {
    nest_all(Seq::empty(), events) == Some(Seq::<MarkdownTagEnd>::empty())
}

/// The open elements of the parser behind its first `n` events.
pub open spec fn source_nesting(events: Seq<RangedSourceModel>, n: int) -> Option<
    Seq<MarkdownTagEnd>,
>
    decreases n,
{
    if n <= 0 {
        Some(Seq::empty())
    } else {
        match (source_nesting(events, n - 1), events[n - 1].0) {
            (Some(open), SourceModel::Start(tag)) => Some(open.push(source_end_of(tag))),
            (Some(open), SourceModel::End(tag)) => closed(open, tag),
            (open, _) => open,
        }
    }
}

/// The parser's events are balanced: each start of an element has its end, and each element lies
/// in another one or outside of it.
pub open spec fn is_source_balanced(events: Seq<RangedSourceModel>) -> bool {
    source_nesting(events, events.len() as int) == Some(Seq::<MarkdownTagEnd>::empty())
}

/// The event may come directly inside a block that ends with `block`: code blocks and metadata
/// blocks hold text, and HTML blocks hold text and HTML.
pub open spec fn fits_into(block: MarkdownTagEnd, event: SourceModel) -> bool {
    match block {
        MarkdownTagEnd::CodeBlock | MarkdownTagEnd::MetadataBlock(_) => event is Text || event
            is End,
        MarkdownTagEnd::HtmlBlock => event is Text || event is Html || event is End,
        _ => true,
    }
}

/// No other element lies inside a code block, a metadata block or an HTML block of the parser.
pub open spec fn has_leaf_blocks(events: Seq<RangedSourceModel>) -> bool {
    forall|i: int|
        #![trigger events[i]]
        0 <= i < events.len() ==> match source_nesting(events, i) {
            Some(open) => open.len() > 0 ==> fits_into(open.last(), events[i].0),
            None => true,
        }
}

proof fn lemma_source_in(kind: Verbatim, events: Seq<RangedSourceModel>, i: int)
    requires
        0 <= i <= events.len(),
        source_nesting(events, i) is Some,
        has_leaf_blocks(events),
        convert::source_in(kind, events, i),
    ensures
        ({
            let open = source_nesting(events, i)->0;
            &&& open.len() > 0
            &&& match kind {
                Verbatim::Code => open.last() is CodeBlock,
                Verbatim::Metadata => open.last() is MetadataBlock,
            }
        }),
    decreases i,
{
    if i > 0 && !convert::source_starts(kind, events[i - 1].0) {
        lemma_source_in(kind, events, i - 1);
    }
}

/// Blocks without elements inside them hold nothing but text, if they are code blocks or metadata
/// blocks.
pub proof fn lemma_leaf_blocks_hold_text(kind: Verbatim, events: Seq<RangedSourceModel>)
    requires
        is_source_balanced(events),
        has_leaf_blocks(events),
        cmark::has_parser_code_tags(events),
    ensures
        convert::holds_text(kind, events),
{
    assert forall|i: int|
        #![trigger events[i]]
        0 <= i < events.len() && convert::source_in(kind, events, i) implies events[i].0 is Text
        || convert::source_ends(kind, events[i].0) by {
        lemma_source_nesting(events, i, events.len() as int);
        lemma_source_nesting(events, i + 1, events.len() as int);
        lemma_source_in(kind, events, i);
    }
}

/// The open elements of the parser are known before the ones behind them.
pub proof fn lemma_source_nesting(events: Seq<RangedSourceModel>, i: int, n: int)
    requires
        0 <= i <= n,
        source_nesting(events, n) is Some,
    ensures
        source_nesting(events, i) is Some,
    decreases n - i,
{
    if i < n {
        lemma_source_nesting(events, i, n - 1);
    }
}

proof fn lemma_source_nesting_of_run(
    events: Seq<RangedSourceModel>,
    i: int,
    parse_html: bool,
)
    requires
        0 <= i <= events.len(),
    ensures
        source_nesting(events, convert::text_run_end(events, i, parse_html)) == source_nesting(
            events,
            i,
        ),
    decreases events.len() - i,
{
    if i < events.len() && convert::continues_text(events[i].0, parse_html) {
        lemma_source_nesting_of_run(events, i + 1, parse_html);
    }
}

/// The open elements behind two lists of events, one behind the other.
pub proof fn lemma_nest_concat(
    open: Seq<MarkdownTagEnd>,
    x: Seq<RangedModel>,
    y: Seq<RangedModel>,
)
    ensures
        nest_all(open, x + y) == (match nest_all(open, x) {
            Some(between) => nest_all(between, y),
            None => None,
        }),
    decreases y.len(),
{
    if y.len() == 0 {
        assert(x + y =~= x);
    } else {
        lemma_nest_concat(open, x, y.drop_last());
        assert((x + y).drop_last() =~= x + y.drop_last());
    }
}

proof fn lemma_nest_push(open: Seq<MarkdownTagEnd>, events: Seq<RangedModel>, e: RangedModel)
    ensures
        nest_all(open, events.push(e)) == (match nest_all(open, events) {
            Some(open) => nest(open, e.1),
            None => None,
        }),
{
    assert(events.push(e).drop_last() =~= events);
}

proof fn lemma_nest_pieces(open: Seq<MarkdownTagEnd>, b: Seq<u8>, pieces: Seq<PieceModel>)
    requires
        autolink::piece_events(b, pieces) is Some,
    ensures
        nest_all(open, autolink::piece_events(b, pieces)->0) == Some(open),
    decreases pieces.len(),
{
    if pieces.len() > 0 {
        lemma_nest_pieces(open, b, pieces.drop_last());
        let events = autolink::piece_events(b, pieces)->0;
        assert(events.drop_last() =~= autolink::piece_events(b, pieces.drop_last())->0);
    }
}

proof fn lemma_nest_link(
    open: Seq<MarkdownTagEnd>,
    range: Range<usize>,
    url: Seq<char>,
    inside: Seq<RangedModel>,
)
    requires
        nest_all(open.push(MarkdownTagEnd::Link), inside) == Some(
            open.push(MarkdownTagEnd::Link),
        ),
    ensures
        nest_all(open, autolink::link_events(range, url, inside)) == Some(open),
{
    let start = (range, EventModel::Start(autolink::autolink_tag(url)));
    let end = (range, EventModel::End(MarkdownTagEnd::Link));
    assert(seq![start] =~= Seq::empty().push(start));
    lemma_nest_push(open, Seq::empty(), start);
    lemma_nest_concat(open, seq![start], inside);
    assert(seq![start] + inside + seq![end] =~= (seq![start] + inside).push(end));
    lemma_nest_push(open, seq![start] + inside, end);
    assert(open.push(MarkdownTagEnd::Link).drop_last() =~= open);
}

/// The links of a run of text are balanced.
pub proof fn law_runs_are_balanced(
    open: Seq<MarkdownTagEnd>,
    b: Seq<u8>,
    pieces: Seq<PieceModel>,
    at: int,
    text: Seq<u8>,
    links: Seq<Range<usize>>,
)
    requires
        autolink::linked(b, pieces, at, text, links) is Some,
    ensures
        nest_all(open, autolink::linked(b, pieces, at, text, links)->0) == Some(open),
    decreases links.len(),
{
    if links.len() == 0 {
        lemma_nest_pieces(open, b, pieces);
    } else {
        let link = links[0];
        let url = crate::span::chars_of(text, link.start as int, link.end as int);
        let (before, at_link) = autolink::cut(b, pieces, link.start - at)->0;
        lemma_nest_pieces(open, b, before);
        if at_link.len() > 0 {
            let (inside, rest) = autolink::cut(b, at_link, link.end - link.start)->0;
            lemma_nest_pieces(open.push(MarkdownTagEnd::Link), b, inside);
            law_runs_are_balanced(open, b, rest, link.end as int, text, links.drop_first());
            let x = autolink::piece_events(b, before)->0;
            let y = autolink::piece_events(b, inside)->0;
            let z = autolink::linked(b, rest, link.end as int, text, links.drop_first())->0;
            let range = autolink::link_source(at_link, inside);
            let here = autolink::link_events(range, url, y);
            lemma_nest_link(open, range, url, y);
            lemma_nest_concat(open, x, here);
            lemma_nest_concat(open, x + here, z);
        }
    }
}

/// The open elements of a conversion are those of the parser, but for a metadata block that is left
/// out.
pub open spec fn nests_alike(
    events: Seq<RangedSourceModel>,
    options: ConvertOptions,
    i: int,
    f: Flow,
) -> bool {
    let hidden = f.within_metadata && !options.parse_metadata_blocks;
    let source = source_nesting(events, i);
    let here = nest_all(Seq::empty(), f.out);
    &&& source is Some
    &&& here is Some
    &&& f.within_html ==> (source->0).len() > 0 && (source->0).last() == MarkdownTagEnd::HtmlBlock
    &&& hidden ==> (source->0).len() > 0 && (source->0).last() is MetadataBlock && here->0
        == (source->0).drop_last()
    &&& !hidden ==> here->0 == source->0
    &&& !options.parse_metadata_blocks ==> forall|k: int|
        0 <= k < (here->0).len() ==> !((#[trigger] (here->0)[k]) is MetadataBlock)
}

proof fn lemma_run_nests_alike(
    b: Seq<u8>,
    events: Seq<RangedSourceModel>,
    options: ConvertOptions,
    html: Seq<usize>,
    i: int,
    f: Flow,
)
    requires
        0 <= i < events.len(),
        is_source_balanced(events),
        has_leaf_blocks(events),
        nests_alike(events, options, i, f),
        convert::step(b, events, options, html, i, f) is Some,
        events[i].0 is Text,
        !f.within_html,
        !f.within_metadata,
        !f.within_code_block,
    ensures
        ({
            let (g, next) = convert::step(b, events, options, html, i, f)->0;
            nests_alike(events, options, next, g)
        }),
{
    let (g, next) = convert::step(b, events, options, html, i, f)->0;
    let here = nest_all(Seq::empty(), f.out)->0;
    let end = convert::text_run_end(events, i + 1, options.parse_html);
    lemma_source_nesting_of_run(events, i + 1, options.parse_html);
    let pieces = convert::text_pieces(events, i, end);
    let text = autolink::merged(pieces);
    let links = if f.within_link {
        Seq::empty()
    } else {
        autolink::url_ranges(decode_utf8(text))
    };
    law_runs_are_balanced(here, b, pieces, 0, text, links);
    lemma_nest_concat(Seq::empty(), f.out, autolink::linked(b, pieces, 0, text, links)->0);
}

#[verifier::spinoff_prover]
#[verifier::rlimit(40)]
proof fn lemma_start_nests_alike(
    b: Seq<u8>,
    events: Seq<RangedSourceModel>,
    options: ConvertOptions,
    html: Seq<usize>,
    i: int,
    f: Flow,
)
    requires
        0 <= i < events.len(),
        is_source_balanced(events),
        has_leaf_blocks(events),
        nests_alike(events, options, i, f),
        convert::step(b, events, options, html, i, f) is Some,
        events[i].0 is Start,
    ensures
        ({
            let (g, next) = convert::step(b, events, options, html, i, f)->0;
            nests_alike(events, options, next, g)
        }),
{
    let (g, next) = convert::step(b, events, options, html, i, f)->0;
    let source = source_nesting(events, i)->0;
    let after = source_nesting(events, i + 1)->0;
    if g.out.len() == f.out.len() + 1 {
        let e = g.out.last();
        if g.out =~= f.out.push(e) {
            lemma_nest_push(Seq::empty(), f.out, e);
        }
    }
    if let SourceModel::Start(tag) = events[i].0 {
        assert(after == source.push(source_end_of(tag)));
        assert(after.drop_last() =~= source);
    }
}

#[verifier::spinoff_prover]
#[verifier::rlimit(40)]
proof fn lemma_other_nests_alike(
    b: Seq<u8>,
    events: Seq<RangedSourceModel>,
    options: ConvertOptions,
    html: Seq<usize>,
    i: int,
    f: Flow,
)
    requires
        0 <= i < events.len(),
        is_source_balanced(events),
        has_leaf_blocks(events),
        nests_alike(events, options, i, f),
        convert::step(b, events, options, html, i, f) is Some,
        !(events[i].0 is Start),
        !(events[i].0 is Text) || f.within_html || f.within_metadata || f.within_code_block,
    ensures
        ({
            let (g, next) = convert::step(b, events, options, html, i, f)->0;
            nests_alike(events, options, next, g)
        }),
{
    let (g, next) = convert::step(b, events, options, html, i, f)->0;
    let source = source_nesting(events, i)->0;
    let here = nest_all(Seq::empty(), f.out)->0;
    lemma_source_nesting(events, i + 1, events.len() as int);
    let after = source_nesting(events, i + 1)->0;
    let hidden = f.within_metadata && !options.parse_metadata_blocks;
    if g.out.len() == f.out.len() + 1 {
        let e = g.out.last();
        if g.out =~= f.out.push(e) {
            lemma_nest_push(Seq::empty(), f.out, e);
        }
    }
    if let SourceModel::End(tag) = events[i].0 {
        assert(source.last() == tag && after == source.drop_last());
        if !hidden {
            assert(here[here.len() - 1] == here.last());
        }
    }
}

/// One step of a conversion keeps the elements inside each other as those of the parser do.
pub proof fn lemma_step_nests_alike(
    b: Seq<u8>,
    events: Seq<RangedSourceModel>,
    options: ConvertOptions,
    html: Seq<usize>,
    i: int,
    f: Flow,
)
    requires
        0 <= i < events.len(),
        is_source_balanced(events),
        has_leaf_blocks(events),
        nests_alike(events, options, i, f),
        convert::step(b, events, options, html, i, f) is Some,
    ensures
        ({
            let (g, next) = convert::step(b, events, options, html, i, f)->0;
            nests_alike(events, options, next, g)
        }),
{
    if events[i].0 is Text && !f.within_html && !f.within_metadata && !f.within_code_block {
        lemma_run_nests_alike(b, events, options, html, i, f);
    } else if events[i].0 is Start {
        lemma_start_nests_alike(b, events, options, html, i, f);
    } else {
        lemma_other_nests_alike(b, events, options, html, i, f);
    }
}

/// The elements of a conversion lie inside each other as those of the parser do.
pub proof fn lemma_conversion_nests_alike(
    b: Seq<u8>,
    events: Seq<RangedSourceModel>,
    options: ConvertOptions,
    html: Seq<usize>,
    i: int,
    f: Flow,
)
    requires
        0 <= i <= events.len(),
        is_source_balanced(events),
        has_leaf_blocks(events),
        nests_alike(events, options, i, f),
        convert::converted(b, events, options, html, i, f) is Some,
    ensures
        nests_alike(
            events,
            options,
            events.len() as int,
            convert::converted(b, events, options, html, i, f)->0,
        ),
    decreases events.len() - i,
{
    if i < events.len() {
        convert::lemma_text_run_end(events, i + 1, options.parse_html);
        lemma_step_nests_alike(b, events, options, html, i, f);
        let (g, next) = convert::step(b, events, options, html, i, f)->0;
        lemma_conversion_nests_alike(b, events, options, html, next, g);
    }
}

/// Marks of root-level blocks do not change how elements lie inside each other.
pub proof fn lemma_grouped_nests_alike(events: Seq<RangedModel>)
    requires
        roots::unmarked(events),
    ensures
        nest_all(Seq::empty(), roots::grouped(events).events) == nest_all(Seq::empty(), events),
    decreases events.len(),
{
    if events.len() > 0 {
        let init = events.drop_last();
        let e = events.last();
        assert forall|i: int| 0 <= i < init.len() implies !roots::is_root_marker(
            (#[trigger] init[i]).1,
        ) by {
            assert(init[i] == events[i]);
        }
        lemma_grouped_nests_alike(init);
        assert(!roots::is_root_marker(events[events.len() - 1].1));
        let m = roots::grouped(init);
        let none = Seq::<MarkdownTagEnd>::empty();
        let start = (e.0, EventModel::RootStart);
        let ended = (e.0, EventModel::RootEnd((m.starts.len() - 1) as usize));
        let ruled = (e.0, EventModel::RootEnd(m.starts.len() as usize));
        lemma_nest_push(none, m.events, start);
        lemma_nest_push(none, m.events, e);
        lemma_nest_push(none, m.events.push(start), e);
        lemma_nest_push(none, m.events.push(e), ended);
        lemma_nest_push(none, m.events.push(start).push(e), ruled);
    } else {
        assert(roots::grouped(events).events =~= events);
    }
}

/// How many elements are open is what the grouping into root-level blocks has counted.
pub proof fn lemma_depth(events: Seq<RangedModel>)
    requires
        nest_all(Seq::empty(), events) is Some,
    ensures
        roots::grouped(events).depth == (nest_all(Seq::empty(), events)->0).len(),
    decreases events.len(),
{
    if events.len() > 0 {
        lemma_depth(events.drop_last());
    }
}

/// Whether a root-level block is open behind some events. `None` if one starts inside another, or
/// ends while none is open.
pub open spec fn root_open(events: Seq<RangedModel>) -> Option<bool>
    decreases events.len(),
{
    if events.len() == 0 {
        Some(false)
    } else {
        match (root_open(events.drop_last()), events.last().1) {
            (Some(open), EventModel::RootStart) => if open {
                None
            } else {
                Some(true)
            },
            (Some(open), EventModel::RootEnd(_)) => if open {
                Some(false)
            } else {
                None
            },
            (open, _) => open,
        }
    }
}

proof fn lemma_root_open_push(events: Seq<RangedModel>, e: RangedModel)
    ensures
        root_open(events.push(e)) == (match (root_open(events), e.1) {
            (Some(open), EventModel::RootStart) => if open {
                None
            } else {
                Some(true)
            },
            (Some(open), EventModel::RootEnd(_)) => if open {
                Some(false)
            } else {
                None
            },
            (open, _) => open,
        }),
{
    assert(events.push(e).drop_last() =~= events);
}

/// Grouping opens a root-level block only while none is open, and closes one only while one is: the
/// marks alternate. One is open exactly while an element is.
pub proof fn law_root_marks_alternate(events: Seq<RangedModel>)
    requires
        roots::unmarked(events),
    ensures
        root_open(roots::grouped(events).events) == Some(roots::grouped(events).depth > 0),
        roots::grouped(events).depth >= 0,
    decreases events.len(),
{
    if events.len() > 0 {
        let init = events.drop_last();
        let e = events.last();
        assert forall|i: int| 0 <= i < init.len() implies !roots::is_root_marker(
            (#[trigger] init[i]).1,
        ) by {
            assert(init[i] == events[i]);
        }
        law_root_marks_alternate(init);
        assert(!roots::is_root_marker(events[events.len() - 1].1));
        let m = roots::grouped(init);
        let start = (e.0, EventModel::RootStart);
        let ended = (e.0, EventModel::RootEnd((m.starts.len() - 1) as usize));
        let ruled = (e.0, EventModel::RootEnd(m.starts.len() as usize));
        lemma_root_open_push(m.events, start);
        lemma_root_open_push(m.events, e);
        lemma_root_open_push(m.events.push(start), e);
        lemma_root_open_push(m.events.push(e), ended);
        lemma_root_open_push(m.events.push(start).push(e), ruled);
    }
}

} // verus!
