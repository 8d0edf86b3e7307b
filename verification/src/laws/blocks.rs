//! The root-level blocks of a document: what they are, where they stand, and what they show.
use super::text;
use crate::block_text;
use crate::blocks;
use crate::blocks::RootBlockModel;
use crate::event::{CodeBlockKindModel, EventModel, RangedModel, TagModel};
use crate::layout;
use crate::parse;
use crate::preview::MarkdownLivePreviewBlockKind as Kind;
use crate::roots;
use crate::scan;
use crate::span;
use vstd::prelude::*;
use vstd::string::StringSliceAdditionalSpecFns;
use vstd::utf8::*;

verus! {

/// A root-level block is marked from `s` to `e`.
pub open spec fn is_marked(events: Seq<RangedModel>, s: int, e: int) -> bool {
    &&& 0 <= s < e < events.len()
    &&& events[s].1 is RootStart
    &&& events[e].1 is RootEnd
    &&& forall|k: int| s < k < e ==> !roots::is_root_marker((#[trigger] events[k]).1)
}

/// The block is what the events between two marks make.
pub open spec fn is_made_of(b: Seq<u8>, events: Seq<RangedModel>, root: RootBlockModel) -> bool {
    &&& is_marked(events, root.1.start - 1, root.1.end as int)
    &&& blocks::root_block(
        b,
        events.subrange(root.1.start as int, root.1.end as int),
        events[root.1.end as int].0.end,
    ) == Some(Some(root.0))
}

spec fn last_mark_opens(events: Seq<RangedModel>, n: int, s: int) -> bool {
    &&& 0 <= s < n
    &&& events[s].1 is RootStart
    &&& forall|k: int| s < k < n ==> !roots::is_root_marker((#[trigger] events[k]).1)
}

proof fn lemma_block_flow(b: Seq<u8>, events: Seq<RangedModel>, n: int)
    requires
        0 <= n <= events.len() <= usize::MAX,
        blocks::block_flow(b, events, n) is Some,
    ensures
        ({
            let f = blocks::block_flow(b, events, n)->0;
            &&& forall|s: int|
                #![trigger last_mark_opens(events, n, s)]
                last_mark_opens(events, n, s) ==> f.open == Some((s + 1) as usize)
            &&& f.open matches Some(start) ==> last_mark_opens(events, n, start - 1)
            &&& forall|k: int| 0 <= k < f.blocks.len() ==> is_made_of(b, events, #[trigger] f.blocks[k])
            &&& forall|k: int| 0 <= k < f.blocks.len() ==> (#[trigger] f.blocks[k]).1.end < n
        }),
    decreases n,
{
    if n > 0 {
        lemma_block_flow(b, events, n - 1);
        let g = blocks::block_flow(b, events, n - 1)->0;
        let f = blocks::block_flow(b, events, n)->0;
        assert forall|s: int| #[trigger] last_mark_opens(events, n, s) implies f.open == Some(
            (s + 1) as usize,
        ) by {
            if s < n - 1 {
                assert(last_mark_opens(events, n - 1, s));
                assert(!roots::is_root_marker(events[n - 1].1));
            }
        }
        if let Some(start) = f.open {
            if start < n {
                assert(last_mark_opens(events, n - 1, start - 1));
            }
            assert(last_mark_opens(events, n, start - 1));
        }
        assert forall|k: int| 0 <= k < f.blocks.len() implies is_made_of(
            b,
            events,
            #[trigger] f.blocks[k],
        ) && f.blocks[k].1.end < n by {
            if k < g.blocks.len() {
                assert(f.blocks[k] == g.blocks[k]);
            } else {
                let start = g.open->0;
                assert(last_mark_opens(events, n - 1, start - 1));
                assert(f.blocks[k].1 == (start..(n - 1) as usize));
            }
        }
    }
}

/// Each root-level block is made of the events between two marks. What is replaced between blocks
/// aside, it is what these events make.
pub proof fn law_blocks_are_made_of_marked_events(b: Seq<u8>, events: Seq<RangedModel>, k: int)
    requires
        events.len() <= usize::MAX,
        blocks::root_blocks(b, events) is Some,
        0 <= k < (blocks::root_blocks(b, events)->0).len(),
    ensures
        ({
            let (block, indices) = (blocks::root_blocks(b, events)->0)[k];
            let inner = events.subrange(indices.start as int, indices.end as int);
            &&& is_marked(events, indices.start - 1, indices.end as int)
            &&& blocks::root_block(b, inner, events[indices.end as int].0.end) matches Some(
                Some(made),
            ) && made.source_range == block.source_range && made.source == block.source
                && made.display_text == block.display_text && made.image_destination
                == block.image_destination && made.kind == block.kind
        }),
{
    lemma_block_flow(b, events, events.len() as int);
    let plain = (blocks::block_flow(b, events, events.len() as int)->0).blocks;
    let root = (blocks::root_blocks(b, events)->0)[k];
    assert(is_made_of(b, events, plain[k]));
    assert(root.1 == plain[k].1);
}

proof fn lemma_block_flow_keeps(b: Seq<u8>, events: Seq<RangedModel>, k: int, n: int)
    requires
        0 <= k <= n,
        blocks::block_flow(b, events, n) is Some,
    ensures
        blocks::block_flow(b, events, k) is Some,
        (blocks::block_flow(b, events, k)->0).blocks.is_prefix_of(
            (blocks::block_flow(b, events, n)->0).blocks,
        ),
    decreases n - k,
{
    let x = (blocks::block_flow(b, events, k)->0).blocks;
    let z = (blocks::block_flow(b, events, n)->0).blocks;
    if k < n {
        lemma_block_flow_keeps(b, events, k, n - 1);
        let y = (blocks::block_flow(b, events, n - 1)->0).blocks;
        assert(forall|i: int| 0 <= i < x.len() ==> x[i] == y[i]);
        assert(forall|i: int| 0 <= i < y.len() ==> y[i] == z[i]);
    }
    assert(x =~= z.subrange(0, x.len() as int));
}

/// Each pair of marks with something else than white space between them makes a block.
pub proof fn law_marked_events_make_blocks(b: Seq<u8>, events: Seq<RangedModel>, s: int, e: int)
    requires
        events.len() <= usize::MAX,
        blocks::root_blocks(b, events) is Some,
        is_marked(events, s, e),
        blocks::root_block(b, events.subrange(s + 1, e), events[e].0.end) != Some(
            None::<crate::preview::BlockModel>,
        ),
    ensures
        exists|k: int|
            0 <= k < (blocks::root_blocks(b, events)->0).len() && (#[trigger] (blocks::root_blocks(
                b,
                events,
            )->0)[k]).1 == ((s + 1) as usize..e as usize),
{
    let n = events.len() as int;
    lemma_block_flow_keeps(b, events, e + 1, n);
    lemma_block_flow_keeps(b, events, e, e + 1);
    lemma_block_flow(b, events, e);
    assert(last_mark_opens(events, e, s));
    let f = blocks::block_flow(b, events, e)->0;
    let g = blocks::block_flow(b, events, e + 1)->0;
    let all = (blocks::block_flow(b, events, n)->0).blocks;
    let k = f.blocks.len() as int;
    assert(g.blocks[k].1 == ((s + 1) as usize..e as usize));
    assert(all[k] == g.blocks[k]);
    assert((blocks::root_blocks(b, events)->0)[k].1 == ((s + 1) as usize..e as usize));
}

proof fn lemma_first_image(events: Seq<RangedModel>)
    ensures
        match blocks::first_image(events) {
            Some(url) => exists|k: int|
                0 <= k < events.len() && ((#[trigger] events[k]).1 matches EventModel::Start(
                    TagModel::Image { dest_url, .. },
                ) && dest_url == url) && forall|j: int|
                    0 <= j < k ==> !((#[trigger] events[j]).1 matches EventModel::Start(tag) && tag
                        is Image),
            None => forall|j: int|
                0 <= j < events.len() ==> !((#[trigger] events[j]).1 matches EventModel::Start(tag)
                    && tag is Image),
        },
    decreases events.len(),
{
    if events.len() > 0 {
        let rest = events.drop_first();
        lemma_first_image(rest);
        assert(forall|j: int| 0 <= j < rest.len() ==> #[trigger] rest[j] == events[j + 1]);
        let here = events[0].1 matches EventModel::Start(tag) && tag is Image;
        if here {
            assert(events[0].1 matches EventModel::Start(TagModel::Image { dest_url, .. })
                && Some(dest_url) == blocks::first_image(events));
        } else {
            match blocks::first_image(events) {
                Some(url) => {
                    let k = choose|k: int|
                        0 <= k < rest.len() && ((#[trigger] rest[k]).1 matches EventModel::Start(
                            TagModel::Image { dest_url, .. },
                        ) && dest_url == url) && forall|j: int|
                            0 <= j < k ==> !((#[trigger] rest[j]).1 matches EventModel::Start(tag)
                                && tag is Image);
                    assert(events[k + 1] == rest[k]);
                    assert forall|j: int| 0 <= j < k + 1 implies !((
                    #[trigger] events[j]).1 matches EventModel::Start(tag) && tag is Image) by {
                        if j > 0 {
                            assert(rest[j - 1] == events[j]);
                        }
                    }
                },
                None => {
                    assert forall|j: int| 0 <= j < events.len() implies !((
                    #[trigger] events[j]).1 matches EventModel::Start(tag) && tag is Image) by {
                        if j > 0 {
                            assert(rest[j - 1] == events[j]);
                        }
                    }
                },
            }
        }
    }
}

/// A block with an image in it is an image, whatever else is in it, and leads to the destination of
/// the first one. A block without one leads nowhere.
pub proof fn law_images_make_blocks_images(events: Seq<RangedModel>, k: int, url: Seq<char>)
    requires
        0 <= k < events.len(),
        events[k].1 matches EventModel::Start(TagModel::Image { dest_url, .. }) && dest_url == url,
        forall|j: int|
            0 <= j < k ==> !((#[trigger] events[j]).1 matches EventModel::Start(tag) && tag
                is Image),
    ensures
        blocks::block_kind(events) == Kind::Image,
        blocks::first_image(events) == Some(url),
{
    lemma_first_image(events);
}

/// The kind of block that an element makes of the block that starts with it.
pub open spec fn makes_kind(event: EventModel, kind: Kind) -> bool {
    match kind {
        Kind::Rule => event is Rule,
        Kind::Paragraph => event == EventModel::Start(TagModel::Paragraph),
        Kind::Heading(n) => event matches EventModel::Start(TagModel::Heading { level, .. }) && ((
        level is H1 && n == 1) || (level is H2 && n == 2) || (level is H3 && n == 3) || (level is H4
            && n == 4) || (level is H5 && n == 5) || (level is H6 && n == 6)),
        Kind::List => event matches EventModel::Start(tag) && tag is List,
        Kind::Item => event == EventModel::Start(TagModel::Item),
        Kind::BlockQuote => event matches EventModel::Start(tag) && tag is BlockQuote,
        Kind::Table => event matches EventModel::Start(tag) && tag is Table,
        Kind::CodeBlock { is_indented, is_mermaid } => event matches EventModel::Start(
            TagModel::CodeBlock { kind, .. },
        ) && is_indented == (kind is Indented) && is_mermaid == (kind matches
            CodeBlockKindModel::FencedLang(language) && scan::names_mermaid(
            encode_utf8(language),
        )),
        _ => false,
    }
}

/// Without an image in it, a block is what the first event of it says that says what it is: a rule,
/// a paragraph, a heading of its level, a list, an item, a block quote, a code block or a table.
pub proof fn law_blocks_are_what_they_start_with(events: Seq<RangedModel>, k: int, kind: Kind)
    requires
        0 <= k < events.len(),
        forall|j: int|
            0 <= j < events.len() ==> !((#[trigger] events[j]).1 matches EventModel::Start(tag)
                && tag is Image),
        makes_kind(events[k].1, kind),
        forall|j: int, other: Kind|
            0 <= j < k ==> !#[trigger] makes_kind(events[j].1, other),
    ensures
        blocks::block_kind(events) == kind,
{
    lemma_first_image(events);
    lemma_first_kind(events, k, kind);
}

proof fn lemma_first_kind(events: Seq<RangedModel>, k: int, kind: Kind)
    requires
        0 <= k < events.len(),
        makes_kind(events[k].1, kind),
        forall|j: int, other: Kind|
            0 <= j < k ==> !#[trigger] makes_kind(events[j].1, other),
    ensures
        blocks::first_kind(events) == kind,
    decreases events.len(),
{
    if k > 0 {
        let rest = events.drop_first();
        if let Some(other) = blocks::kind_of(events[0].1) {
            assert(makes_kind(events[0].1, other));
        }
        assert(rest[k - 1] == events[k]);
        assert forall|j: int, other: Kind| 0 <= j < k - 1 implies !#[trigger] makes_kind(
            rest[j].1,
            other,
        ) by {
            assert(rest[j] == events[j + 1]);
            assert(!makes_kind(events[j + 1].1, other));
        }
        lemma_first_kind(rest, k - 1, kind);
    }
}

/// A block is replaced as a whole exactly if it is an image, a code block, a table or a rule.
pub proof fn law_rich_kinds(kind: Kind)
    ensures
        crate::preview::rich(kind) <==> match kind {
            Kind::Image | Kind::CodeBlock { .. } | Kind::Table | Kind::Rule => true,
            Kind::Paragraph
            | Kind::Heading(_)
            | Kind::List
            | Kind::Item
            | Kind::BlockQuote
            | Kind::Other => false,
        },
{
}

/// The text is what the event adds to what its block shows: text and code as they stand in the
/// source, substituted text as it is, a new line for a break, a box, or dashes for a rule.
pub open spec fn adds(b: Seq<u8>, event: RangedModel, shown: Seq<char>) -> bool {
    match event.1 {
        EventModel::Text | EventModel::Code => span::is_slice(
            b,
            event.0.start as int,
            event.0.end as int,
        ) && b.subrange(event.0.start as int, event.0.end as int) == encode_utf8(shown),
        EventModel::SubstitutedText(substituted) => shown == substituted,
        EventModel::SoftBreak | EventModel::HardBreak => shown == "\n"@,
        EventModel::TaskListMarker(checked) => shown == (if checked {
            "[x] "@
        } else {
            "[ ] "@
        }),
        EventModel::Rule => shown == "---"@,
        _ => shown == ""@,
    }
}

/// The texts, one directly behind the other.
pub open spec fn run_together(texts: Seq<Seq<char>>) -> Seq<char>
    decreases texts.len(),
{
    if texts.len() == 0 {
        Seq::empty()
    } else {
        run_together(texts.drop_last()) + texts.last()
    }
}

/// No code block starts among the events.
pub open spec fn has_no_code_block(events: Seq<RangedModel>) -> bool {
    forall|k: int|
        0 <= k < events.len() ==> !((#[trigger] events[k]).1 matches EventModel::Start(tag) && tag
            is CodeBlock)
}

/// There is no first code block where there is none.
pub proof fn lemma_no_code_block(events: Seq<RangedModel>)
    requires
        has_no_code_block(events),
    ensures
        block_text::first_code_block(events) is None,
    decreases events.len(),
{
    if events.len() > 0 {
        let rest = events.drop_first();
        assert forall|k: int| 0 <= k < rest.len() implies !((
        #[trigger] rest[k]).1 matches EventModel::Start(tag) && tag is CodeBlock) by {
            assert(rest[k] == events[k + 1]);
        }
        assert(!(events[0].1 matches EventModel::Start(tag) && tag is CodeBlock));
        lemma_no_code_block(rest);
    }
}

proof fn lemma_shown(b: Seq<u8>, event: RangedModel, shown: Seq<char>)
    requires
        adds(b, event, shown),
    ensures
        block_text::shown_in_block(b, event) == Some(shown),
{
    reveal_strlit("\n");
    reveal_strlit("[x] ");
    reveal_strlit("[ ] ");
    reveal_strlit("---");
    reveal_strlit("");
    encode_utf8_decode_utf8(shown);
    match event.1 {
        EventModel::SoftBreak | EventModel::HardBreak => {
            assert(shown =~= seq!['\n']);
        },
        EventModel::TaskListMarker(checked) => {
            assert(shown =~= seq!['[', if checked { 'x' } else { ' ' }, ']', ' ']);
        },
        EventModel::Rule => {
            assert(shown =~= seq!['-', '-', '-']);
        },
        EventModel::Text | EventModel::Code | EventModel::SubstitutedText(_) => {},
        _ => {
            assert(shown =~= Seq::empty());
        },
    }
}

/// What events add, run together, is what they show.
pub proof fn lemma_all_shown(b: Seq<u8>, events: Seq<RangedModel>, texts: Seq<Seq<char>>)
    requires
        texts.len() == events.len(),
        forall|k: int| 0 <= k < events.len() ==> adds(b, #[trigger] events[k], texts[k]),
    ensures
        block_text::all_shown_in_block(b, events) == Some(run_together(texts)),
    decreases events.len(),
{
    if events.len() > 0 {
        let init = events.drop_last();
        assert forall|k: int| 0 <= k < init.len() implies adds(
            b,
            #[trigger] init[k],
            texts.drop_last()[k],
        ) by {
            assert(init[k] == events[k]);
        }
        lemma_all_shown(b, init, texts.drop_last());
        assert(adds(b, events[events.len() - 1], texts[texts.len() - 1]));
        lemma_shown(b, events.last(), texts.last());
    }
}

/// A block that is neither a list nor holds code shows what its events add, run together, without
/// the white space at its ends.
pub proof fn law_blocks_show_what_their_events_add(
    b: Seq<u8>,
    events: Seq<RangedModel>,
    kind: Kind,
    texts: Seq<Seq<char>>,
    pre: Seq<char>,
    shown: Seq<char>,
    post: Seq<char>,
)
    requires
        !(kind is List),
        !(kind is Item),
        has_no_code_block(events),
        texts.len() == events.len(),
        forall|k: int| 0 <= k < events.len() ==> adds(b, #[trigger] events[k], texts[k]),
        run_together(texts) == pre + shown + post,
        text::all_blank(pre),
        text::all_blank(post),
        shown.len() == 0 || text::is_trim(shown),
    ensures
        block_text::block_text(b, events, kind) == Some(shown),
{
    lemma_no_code_block(events);
    lemma_all_shown(b, events, texts);
    let all = run_together(texts);
    let t = encode_utf8(all);
    encode_utf8_valid_utf8(all);
    encode_utf8_decode_utf8(all);
    assert(t.subrange(0, t.len() as int) =~= t);
    if shown.len() > 0 {
        text::law_trimming_keeps_what_is_between(t, 0, t.len() as int, pre, shown, post);
    } else {
        assert forall|k: int| 0 <= k < all.len() implies text::is_blank(#[trigger] all[k]) by {
            if k < pre.len() {
                assert(all[k] == pre[k]);
            } else {
                assert(all[k] == post[k - pre.len()]);
            }
        }
        text::law_trimming_takes_white_space_off(t, 0, t.len() as int);
        let (i, j) = scan::trimmed(t, 0, t.len() as int);
        text::lemma_chars_empty(t, i, j);
        assert(span::chars_of(t, i, j) =~= shown);
    }
}

/// The same, of the blocks of a document.
pub proof fn law_root_blocks_show_what_their_events_add(
    b: Seq<u8>,
    events: Seq<RangedModel>,
    k: int,
    texts: Seq<Seq<char>>,
    pre: Seq<char>,
    shown: Seq<char>,
    post: Seq<char>,
)
    requires
        events.len() <= usize::MAX,
        blocks::root_blocks(b, events) is Some,
        0 <= k < (blocks::root_blocks(b, events)->0).len(),
        ({
            let (block, indices) = (blocks::root_blocks(b, events)->0)[k];
            let inner = events.subrange(indices.start as int, indices.end as int);
            &&& !(block.kind is List)
            &&& !(block.kind is Item)
            &&& has_no_code_block(inner)
            &&& texts.len() == inner.len()
            &&& forall|i: int| 0 <= i < inner.len() ==> adds(b, #[trigger] inner[i], texts[i])
        }),
        run_together(texts) == pre + shown + post,
        text::all_blank(pre),
        text::all_blank(post),
        shown.len() == 0 || text::is_trim(shown),
    ensures
        (blocks::root_blocks(b, events)->0)[k].0.display_text == shown,
{
    law_blocks_are_made_of_marked_events(b, events, k);
    let (block, indices) = (blocks::root_blocks(b, events)->0)[k];
    let inner = events.subrange(indices.start as int, indices.end as int);
    law_blocks_show_what_their_events_add(b, inner, block.kind, texts, pre, shown, post);
}

/// `first` is the least start of the events, and `last` the greatest end of them or `end`.
pub open spec fn extend_from_to(events: Seq<RangedModel>, end: usize, first: usize, last: usize) -> bool {
    &&& exists|k: int| 0 <= k < events.len() && (#[trigger] events[k]).0.start == first
    &&& last == end || exists|k: int| 0 <= k < events.len() && (#[trigger] events[k]).0.end == last
    &&& end <= last
    &&& forall|k: int|
        0 <= k < events.len() ==> first <= (#[trigger] events[k]).0.start && events[k].0.end <= last
}

/// The source of a block is what its events extend over, without white space at its ends. A code
/// block starts with the line of its first event instead.
pub proof fn law_blocks_extend_over_their_events(
    b: Seq<u8>,
    events: Seq<RangedModel>,
    k: int,
    first: usize,
    last: usize,
)
    requires
        valid_utf8(b),
        b.len() <= usize::MAX,
        events.len() <= usize::MAX,
        blocks::root_blocks(b, events) is Some,
        0 <= k < (blocks::root_blocks(b, events)->0).len(),
        ({
            let indices = (blocks::root_blocks(b, events)->0)[k].1;
            extend_from_to(
                events.subrange(indices.start as int, indices.end as int),
                events[indices.end as int].0.end,
                first,
                last,
            )
        }),
    ensures
        ({
            let block = (blocks::root_blocks(b, events)->0)[k].0;
            let s = block.source_range.start as int;
            let e = block.source_range.end as int;
            &&& span::is_slice(b, s, e) && s < e
            &&& block.source == span::chars_of(b, s, e)
            &&& !text::is_blank(block.source.last())
            &&& span::is_slice(b, e, last as int)
            &&& text::all_blank(span::chars_of(b, e, last as int))
            &&& !(block.kind is CodeBlock) ==> span::is_slice(b, first as int, s)
                && text::all_blank(span::chars_of(b, first as int, s)) && !text::is_blank(
                block.source[0],
            )
            &&& block.kind is CodeBlock ==> s <= first && (s == 0 || b[s - 1] == '\n' as u8)
                && text::is_without(b, '\n', s, first as int)
        }),
{
    law_blocks_are_made_of_marked_events(b, events, k);
    let (block, indices) = (blocks::root_blocks(b, events)->0)[k];
    let inner = events.subrange(indices.start as int, indices.end as int);
    let end = events[indices.end as int].0.end;
    super::markers::lemma_extremes(inner);
    let x = choose|i: int|
        0 <= i < inner.len() && (#[trigger] inner[i]).0.start == blocks::min_start(inner);
    let y = choose|i: int|
        0 <= i < inner.len() && (#[trigger] inner[i]).0.end == blocks::max_end(inner);
    assert(inner[x].0.start == first);
    assert(blocks::min_start(inner) == first);
    assert(inner[y].0.end <= last);
    let to = if blocks::max_end(inner) > end {
        blocks::max_end(inner) as int
    } else {
        end as int
    };
    assert(to == last);
    let is_code = block.kind is CodeBlock;
    let from = if is_code {
        span::line_start(b, first as int)
    } else {
        first as int
    };
    if is_code {
        span::lemma_line_start(b, first as int);
        lemma_line_start(b, first as int);
    }
    assert(from < to);
    let s = if is_code {
        from
    } else {
        span::skip_white(b, from, to)
    };
    text::law_leading_white_space_is_skipped(b, from, to);
    text::law_trailing_white_space_is_skipped(b, s, to);
    let e = span::skip_white_back(b, s, to);
    if !is_code {
        text::lemma_chars_concat(b, s, e, to);
        text::lemma_chars_empty(b, s, e);
        assert((span::chars_of(b, s, e) + span::chars_of(b, e, to))[0] == span::chars_of(
            b,
            s,
            e,
        )[0]);
    }
}

proof fn lemma_line_start(b: Seq<u8>, i: int)
    requires
        0 <= i,
    ensures
        0 <= span::line_start(b, i) <= i,
        span::line_start(b, i) == 0 || b[span::line_start(b, i) - 1] == 10,
        text::is_without(b, '\n', span::line_start(b, i), i),
    decreases i,
{
    if i > 0 && b[i - 1] != 10 {
        lemma_line_start(b, i - 1);
    }
}

/// Of white space between two blocks all but the last character is replaced with the first block.
/// Where there is something else between them, or nothing, a block is replaced as far as its source
/// reaches; and so is the last block.
pub proof fn law_white_space_between_blocks_is_replaced(b: Seq<u8>, events: Seq<RangedModel>, k: int)
    requires
        valid_utf8(b),
        b.len() <= usize::MAX,
        events.len() <= usize::MAX,
        blocks::root_blocks(b, events) is Some,
        0 <= k < (blocks::root_blocks(b, events)->0).len(),
    ensures
        ({
            let all = blocks::root_blocks(b, events)->0;
            let block = all[k].0;
            let from = block.source_range.end as int;
            let to = all[k + 1].0.source_range.start as int;
            let end = block.replacement_range.end as int;
            &&& block.replacement_range.start == block.source_range.start
            &&& k + 1 == all.len() ==> end == from
            &&& k + 1 < all.len() && (from == to || !text::all_blank(span::chars_of(b, from, to)))
                ==> end == from
            &&& k + 1 < all.len() && from < to && text::all_blank(span::chars_of(b, from, to))
                ==> from <= end < to && span::is_slice(b, end, to) && span::chars_of(
                b,
                end,
                to,
            ).len() == 1
        }),
{
    blocks::law_blocks_are_apart(b, events);
    blocks::lemma_blocks_are_sound(b, events, events.len() as int);
    let plain = (blocks::block_flow(b, events, events.len() as int)->0).blocks;
    let all = blocks::root_blocks(b, events)->0;
    assert(blocks::is_sound(b, all[k].0));
    assert(blocks::is_sound(b, plain[k].0));
    if k + 1 < all.len() {
        let from = plain[k].0.source_range.end as int;
        let to = plain[k + 1].0.source_range.start as int;
        assert(all[k].0.source_range == plain[k].0.source_range);
        assert(all[k + 1].0.source_range == plain[k + 1].0.source_range);
        assert(span::is_slice(b, from, to));
        text::law_leading_white_space_is_skipped(b, from, to);
        let skipped = span::skip_white(b, from, to);
        if from < to {
            text::lemma_chars_concat(b, from, skipped, to);
            if skipped < to {
                let chars = span::chars_of(b, from, to);
                let n = span::chars_of(b, from, skipped).len() as int;
                assert(chars[n] == span::chars_of(b, skipped, to)[0]);
            }
            span::lemma_previous_scalar(b, to);
            let p = span::previous_start(b, to);
            if p < from {
                assert(is_continuation_byte(b[from]));
            }
            text::lemma_chars_step(b, p, to);
            text::lemma_chars_empty(b, to, to);
        }
    }
}

/// A block in which nothing says what it is is of no kind of its own.
pub proof fn law_other_blocks(events: Seq<RangedModel>)
    requires
        forall|j: int|
            0 <= j < events.len() ==> !((#[trigger] events[j]).1 matches EventModel::Start(tag)
                && tag is Image),
        forall|j: int, kind: Kind|
            0 <= j < events.len() ==> !#[trigger] makes_kind(events[j].1, kind),
    ensures
        blocks::block_kind(events) == Kind::Other,
        blocks::first_image(events) is None,
{
    lemma_first_image(events);
    lemma_no_kind(events);
}

proof fn lemma_no_kind(events: Seq<RangedModel>)
    requires
        forall|j: int, kind: Kind|
            0 <= j < events.len() ==> !#[trigger] makes_kind(events[j].1, kind),
    ensures
        blocks::first_kind(events) == Kind::Other,
    decreases events.len(),
{
    if events.len() > 0 {
        let rest = events.drop_first();
        if let Some(kind) = blocks::kind_of(events[0].1) {
            assert(makes_kind(events[0].1, kind));
        }
        assert forall|j: int, kind: Kind| 0 <= j < rest.len() implies !#[trigger] makes_kind(
            rest[j].1,
            kind,
        ) by {
            assert(rest[j] == events[j + 1]);
            assert(!makes_kind(events[j + 1].1, kind));
        }
        lemma_no_kind(rest);
    }
}

proof fn lemma_not_blank(b: Seq<u8>, from: int, first: int, last: int)
    requires
        valid_utf8(b),
        span::is_slice(b, from, first),
        span::is_slice(b, first, last),
        !text::all_blank(span::chars_of(b, first, last)),
    ensures
        from < last,
        from < span::skip_white_back(b, from, last),
        span::skip_white(b, first, last) < span::skip_white_back(
            b,
            span::skip_white(b, first, last),
            last,
        ),
{
    text::lemma_chars_concat(b, from, first, last);
    let c = choose|c: int|
        0 <= c < span::chars_of(b, first, last).len() && !text::is_blank(
            span::chars_of(b, first, last)[c],
        );
    let n = span::chars_of(b, from, first).len() as int;
    assert(span::chars_of(b, from, last)[n + c] == span::chars_of(b, first, last)[c]);
    text::lemma_chars_empty(b, from, last);
    text::law_trailing_white_space_is_skipped(b, from, last);
    assert(!text::all_blank(span::chars_of(b, from, last)));
    let s = span::skip_white(b, first, last);
    text::law_leading_white_space_is_skipped(b, first, last);
    text::lemma_chars_concat(b, first, s, last);
    if s == last {
        text::lemma_chars_empty(b, last, last);
        assert(span::chars_of(b, first, last) =~= span::chars_of(b, first, s));
    }
    text::law_trailing_white_space_is_skipped(b, s, last);
    assert(!text::all_blank(span::chars_of(b, s, last))) by {
        assert(!text::is_blank(span::chars_of(b, s, last)[0]));
    }
}

/// Each pair of marks makes a block, if there is anything but white space in what its events extend
/// over.
pub proof fn law_no_block_is_left_out(
    b: Seq<u8>,
    events: Seq<RangedModel>,
    s: int,
    e: int,
    first: usize,
    last: usize,
)
    requires
        valid_utf8(b),
        b.len() <= usize::MAX,
        events.len() <= usize::MAX,
        blocks::root_blocks(b, events) is Some,
        is_marked(events, s, e),
        extend_from_to(events.subrange(s + 1, e), events[e].0.end, first, last),
        span::is_slice(b, first as int, last as int),
        !text::all_blank(span::chars_of(b, first as int, last as int)),
    ensures
        exists|k: int|
            0 <= k < (blocks::root_blocks(b, events)->0).len() && (#[trigger] (blocks::root_blocks(
                b,
                events,
            )->0)[k]).1 == ((s + 1) as usize..e as usize),
{
    let inner = events.subrange(s + 1, e);
    let end = events[e].0.end;
    super::markers::lemma_extremes(inner);
    let x = choose|i: int|
        0 <= i < inner.len() && (#[trigger] inner[i]).0.start == blocks::min_start(inner);
    let y = choose|i: int|
        0 <= i < inner.len() && (#[trigger] inner[i]).0.end == blocks::max_end(inner);
    assert(inner[x].0.start == first);
    assert(inner[y].0.end <= last);
    assert(blocks::min_start(inner) == first);
    lemma_line_start(b, first as int);
    let line = span::line_start(b, first as int);
    if line > 0 && line < first {
        span::lemma_ascii_boundary(b, line - 1);
    }
    lemma_not_blank(b, line, first as int, last as int);
    lemma_not_blank(b, first as int, first as int, last as int);
    law_marked_events_make_blocks(b, events, s, e);
}

/// Each block of a document is of the kind that its events make, leads where the first image among
/// them leads, and shows the text that they make for that kind.
pub proof fn law_root_blocks_are_what_their_events_make(b: Seq<u8>, events: Seq<RangedModel>, k: int)
    requires
        events.len() <= usize::MAX,
        blocks::root_blocks(b, events) is Some,
        0 <= k < (blocks::root_blocks(b, events)->0).len(),
    ensures
        ({
            let (block, indices) = (blocks::root_blocks(b, events)->0)[k];
            let inner = events.subrange(indices.start as int, indices.end as int);
            &&& block.kind == blocks::block_kind(inner)
            &&& block.image_destination == blocks::first_image(inner)
            &&& block_text::block_text(b, inner, block.kind) == Some(block.display_text)
            &&& block.image_destination is Some <==> block.kind == Kind::Image
        }),
{
    law_blocks_are_made_of_marked_events(b, events, k);
    let (block, indices) = (blocks::root_blocks(b, events)->0)[k];
    let inner = events.subrange(indices.start as int, indices.end as int);
    lemma_first_image(inner);
    lemma_kind_is_no_image(inner);
}

proof fn lemma_kind_is_no_image(events: Seq<RangedModel>)
    ensures
        blocks::first_kind(events) != Kind::Image,
    decreases events.len(),
{
    if events.len() > 0 {
        lemma_kind_is_no_image(events.drop_first());
    }
}

/// A live preview is that of the document that a text makes where neither HTML nor headings nor
/// metadata are of interest. It has the blocks of that document, and its layout.
pub proof fn law_live_previews_are_of_plain_documents(text: &str)
    ensures
        layout::preview_events(text) == (match parse::parsed(
            text,
            false,
            false,
            false,
            Seq::empty(),
        ) {
            Some(document) => Some(document.events),
            None => None,
        }),
        layout::preview_layout(text) is Some ==> layout::preview_blocks(text) is Some
            && layout::preview_layout(text) == layout::layout(
            text.spec_bytes(),
            layout::preview_events(text)->0,
        ),
        layout::preview_blocks(text) is Some ==> ({
            let shown = layout::preview_blocks(text)->0;
            let made = blocks::root_blocks(text.spec_bytes(), layout::preview_events(text)->0);
            &&& made is Some
            &&& shown.len() == (made->0).len()
            &&& forall|k: int| 0 <= k < shown.len() ==> #[trigger] shown[k] == (made->0)[k].0
        }),
{
}

} // verus!
