//! The links that bare URLs in text become.
use crate::autolink;
use crate::autolink::PieceModel;
use crate::event::{EventModel, MarkdownTagEnd, RangedModel, TagModel};
use crate::span;
use pulldown_cmark::LinkType;
use std::ops::Range;
use vstd::prelude::*;
use vstd::utf8::*;

verus! {

/// The event is text, as the source has it or not.
pub open spec fn is_text(event: EventModel) -> bool {
    event is Text || event is SubstitutedText
}

/// The event starts a link.
pub open spec fn starts_link(event: EventModel) -> bool {
    event matches EventModel::Start(tag) && tag is Link
}

/// From `s` to `t` stands a link to the URL with nothing but text in it.
pub open spec fn is_link_to(out: Seq<RangedModel>, s: int, t: int, url: Seq<char>) -> bool {
    &&& 0 <= s < t < out.len()
    &&& out[s].1 == EventModel::Start(
        TagModel::Link {
            link_type: LinkType::Autolink,
            dest_url: url,
            title: ""@,
            id: ""@,
        },
    )
    &&& out[t].1 == EventModel::End(MarkdownTagEnd::Link)
    &&& out[t].0 == out[s].0
    &&& forall|k: int| s < k < t ==> is_text((#[trigger] out[k]).1)
}

/// Whether a link is open behind the events, if `open` says whether one is before them. `None` if a
/// link starts inside another one.
pub open spec fn link_flow(open: bool, out: Seq<RangedModel>) -> Option<bool>
    decreases out.len(),
{
    if out.len() == 0 {
        Some(open)
    } else {
        match link_flow(open, out.drop_last()) {
            None => None,
            Some(open) => if starts_link(out.last().1) {
                if open {
                    None
                } else {
                    Some(true)
                }
            } else if out.last().1 == EventModel::End(MarkdownTagEnd::Link) {
                Some(false)
            } else {
                Some(open)
            },
        }
    }
}

/// Links behind one more event.
pub proof fn lemma_link_flow_push(out: Seq<RangedModel>, e: RangedModel)
    ensures
        link_flow(false, out.push(e)) == (match link_flow(false, out) {
            None => None,
            Some(open) => if starts_link(e.1) {
                if open {
                    None
                } else {
                    Some(true)
                }
            } else if e.1 == EventModel::End(MarkdownTagEnd::Link) {
                Some(false)
            } else {
                Some(open)
            },
        }),
{
    assert(out.push(e).drop_last() =~= out);
}

/// Links in one list of events and in another one behind it.
pub proof fn lemma_link_flow_concat(open: bool, x: Seq<RangedModel>, y: Seq<RangedModel>)
    ensures
        link_flow(open, x + y) == (match link_flow(open, x) {
            Some(between) => link_flow(between, y),
            None => None,
        }),
    decreases y.len(),
{
    if y.len() == 0 {
        assert(x + y =~= x);
    } else {
        lemma_link_flow_concat(open, x, y.drop_last());
        assert((x + y).drop_last() =~= x + y.drop_last());
    }
}

/// Events without the start or the end of a link leave links as they are.
pub proof fn lemma_link_flow_of_text(open: bool, out: Seq<RangedModel>)
    requires
        forall|k: int|
            0 <= k < out.len() ==> !starts_link((#[trigger] out[k]).1) && out[k].1
                != EventModel::End(MarkdownTagEnd::Link),
    ensures
        link_flow(open, out) == Some(open),
    decreases out.len(),
{
    if out.len() > 0 {
        let init = out.drop_last();
        assert forall|k: int| 0 <= k < init.len() implies !starts_link((#[trigger] init[k]).1)
            && init[k].1 != EventModel::End(MarkdownTagEnd::Link) by {
            assert(init[k] == out[k]);
        }
        lemma_link_flow_of_text(open, init);
        assert(out[out.len() - 1] == out.last());
    }
}

/// Where no link starts inside another one, between the starts of two links there is the end of one.
pub proof fn lemma_links_end_before_others(out: Seq<RangedModel>, s: int, m: int)
    requires
        link_flow(false, out) is Some,
        0 <= s < m < out.len(),
        starts_link(out[s].1),
        starts_link(out[m].1),
    ensures
        exists|e: int| s < e < m && (#[trigger] out[e]).1 == EventModel::End(MarkdownTagEnd::Link),
    decreases out.len(),
{
    let init = out.drop_last();
    if m < init.len() {
        lemma_links_end_before_others(init, s, m);
        let e = choose|e: int|
            s < e < m && (#[trigger] init[e]).1 == EventModel::End(MarkdownTagEnd::Link);
        assert(out[e] == init[e]);
    } else {
        lemma_link_open(init, s);
        let e = choose|e: int|
            s < e < init.len() && (#[trigger] init[e]).1 == EventModel::End(MarkdownTagEnd::Link);
        assert(out[e] == init[e]);
    }
}

proof fn lemma_link_open(out: Seq<RangedModel>, s: int)
    requires
        0 <= s < out.len(),
        starts_link(out[s].1),
        link_flow(false, out) == Some(false),
    ensures
        exists|e: int|
            s < e < out.len() && (#[trigger] out[e]).1 == EventModel::End(MarkdownTagEnd::Link),
    decreases out.len(),
{
    if out.last().1 == EventModel::End(MarkdownTagEnd::Link) {
        if s < out.len() - 1 {
            assert(out[out.len() - 1].1 == EventModel::End(MarkdownTagEnd::Link));
        }
    } else if s < out.len() - 1 {
        let init = out.drop_last();
        lemma_link_open(init, s);
        let e = choose|e: int|
            s < e < init.len() && (#[trigger] init[e]).1 == EventModel::End(MarkdownTagEnd::Link);
        assert(out[e] == init[e]);
    }
}

proof fn lemma_pieces_give_text(b: Seq<u8>, pieces: Seq<PieceModel>)
    requires
        autolink::piece_events(b, pieces) is Some,
    ensures
        forall|k: int|
            0 <= k < (autolink::piece_events(b, pieces)->0).len() ==> is_text(
                (#[trigger] (autolink::piece_events(b, pieces)->0)[k]).1,
            ),
    decreases pieces.len(),
{
    if pieces.len() > 0 {
        lemma_pieces_give_text(b, pieces.drop_last());
    }
}

/// Text inside a link is put out as text, whatever URLs are in it.
pub proof fn law_text_in_links_is_not_linked(b: Seq<u8>, pieces: Seq<PieceModel>, k: int)
    requires
        autolink::text_run_events(b, pieces, true) is Some,
        0 <= k < (autolink::text_run_events(b, pieces, true)->0).len(),
    ensures
        is_text((autolink::text_run_events(b, pieces, true)->0)[k].1),
{
    lemma_pieces_give_text(b, pieces);
}

/// The links of a run of text lie apart, and all of them have ended behind it.
pub proof fn lemma_run_links_lie_apart(
    b: Seq<u8>,
    pieces: Seq<PieceModel>,
    at: int,
    text: Seq<u8>,
    links: Seq<Range<usize>>,
)
    requires
        autolink::linked(b, pieces, at, text, links) is Some,
    ensures
        link_flow(false, autolink::linked(b, pieces, at, text, links)->0) == Some(false),
    decreases links.len(),
{
    if links.len() == 0 {
        lemma_pieces_give_text(b, pieces);
        lemma_link_flow_of_text(false, autolink::piece_events(b, pieces)->0);
    } else {
        let link = links[0];
        let url = span::chars_of(text, link.start as int, link.end as int);
        let (before, at_link) = autolink::cut(b, pieces, link.start - at)->0;
        let x = autolink::piece_events(b, before)->0;
        lemma_pieces_give_text(b, before);
        lemma_link_flow_of_text(false, x);
        if at_link.len() > 0 {
            let (inside, rest) = autolink::cut(b, at_link, link.end - link.start)->0;
            let y = autolink::piece_events(b, inside)->0;
            let z = autolink::linked(b, rest, link.end as int, text, links.drop_first())->0;
            lemma_run_links_lie_apart(b, rest, link.end as int, text, links.drop_first());
            lemma_pieces_give_text(b, inside);
            lemma_link_flow_of_text(true, y);
            let range = autolink::link_source(at_link, inside);
            let here = autolink::link_events(range, url, y);
            let start = (range, EventModel::Start(autolink::autolink_tag(url)));
            let end = (range, EventModel::End(MarkdownTagEnd::Link));
            assert(seq![start].drop_last() =~= Seq::empty());
            assert(link_flow(false, seq![start]) == Some(true)) by {
                reveal_with_fuel(link_flow, 2);
            }
            lemma_link_flow_concat(false, seq![start], y);
            assert((seq![start] + y + seq![end]).drop_last() =~= seq![start] + y);
            assert(link_flow(false, here) == Some(false));
            lemma_link_flow_concat(false, x, here);
            lemma_link_flow_concat(false, x + here, z);
        }
    }
}

proof fn lemma_cut_len(b: Seq<u8>, pieces: Seq<PieceModel>, n: int)
    requires
        autolink::cut(b, pieces, n) is Some,
        0 <= n <= autolink::merged(pieces).len(),
    ensures
        autolink::merged((autolink::cut(b, pieces, n)->0).0).len() == n,
        n < autolink::merged(pieces).len() ==> (autolink::cut(b, pieces, n)->0).1.len() > 0,
    decreases pieces.len(),
{
    if pieces.len() > 0 {
        let p = pieces[0];
        let rest = pieces.drop_first();
        assert(pieces =~= seq![p] + rest);
        autolink::lemma_merged_concat(seq![p], rest);
        autolink::lemma_merged_one(p);
        if p.parsed.len() <= n {
            lemma_cut_len(b, rest, n - p.parsed.len());
            let (head, tail) = autolink::cut(b, rest, n - p.parsed.len())->0;
            autolink::lemma_merged_concat(seq![p], head);
        } else if n > 0 {
            autolink::lemma_merged_one(autolink::cut_head(p, n));
        }
    }
}

/// Each URL in a run of text becomes a link to it, with the URL as its text.
pub proof fn law_urls_become_links(
    b: Seq<u8>,
    pieces: Seq<PieceModel>,
    at: int,
    text: Seq<u8>,
    links: Seq<Range<usize>>,
    u: int,
)
    requires
        autolink::all_valid(pieces),
        autolink::linked(b, pieces, at, text, links) is Some,
        autolink::are_links(text, links),
        0 <= at <= text.len(),
        autolink::merged(pieces) == text.subrange(at, text.len() as int),
        links.len() > 0 ==> at <= links[0].start,
        0 <= u < links.len(),
    ensures
        ({
            let out = autolink::linked(b, pieces, at, text, links)->0;
            let url = text.subrange(links[u].start as int, links[u].end as int);
            exists|s: int, t: int|
                #[trigger] is_link_to(out, s, t, decode_utf8(url)) && autolink::all_shown(
                    b,
                    out.subrange(s + 1, t),
                ) == url
        }),
    decreases links.len(),
{
    let out = autolink::linked(b, pieces, at, text, links)->0;
    let link = links[0];
    let url = span::chars_of(text, link.start as int, link.end as int);
    autolink::lemma_cut_keeps_text(b, pieces, link.start - at);
    lemma_cut_len(b, pieces, link.start - at);
    let (before, at_link) = autolink::cut(b, pieces, link.start - at)->0;
    let left = text.subrange(at, text.len() as int);
    assert(autolink::merged(at_link) =~= left.subrange(link.start - at, left.len() as int));
    assert(autolink::merged(at_link) =~= text.subrange(link.start as int, text.len() as int));
    autolink::lemma_cut_keeps_text(b, at_link, link.end - link.start);
    lemma_cut_len(b, at_link, link.end - link.start);
    let (inside, rest) = autolink::cut(b, at_link, link.end - link.start)->0;
    let here = autolink::merged(at_link);
    assert(autolink::merged(inside) =~= here.subrange(0, link.end - link.start));
    assert(autolink::merged(inside) =~= text.subrange(link.start as int, link.end as int));
    assert(autolink::merged(rest) =~= here.subrange(link.end - link.start, here.len() as int));
    assert(autolink::merged(rest) =~= text.subrange(link.end as int, text.len() as int));
    let x = autolink::piece_events(b, before)->0;
    let y = autolink::piece_events(b, inside)->0;
    let z = autolink::linked(b, rest, link.end as int, text, links.drop_first())->0;
    let range = autolink::link_source(at_link, inside);
    let events = autolink::link_events(range, url, y);
    assert(out == x + events + z);
    if u == 0 {
        let s = x.len() as int;
        let t = s + 1 + y.len();
        lemma_pieces_give_text(b, inside);
        autolink::lemma_piece_events_shown(b, inside);
        assert(out.subrange(s + 1, t) =~= y);
        reveal_strlit("");
        assert(""@ =~= Seq::empty());
        assert forall|k: int| s < k < t implies is_text((#[trigger] out[k]).1) by {
            assert(out[k] == y[k - s - 1]);
        }
        assert(is_link_to(out, s, t, url));
    } else {
        let others = links.drop_first();
        assert(forall|i: int| 0 <= i < others.len() ==> #[trigger] others[i] == links[i + 1]);
        assert(links[0].end <= links[1].start);
        law_urls_become_links(b, rest, link.end as int, text, others, u - 1);
        let later = text.subrange(links[u].start as int, links[u].end as int);
        let (s, t) = choose|s: int, t: int|
            #[trigger] is_link_to(z, s, t, decode_utf8(later)) && autolink::all_shown(
                b,
                z.subrange(s + 1, t),
            ) == later;
        let n = (x + events).len() as int;
        assert forall|k: int| 0 <= k < z.len() implies #[trigger] out[n + k] == z[k] by {}
        assert(out.subrange(n + s + 1, n + t) =~= z.subrange(s + 1, t));
        assert forall|k: int| n + s < k < n + t implies is_text((#[trigger] out[k]).1) by {
            assert(out[k] == z[k - n]);
        }
        assert(out[n + s] == z[s] && out[n + t] == z[t]);
        assert(is_link_to(out, n + s, n + t, decode_utf8(later)));
    }
}

/// The pieces read as the source and stand side by side in it, from `from` on.
pub open spec fn stand_side_by_side(pieces: Seq<PieceModel>, from: int) -> bool
    decreases pieces.len(),
{
    pieces.len() > 0 ==> {
        let p = pieces[0];
        &&& p.source.start == from
        &&& p.source.start + p.parsed.len() == p.source.end
        &&& stand_side_by_side(pieces.drop_first(), p.source.end as int)
    }
}

proof fn lemma_cut_side_by_side(b: Seq<u8>, pieces: Seq<PieceModel>, n: int, from: int)
    requires
        autolink::cut(b, pieces, n) is Some,
        stand_side_by_side(pieces, from),
        0 <= n <= autolink::merged(pieces).len(),
    ensures
        stand_side_by_side((autolink::cut(b, pieces, n)->0).0, from),
        stand_side_by_side((autolink::cut(b, pieces, n)->0).1, from + n),
        (autolink::cut(b, pieces, n)->0).0.len() > 0 ==> (autolink::cut(
            b,
            pieces,
            n,
        )->0).0.last().source.end == from + n,
    decreases pieces.len(),
{
    reveal_with_fuel(stand_side_by_side, 2);
    if pieces.len() > 0 {
        let p = pieces[0];
        let rest = pieces.drop_first();
        assert(pieces =~= seq![p] + rest);
        autolink::lemma_merged_concat(seq![p], rest);
        autolink::lemma_merged_one(p);
        if p.parsed.len() <= n {
            lemma_cut_side_by_side(b, rest, n - p.parsed.len(), p.source.end as int);
            let (head, tail) = autolink::cut(b, rest, n - p.parsed.len())->0;
            assert((seq![p] + head).drop_first() =~= head);
            if head.len() == 0 {
                lemma_cut_len(b, rest, n - p.parsed.len());
            }
        } else if n > 0 {
            let head = autolink::cut_head(p, n);
            let tail = autolink::cut_tail(p, n);
            assert((seq![tail] + rest).drop_first() =~= rest);
            assert(seq![head].drop_first() =~= Seq::empty());
        }
    }
}

/// Where text reads as in the source, the link to a URL in it stands where the URL stands.
pub proof fn law_links_stand_where_their_urls_do(
    b: Seq<u8>,
    pieces: Seq<PieceModel>,
    at: int,
    text: Seq<u8>,
    links: Seq<Range<usize>>,
    from: int,
    u: int,
)
    requires
        autolink::all_valid(pieces),
        autolink::linked(b, pieces, at, text, links) is Some,
        autolink::are_links(text, links),
        0 <= at <= text.len(),
        autolink::merged(pieces) == text.subrange(at, text.len() as int),
        links.len() > 0 ==> at <= links[0].start,
        stand_side_by_side(pieces, from + at),
        0 <= from,
        from + text.len() <= usize::MAX,
        0 <= u < links.len(),
    ensures
        ({
            let out = autolink::linked(b, pieces, at, text, links)->0;
            exists|k: int|
                0 <= k < out.len() && starts_link((#[trigger] out[k]).1) && out[k].0.start == from
                    + links[u].start && out[k].0.end == from + links[u].end
        }),
    decreases links.len(),
{
    let out = autolink::linked(b, pieces, at, text, links)->0;
    let link = links[0];
    let url = span::chars_of(text, link.start as int, link.end as int);
    autolink::lemma_cut_keeps_text(b, pieces, link.start - at);
    lemma_cut_len(b, pieces, link.start - at);
    lemma_cut_side_by_side(b, pieces, link.start - at, from + at);
    let (before, at_link) = autolink::cut(b, pieces, link.start - at)->0;
    let left = text.subrange(at, text.len() as int);
    assert(autolink::merged(at_link) =~= left.subrange(link.start - at, left.len() as int));
    assert(autolink::merged(at_link) =~= text.subrange(link.start as int, text.len() as int));
    autolink::lemma_cut_keeps_text(b, at_link, link.end - link.start);
    lemma_cut_len(b, at_link, link.end - link.start);
    lemma_cut_side_by_side(b, at_link, link.end - link.start, from + link.start);
    let (inside, rest) = autolink::cut(b, at_link, link.end - link.start)->0;
    let here = autolink::merged(at_link);
    assert(autolink::merged(rest) =~= here.subrange(link.end - link.start, here.len() as int));
    assert(autolink::merged(rest) =~= text.subrange(link.end as int, text.len() as int));
    let x = autolink::piece_events(b, before)->0;
    let y = autolink::piece_events(b, inside)->0;
    let z = autolink::linked(b, rest, link.end as int, text, links.drop_first())->0;
    let range = autolink::link_source(at_link, inside);
    let events = autolink::link_events(range, url, y);
    assert(out == x + events + z);
    if u == 0 {
        assert(inside.len() > 0) by {
            if inside.len() == 0 {
                assert(autolink::merged(inside).len() == 0);
            }
        }
        assert(out[x.len() as int] == events[0]);
        assert(starts_link(events[0].1));
    } else {
        let others = links.drop_first();
        assert(forall|i: int| 0 <= i < others.len() ==> #[trigger] others[i] == links[i + 1]);
        assert(links[0].end <= links[1].start);
        law_links_stand_where_their_urls_do(
            b,
            rest,
            link.end as int,
            text,
            others,
            from,
            u - 1,
        );
        let k = choose|k: int|
            0 <= k < z.len() && starts_link((#[trigger] z[k]).1) && z[k].0.start == from
                + links[u].start && z[k].0.end == from + links[u].end;
        assert(out[(x + events).len() + k] == z[k]);
    }
}

/// The links of a run of text are links to the URLs in it.
pub proof fn law_nothing_but_urls_becomes_a_link(
    b: Seq<u8>,
    pieces: Seq<PieceModel>,
    at: int,
    text: Seq<u8>,
    links: Seq<Range<usize>>,
    k: int,
)
    requires
        autolink::linked(b, pieces, at, text, links) is Some,
        0 <= k < (autolink::linked(b, pieces, at, text, links)->0).len(),
        starts_link((autolink::linked(b, pieces, at, text, links)->0)[k].1),
    ensures
        exists|u: int|
            0 <= u < links.len() && (autolink::linked(b, pieces, at, text, links)->0)[k].1
                == EventModel::Start(
                TagModel::Link {
                    link_type: LinkType::Autolink,
                    dest_url: decode_utf8(
                        text.subrange((#[trigger] links[u]).start as int, links[u].end as int),
                    ),
                    title: ""@,
                    id: ""@,
                },
            ),
    decreases links.len(),
{
    reveal_strlit("");
    assert(""@ =~= Seq::empty());
    if links.len() == 0 {
        lemma_pieces_give_text(b, pieces);
    } else {
        let out = autolink::linked(b, pieces, at, text, links)->0;
        let link = links[0];
        let url = span::chars_of(text, link.start as int, link.end as int);
        let (before, at_link) = autolink::cut(b, pieces, link.start - at)->0;
        let x = autolink::piece_events(b, before)->0;
        lemma_pieces_give_text(b, before);
        if at_link.len() > 0 {
            let (inside, rest) = autolink::cut(b, at_link, link.end - link.start)->0;
            let y = autolink::piece_events(b, inside)->0;
            let others = links.drop_first();
            let z = autolink::linked(b, rest, link.end as int, text, others)->0;
            lemma_pieces_give_text(b, inside);
            let n = x.len() + y.len() + 2;
            if k < x.len() {
                assert(out[k] == x[k]);
            } else if k == x.len() {
                assert(links[0] == link);
            } else if k < n {
                assert(k < n - 1 ==> out[k] == y[k - x.len() - 1]);
            } else {
                assert(out[k] == z[k - n]);
                law_nothing_but_urls_becomes_a_link(
                    b,
                    rest,
                    link.end as int,
                    text,
                    others,
                    k - n,
                );
                let u = choose|u: int|
                    0 <= u < others.len() && z[k - n].1 == EventModel::Start(
                        TagModel::Link {
                            link_type: LinkType::Autolink,
                            dest_url: decode_utf8(
                                text.subrange(
                                    (#[trigger] others[u]).start as int,
                                    others[u].end as int,
                                ),
                            ),
                            title: ""@,
                            id: ""@,
                        },
                    );
                assert(links[u + 1] == others[u]);
            }
        }
    }
}

/// Where nothing but its URLs is of interest, a text has a link for each URL, where the URL stands,
/// with the URL as its text.
pub proof fn law_links_only_link_the_urls(b: Seq<u8>, from: int, links: Seq<Range<usize>>, u: int)
    requires
        0 <= u < links.len(),
    ensures
        ({
            let out = autolink::links_only(b, from, links);
            let url = decode_utf8(b.subrange(links[u].start as int, links[u].end as int));
            exists|s: int|
                #[trigger] is_link_to(out, s, s + 2, url) && out[s].0 == links[u] && out[s + 1] == (
                    links[u],
                    EventModel::Text,
                )
        }),
    decreases links.len(),
{
    reveal_strlit("");
    assert(""@ =~= Seq::empty());
    let out = autolink::links_only(b, from, links);
    let link = links[0];
    let gap = autolink::text_between(from, link.start as int);
    let url = span::chars_of(b, link.start as int, link.end as int);
    let here = autolink::link_events(link, url, seq![(link, EventModel::Text)]);
    let others = links.drop_first();
    let rest = autolink::links_only(b, link.end as int, others);
    assert(out == gap + here + rest);
    assert(here.len() == 3);
    if u == 0 {
        let s = gap.len() as int;
        assert(out[s] == here[0] && out[s + 1] == here[1] && out[s + 2] == here[2]);
        assert(is_link_to(out, s, s + 2, url));
    } else {
        law_links_only_link_the_urls(b, link.end as int, others, u - 1);
        assert(others[u - 1] == links[u]);
        let later = decode_utf8(b.subrange(links[u].start as int, links[u].end as int));
        let s = choose|s: int|
            #[trigger] is_link_to(rest, s, s + 2, later) && rest[s].0 == links[u] && rest[s + 1]
                == (links[u], EventModel::Text);
        let n = (gap + here).len();
        assert(out[n + s] == rest[s] && out[n + s + 1] == rest[s + 1] && out[n + s + 2] == rest[s
            + 2]);
        assert(is_link_to(out, n + s, n + s + 2, later));
    }
}

/// A piece of text is put out as plain text exactly if the source reads the same at its range, and
/// else with what it reads.
pub proof fn law_text_that_reads_as_the_source_is_plain(b: Seq<u8>, piece: PieceModel)
    requires
        autolink::piece_event(b, piece) is Some,
    ensures
        ({
            let (range, event) = autolink::piece_event(b, piece)->0;
            let here = b.subrange(piece.source.start as int, piece.source.end as int);
            &&& range == piece.source
            &&& here == piece.parsed ==> event == EventModel::Text
            &&& here != piece.parsed ==> event == EventModel::SubstitutedText(
                decode_utf8(piece.parsed),
            )
        }),
{
}

/// The pieces are not empty and read as the source.
pub open spec fn read_as_the_source(b: Seq<u8>, pieces: Seq<PieceModel>) -> bool {
    forall|i: int|
        0 <= i < pieces.len() ==> {
            let p = #[trigger] pieces[i];
            &&& p.source.start < p.source.end <= b.len()
            &&& b.subrange(p.source.start as int, p.source.end as int) == p.parsed
        }
}

proof fn lemma_cut_reads_as_the_source(b: Seq<u8>, pieces: Seq<PieceModel>, n: int)
    requires
        autolink::cut(b, pieces, n) is Some,
        read_as_the_source(b, pieces),
        b.len() <= usize::MAX,
    ensures
        read_as_the_source(b, (autolink::cut(b, pieces, n)->0).0),
        read_as_the_source(b, (autolink::cut(b, pieces, n)->0).1),
    decreases pieces.len(),
{
    if pieces.len() > 0 {
        let p = pieces[0];
        let rest = pieces.drop_first();
        assert forall|i: int| 0 <= i < rest.len() implies {
            let q = #[trigger] rest[i];
            &&& q.source.start < q.source.end <= b.len()
            &&& b.subrange(q.source.start as int, q.source.end as int) == q.parsed
        } by {
            assert(rest[i] == pieces[i + 1]);
        }
        let (head, tail) = autolink::cut(b, pieces, n)->0;
        if p.parsed.len() <= n {
            lemma_cut_reads_as_the_source(b, rest, n - p.parsed.len());
            let (more, _) = autolink::cut(b, rest, n - p.parsed.len())->0;
            assert forall|i: int| 0 <= i < head.len() implies {
                let q = #[trigger] head[i];
                &&& q.source.start < q.source.end <= b.len()
                &&& b.subrange(q.source.start as int, q.source.end as int) == q.parsed
            } by {
                if i > 0 {
                    assert(head[i] == more[i - 1]);
                } else {
                    assert(head[0] == pieces[0]);
                }
            }
        } else if n > 0 {
            let s = p.source.start as int;
            assert(b.subrange(s, p.source.end as int).len() == p.parsed.len());
            assert(b.subrange(s, s + n) =~= p.parsed.subrange(0, n));
            assert(b.subrange(s + n, p.source.end as int) =~= p.parsed.subrange(
                n,
                p.parsed.len() as int,
            ));
            assert forall|i: int| 0 <= i < tail.len() implies {
                let q = #[trigger] tail[i];
                &&& q.source.start < q.source.end <= b.len()
                &&& b.subrange(q.source.start as int, q.source.end as int) == q.parsed
            } by {
                if i > 0 {
                    assert(tail[i] == rest[i - 1]);
                }
            }
        }
    }
}

proof fn lemma_plain_pieces(b: Seq<u8>, pieces: Seq<PieceModel>, from: int)
    requires
        autolink::piece_events(b, pieces) is Some,
        read_as_the_source(b, pieces),
        stand_side_by_side(pieces, from),
    ensures
        autolink::divide(
            autolink::text_ranges(autolink::piece_events(b, pieces)->0),
            from,
            from + autolink::merged(pieces).len(),
        ),
        forall|k: int|
            0 <= k < (autolink::piece_events(b, pieces)->0).len() ==> (
            #[trigger] (autolink::piece_events(b, pieces)->0)[k]).1 == EventModel::Text,
    decreases pieces.len(),
{
    reveal_with_fuel(autolink::text_ranges, 2);
    reveal_with_fuel(autolink::divide, 2);
    if pieces.len() > 0 {
        let init = pieces.drop_last();
        let last = pieces.last();
        assert forall|i: int| 0 <= i < init.len() implies {
            let q = #[trigger] init[i];
            &&& q.source.start < q.source.end <= b.len()
            &&& b.subrange(q.source.start as int, q.source.end as int) == q.parsed
        } by {
            assert(init[i] == pieces[i]);
        }
        assert(pieces[pieces.len() - 1] == last);
        lemma_side_by_side_last(pieces, from);
        lemma_plain_pieces(b, init, from);
        let before = autolink::piece_events(b, init)->0;
        let all = autolink::piece_events(b, pieces)->0;
        assert(all.drop_last() =~= before);
        assert(all.last() == (last.source, EventModel::Text));
        let ranges = autolink::text_ranges(all);
        assert(ranges.drop_last() =~= autolink::text_ranges(before));
        assert forall|k: int| 0 <= k < all.len() implies (#[trigger] all[k]).1
            == EventModel::Text by {
            if k < before.len() {
                assert(all[k] == before[k]);
            }
        }
    }
}

proof fn lemma_side_by_side_last(pieces: Seq<PieceModel>, from: int)
    requires
        pieces.len() > 0,
        stand_side_by_side(pieces, from),
    ensures
        stand_side_by_side(pieces.drop_last(), from),
        pieces.last().source.start == from + autolink::merged(pieces.drop_last()).len(),
        pieces.last().source.end == pieces.last().source.start + pieces.last().parsed.len(),
    decreases pieces.len(),
{
    reveal_with_fuel(stand_side_by_side, 2);
    let init = pieces.drop_last();
    if pieces.len() == 1 {
        assert(autolink::merged(init).len() == 0);
    } else {
        let rest = pieces.drop_first();
        lemma_side_by_side_last(rest, pieces[0].source.end as int);
        assert(init.drop_first() =~= rest.drop_last());
        assert(init[0] == pieces[0]);
        assert(init =~= seq![pieces[0]] + rest.drop_last());
        autolink::lemma_merged_concat(seq![pieces[0]], rest.drop_last());
        autolink::lemma_merged_one(pieces[0]);
        assert(rest.last() == pieces.last());
    }
}

/// Text that reads as the source stays plain text, whatever URLs are in it, and its events divide it
/// up where it stands, without gap or overlap.
pub proof fn law_plain_runs_are_divided_up(
    b: Seq<u8>,
    pieces: Seq<PieceModel>,
    at: int,
    text: Seq<u8>,
    links: Seq<Range<usize>>,
    from: int,
)
    requires
        b.len() <= usize::MAX,
        autolink::all_valid(pieces),
        autolink::linked(b, pieces, at, text, links) is Some,
        autolink::are_links(text, links),
        0 <= at <= text.len(),
        autolink::merged(pieces) == text.subrange(at, text.len() as int),
        links.len() > 0 ==> at <= links[0].start,
        read_as_the_source(b, pieces),
        stand_side_by_side(pieces, from + at),
    ensures
        ({
            let out = autolink::linked(b, pieces, at, text, links)->0;
            &&& autolink::divide(autolink::text_ranges(out), from + at, from + text.len())
            &&& forall|k: int| 0 <= k < out.len() ==> !((#[trigger] out[k]).1 is SubstitutedText)
        }),
    decreases links.len(),
{
    let out = autolink::linked(b, pieces, at, text, links)->0;
    if links.len() == 0 {
        lemma_plain_pieces(b, pieces, from + at);
    } else {
        let link = links[0];
        let url = span::chars_of(text, link.start as int, link.end as int);
        autolink::lemma_cut_keeps_text(b, pieces, link.start - at);
        lemma_cut_len(b, pieces, link.start - at);
        lemma_cut_side_by_side(b, pieces, link.start - at, from + at);
        lemma_cut_reads_as_the_source(b, pieces, link.start - at);
        let (before, at_link) = autolink::cut(b, pieces, link.start - at)->0;
        let left = text.subrange(at, text.len() as int);
        assert(autolink::merged(at_link) =~= left.subrange(link.start - at, left.len() as int));
        assert(autolink::merged(at_link) =~= text.subrange(link.start as int, text.len() as int));
        autolink::lemma_cut_keeps_text(b, at_link, link.end - link.start);
        lemma_cut_len(b, at_link, link.end - link.start);
        lemma_cut_side_by_side(b, at_link, link.end - link.start, from + link.start);
        lemma_cut_reads_as_the_source(b, at_link, link.end - link.start);
        let (inside, rest) = autolink::cut(b, at_link, link.end - link.start)->0;
        let here = autolink::merged(at_link);
        assert(autolink::merged(rest) =~= here.subrange(link.end - link.start, here.len() as int));
        assert(autolink::merged(rest) =~= text.subrange(link.end as int, text.len() as int));
        let x = autolink::piece_events(b, before)->0;
        let y = autolink::piece_events(b, inside)->0;
        let others = links.drop_first();
        let z = autolink::linked(b, rest, link.end as int, text, others)->0;
        let range = autolink::link_source(at_link, inside);
        let events = autolink::link_events(range, url, y);
        assert(out == x + events + z);
        lemma_plain_pieces(b, before, from + at);
        lemma_plain_pieces(b, inside, from + link.start);
        assert(forall|i: int| 0 <= i < others.len() ==> #[trigger] others[i] == links[i + 1]);
        if others.len() > 0 {
            assert(links[0].end <= links[1].start);
        }
        law_plain_runs_are_divided_up(b, rest, link.end as int, text, others, from);
        lemma_link_text_ranges(range, url, y);
        autolink::lemma_text_ranges_concat(x, events);
        autolink::lemma_text_ranges_concat(x + events, z);
        autolink::lemma_divide_concat(
            autolink::text_ranges(x),
            autolink::text_ranges(events),
            from + at,
            from + link.start,
            from + link.end,
        );
        autolink::lemma_divide_concat(
            autolink::text_ranges(x + events),
            autolink::text_ranges(z),
            from + at,
            from + link.end,
            from + text.len(),
        );
        assert forall|k: int| 0 <= k < out.len() implies !((#[trigger] out[k]).1
            is SubstitutedText) by {
            let n = x.len() as int;
            if k < n {
                assert(out[k] == x[k]);
            } else if n < k < n + 1 + y.len() {
                assert(out[k] == y[k - n - 1]);
            } else if k > n + 1 + y.len() {
                assert(out[k] == z[k - n - 2 - y.len()]);
            }
        }
    }
}

proof fn lemma_link_text_ranges(range: Range<usize>, url: Seq<char>, inside: Seq<RangedModel>)
    ensures
        autolink::text_ranges(autolink::link_events(range, url, inside)) == autolink::text_ranges(
            inside,
        ),
{
    reveal_with_fuel(autolink::text_ranges, 2);
    let start = seq![(range, EventModel::Start(autolink::autolink_tag(url)))];
    let end = seq![(range, EventModel::End(MarkdownTagEnd::Link))];
    assert(start.drop_last() =~= Seq::empty());
    assert(end.drop_last() =~= Seq::empty());
    autolink::lemma_text_ranges_concat(start + inside, end);
    autolink::lemma_text_ranges_concat(start, inside);
    assert(autolink::text_ranges(start) =~= Seq::empty());
    assert(autolink::text_ranges(end) =~= Seq::empty());
    assert(autolink::text_ranges(autolink::link_events(range, url, inside))
        =~= autolink::text_ranges(inside));
}

} // verus!
