//! Bare URLs in text: the runs of text they occur in are split into links and the text around
//! them.
use crate::event;
use crate::event::{
    EventModel, MarkdownEvent, MarkdownTag, MarkdownTagEnd, RangedEvent, RangedModel, TagModel,
};
use crate::span;
use linkify::{LinkFinder, LinkKind};
use pulldown_cmark::LinkType;
use std::ops::Range;
use vstd::prelude::*;
use vstd::string::StringExecFns;
use vstd::string::StringSliceAdditionalSpecFns;
use vstd::utf8::*;

verus! {

broadcast use event::lemma_models_push;

/// The ranges of the URLs that `linkify` finds in a text.
pub uninterp spec fn url_ranges(text: Seq<char>) -> Seq<Range<usize>>;

/// The ranges are slices of the text with something in them, one behind the other.
pub open spec fn are_links(b: Seq<u8>, links: Seq<Range<usize>>) -> bool {
    &&& forall|i: int|
        0 <= i < links.len() ==> (#[trigger] links[i]).start < links[i].end && span::is_slice(
            b,
            links[i].start as int,
            links[i].end as int,
        )
    &&& forall|i: int, j: int|
        0 <= i < j < links.len() ==> (#[trigger] links[i]).end <= (#[trigger] links[j]).start
}

/// Calls `linkify::LinkFinder::links`, restricted to URLs, and picks the range of each link. What
/// is found depends on the text alone. A link starts at a character before its `://` and ends
/// behind a character after it, and the search for the next one goes on where it ends.
#[verifier::external_body]
fn find_urls(text: &str) -> (r: Vec<Range<usize>>)
    ensures
        r@ == url_ranges(text@),
        are_links(text.spec_bytes(), r@),
{
    let mut finder = LinkFinder::new();
    finder.kinds(&[LinkKind::Url]);
    finder.links(text).map(|link| link.start()..link.end()).collect()
}

/// A piece of text: where it comes from in the source, and what the parser made of it.
#[derive(Debug, PartialEq)]
pub struct TextPiece {
    pub source: Range<usize>,
    pub parsed: String,
}

/// The model of a [`TextPiece`], with the parsed text in UTF-8.
pub struct PieceModel {
    pub source: Range<usize>,
    pub parsed: Seq<u8>,
}

impl View for TextPiece {
    type V = PieceModel;

    open spec fn view(&self) -> PieceModel {
        PieceModel { source: self.source, parsed: encode_utf8(self.parsed@) }
    }
}

/// The model of a list of pieces.
pub open spec fn piece_models(pieces: Seq<TextPiece>) -> Seq<PieceModel> {
    pieces.map_values(|p: TextPiece| p@)
}

/// The parsed text of all pieces.
pub open spec fn merged(pieces: Seq<PieceModel>) -> Seq<u8>
    decreases pieces.len(),
{
    if pieces.len() == 0 {
        Seq::empty()
    } else {
        merged(pieces.drop_last()) + pieces.last().parsed
    }
}

/// The event for a piece of text: plain text if the source reads the same. `None` if the piece
/// has no place in the source.
pub open spec fn piece_event(b: Seq<u8>, piece: PieceModel) -> Option<RangedModel> {
    let source = piece.source;
    if !span::is_slice(b, source.start as int, source.end as int) {
        None
    } else if b.subrange(source.start as int, source.end as int) == piece.parsed {
        Some((source, EventModel::Text))
    } else {
        Some((source, EventModel::SubstitutedText(decode_utf8(piece.parsed))))
    }
}

/// The events for a list of pieces.
pub open spec fn piece_events(b: Seq<u8>, pieces: Seq<PieceModel>) -> Option<Seq<RangedModel>>
    decreases pieces.len(),
{
    if pieces.len() == 0 {
        Some(Seq::empty())
    } else {
        match (piece_events(b, pieces.drop_last()), piece_event(b, pieces.last())) {
            (Some(events), Some(event)) => Some(events.push(event)),
            _ => None,
        }
    }
}

/// Cuts a list of pieces behind the first `n` bytes of their text. A piece across that place is
/// cut in two, in the source as many bytes in. `None` if that splits a character.
pub open spec fn cut(b: Seq<u8>, pieces: Seq<PieceModel>, n: int) -> Option<
    (Seq<PieceModel>, Seq<PieceModel>),
>
    decreases pieces.len(),
{
    if pieces.len() == 0 {
        Some((Seq::empty(), Seq::empty()))
    } else {
        let p = pieces[0];
        if p.parsed.len() <= n {
            match cut(b, pieces.drop_first(), n - p.parsed.len()) {
                Some((head, tail)) => Some((seq![p] + head, tail)),
                None => None,
            }
        } else if n <= 0 {
            Some((Seq::empty(), pieces))
        } else if span::is_slice(b, p.source.start as int, p.source.start + n)
            && span::on_boundary(p.parsed, n) {
            Some((seq![cut_head(p, n)], seq![cut_tail(p, n)] + pieces.drop_first()))
        } else {
            None
        }
    }
}

/// The first `n` bytes of a piece.
pub open spec fn cut_head(p: PieceModel, n: int) -> PieceModel {
    PieceModel {
        source: p.source.start..(p.source.start + n) as usize,
        parsed: p.parsed.subrange(0, n),
    }
}

/// A piece without its first `n` bytes.
pub open spec fn cut_tail(p: PieceModel, n: int) -> PieceModel {
    PieceModel {
        source: (p.source.start + n) as usize..p.source.end,
        parsed: p.parsed.subrange(n, p.parsed.len() as int),
    }
}

/// The tag of a link to a bare URL.
pub open spec fn autolink_tag(url: Seq<char>) -> TagModel {
    TagModel::Link {
        link_type: LinkType::Autolink,
        dest_url: url,
        title: Seq::empty(),
        id: Seq::empty(),
    }
}

/// The events of a link to a bare URL.
pub open spec fn link_events(
    range: Range<usize>,
    url: Seq<char>,
    inside: Seq<RangedModel>,
) -> Seq<RangedModel> {
    seq![(range, EventModel::Start(autolink_tag(url)))] + inside + seq![
        (range, EventModel::End(MarkdownTagEnd::Link)),
    ]
}

/// The range in the source of a link: from the first of the pieces at it to the end of the last
/// piece inside it.
pub open spec fn link_source(at_link: Seq<PieceModel>, inside: Seq<PieceModel>) -> Range<usize> {
    at_link[0].source.start..if inside.len() > 0 {
        inside.last().source.end
    } else {
        at_link[0].source.end
    }
}

/// The events for a run of text. `links` are the ranges of its links in `text`, the text of the
/// run; `pieces` are what is left of the run from the offset `at` of that text on.
pub open spec fn linked(
    b: Seq<u8>,
    pieces: Seq<PieceModel>,
    at: int,
    text: Seq<u8>,
    links: Seq<Range<usize>>,
) -> Option<Seq<RangedModel>>
    decreases links.len(),
{
    if links.len() == 0 {
        piece_events(b, pieces)
    } else {
        let link = links[0];
        let url = span::chars_of(text, link.start as int, link.end as int);
        match cut(b, pieces, link.start - at) {
            None => None,
            Some((before, at_link)) => if at_link.len() == 0 {
                piece_events(b, before)
            } else {
                match cut(b, at_link, link.end - link.start) {
                    None => None,
                    Some((inside, rest)) => match (
                        piece_events(b, before),
                        piece_events(b, inside),
                        linked(b, rest, link.end as int, text, links.drop_first()),
                    ) {
                        (Some(x), Some(y), Some(z)) => Some(
                            x + link_events(link_source(at_link, inside), url, y) + z,
                        ),
                        _ => None,
                    },
                }
            },
        }
    }
}

proof fn lemma_merged_push(pieces: Seq<PieceModel>, p: PieceModel)
    ensures
        merged(pieces.push(p)) == merged(pieces) + p.parsed,
{
    assert(pieces.push(p).drop_last() =~= pieces);
}

proof fn lemma_piece_events_push(b: Seq<u8>, pieces: Seq<PieceModel>, p: PieceModel)
    ensures
        piece_events(b, pieces.push(p)) == (match (piece_events(b, pieces), piece_event(b, p)) {
            (Some(events), Some(event)) => Some(events.push(event)),
            _ => None,
        }),
{
    assert(pieces.push(p).drop_last() =~= pieces);
}

/// A list of pieces has one event for each piece, with the range of the piece.
pub proof fn lemma_piece_events_ranges(b: Seq<u8>, pieces: Seq<PieceModel>)
    requires
        piece_events(b, pieces) is Some,
    ensures
        piece_events(b, pieces)->0.len() == pieces.len(),
        forall|i: int|
            0 <= i < pieces.len() ==> (#[trigger] piece_events(b, pieces)->0[i]).0
                == pieces[i].source,
    decreases pieces.len(),
{
    if pieces.len() > 0 {
        lemma_piece_events_ranges(b, pieces.drop_last());
        let init = piece_events(b, pieces.drop_last())->0;
        assert forall|i: int| 0 <= i < pieces.len() implies (#[trigger] piece_events(
            b,
            pieces,
        )->0[i]).0 == pieces[i].source by {
            if i < pieces.len() - 1 {
                assert(init[i].0 == pieces.drop_last()[i].source);
            }
        }
    }
}

/// Whether a string is what stands at a range of the text.
fn reads_as(text: &str, range: &Range<usize>, parsed: &str) -> (r: bool)
    requires
        span::is_slice(text.spec_bytes(), range.start as int, range.end as int),
    ensures
        r == (text.spec_bytes().subrange(range.start as int, range.end as int)
            == parsed.spec_bytes()),
{
    let bytes = text.as_bytes();
    let other = parsed.as_bytes();
    let ghost here = text.spec_bytes().subrange(range.start as int, range.end as int);
    if other.len() != range.end - range.start {
        return false;
    }
    let mut i: usize = 0;
    while i < other.len()
        invariant
            i <= other@.len() == range.end - range.start,
            range.end <= bytes@.len(),
            bytes@ == text.spec_bytes(),
            other@ == parsed.spec_bytes(),
            here == bytes@.subrange(range.start as int, range.end as int),
            forall|k: int| 0 <= k < i ==> #[trigger] here[k] == other@[k],
        decreases other@.len() - i,
    {
        if bytes[range.start + i] != other[i] {
            assert(here[i as int] != other@[i as int]);
            return false;
        }
        assert(here[i as int] == other@[i as int]);
        i += 1;
    }
    assert(here =~= other@);
    true
}

/// The event for a piece of text at a range of the source: see [`piece_event`].
pub fn event_for(text: &str, range: Range<usize>, parsed: &str) -> (r: Option<RangedEvent>)
    ensures
        match piece_event(
            text.spec_bytes(),
            PieceModel { source: range, parsed: parsed.spec_bytes() },
        ) {
            Some(event) => r is Some && event::ranged_model(r->0) == event,
            None => r is None,
        },
{
    proof {
        span::lemma_str_bytes(parsed);
    }
    if !span::can_slice(text, range.start, range.end) {
        return None;
    }
    if reads_as(text, &range, parsed) {
        Some((range, MarkdownEvent::Text))
    } else {
        Some((range, MarkdownEvent::SubstitutedText(parsed.to_owned())))
    }
}

proof fn lemma_piece_events_prefix(b: Seq<u8>, pieces: Seq<PieceModel>, more: Seq<PieceModel>)
    ensures
        piece_events(b, pieces + more) is Some ==> piece_events(b, pieces) is Some,
    decreases more.len(),
{
    if more.len() > 0 {
        lemma_piece_events_prefix(b, pieces, more.drop_last());
        assert((pieces + more).drop_last() =~= pieces + more.drop_last());
    } else {
        assert(pieces + more =~= pieces);
    }
}

/// Pushes the events for the first `n` bytes of the pieces from `next` on, and leaves the rest of
/// them: see [`cut`]. Returns where they now start, or `None` if there is no such cut or a piece
/// has no event.
fn emit_cut(
    text: &str,
    pieces: &mut Vec<TextPiece>,
    next: usize,
    n: usize,
    out: &mut Vec<RangedEvent>,
) -> (r: Option<usize>)
    requires
        next <= old(pieces)@.len(),
    ensures
        match cut(text.spec_bytes(), piece_models(old(pieces)@).skip(next as int), n as int) {
            Some((before, after)) => match piece_events(text.spec_bytes(), before) {
                Some(events) => {
                    &&& r is Some
                    &&& r->0 <= final(pieces)@.len()
                    &&& event::models(final(out)@) == event::models(old(out)@) + events
                    &&& piece_models(final(pieces)@).skip(r->0 as int) == after
                },
                None => r is None,
            },
            None => r is None,
        },
{
    let ghost b = text.spec_bytes();
    let ghost all = piece_models(pieces@);
    let ghost whole = cut(b, all.skip(next as int), n as int);
    let ghost out0 = event::models(out@);
    let ghost mut consumed = Seq::<PieceModel>::empty();
    let ghost mut events = Seq::<RangedModel>::empty();
    let mut k: usize = next;
    let mut left: usize = n;
    proof {
        match whole {
            Some((x, y)) => {
                assert(consumed + x =~= x);
            },
            None => {},
        }
        assert(out0 + events =~= out0);
    }
    while k < pieces.len() && pieces[k].parsed.as_str().as_bytes().len() <= left
        invariant
            b == text.spec_bytes(),
            all == piece_models(pieces@),
            next <= k <= pieces@.len(),
            whole == cut(b, all.skip(next as int), n as int),
            match cut(b, all.skip(k as int), left as int) {
                None => whole is None,
                Some((x, y)) => whole == Some((consumed + x, y)),
            },
            piece_events(b, consumed) == Some(events),
            event::models(out@) == out0 + events,
            pieces@ == old(pieces)@,
            out0 == event::models(old(out)@),
        decreases pieces@.len() - k,
    {
        let ghost rem = all.skip(k as int);
        let ghost p = pieces@[k as int]@;
        proof {
            assert(rem[0] == p);
            assert(rem.drop_first() =~= all.skip(k + 1));
            lemma_piece_events_push(b, consumed, p);
        }
        let range = pieces[k].source.start..pieces[k].source.end;
        match event_for(text, range, pieces[k].parsed.as_str()) {
            Some(event) => {
                proof {
                    events = events.push(event::ranged_model(event));
                }
                out.push(event);
            },
            None => {
                proof {
                    match cut(b, all.skip(k as int), left as int) {
                        None => {},
                        Some((x, y)) => {
                            assert(x[0] == p);
                            assert(consumed + x =~= consumed.push(p) + x.drop_first());
                            lemma_piece_events_prefix(b, consumed.push(p), x.drop_first());
                        },
                    }
                }
                return None;
            },
        }
        proof {
            assert(out0 + events =~= event::models(out@));
            match cut(b, rem.drop_first(), left - p.parsed.len()) {
                Some((x, y)) => {
                    assert(consumed + (seq![p] + x) =~= consumed.push(p) + x);
                },
                None => {},
            }
            consumed = consumed.push(p);
        }
        left -= pieces[k].parsed.as_str().as_bytes().len();
        k += 1;
    }
    let ghost rem = all.skip(k as int);
    if k == pieces.len() || left == 0 {
        proof {
            if k < pieces.len() {
                assert(rem[0] == pieces@[k as int]@);
            }
            assert(consumed + Seq::<PieceModel>::empty() =~= consumed);
            if k == pieces.len() {
                assert(rem =~= Seq::empty());
            }
        }
        return Some(k);
    }
    let ghost p = pieces@[k as int]@;
    assert(rem[0] == p);
    let start = pieces[k].source.start;
    let end = pieces[k].source.end;
    let len = text.as_bytes().len();
    if left > len || start > len - left || !span::can_slice(text, start, start + left) {
        return None;
    }
    let parsed = pieces[k].parsed.as_str();
    proof {
        span::lemma_str_bytes(parsed);
        span::lemma_boundary(parsed.spec_bytes(), left as int);
    }
    if !parsed.is_char_boundary(left) {
        return None;
    }
    let (head, tail) = parsed.split_at(left);
    let ghost head_model = cut_head(p, left as int);
    let event = event_for(text, start..start + left, head);
    let tail_piece = TextPiece { source: start + left..end, parsed: tail.to_owned() };
    match event {
        Some(event) => {
            proof {
                events = events.push(event::ranged_model(event));
                lemma_piece_events_push(b, consumed, head_model);
                assert(consumed + seq![head_model] =~= consumed.push(head_model));
            }
            out.push(event);
            assert(out0 + events =~= event::models(out@));
        },
        None => {
            assert(false);
        },
    }
    let ghost tail_model = tail_piece@;
    pieces.set(k, tail_piece);
    proof {
        assert(tail_model == cut_tail(p, left as int));
        assert(piece_models(pieces@).skip(k as int) =~= seq![cut_tail(p, left as int)]
            + rem.drop_first());
    }
    Some(k)
}

/// The bytes of a text and of one behind it are the bytes of both.
pub proof fn lemma_encode_concat(s: Seq<char>, t: Seq<char>)
    ensures
        encode_utf8(s + t) == encode_utf8(s) + encode_utf8(t),
    decreases s.len(),
{
    if s.len() == 0 {
        assert(s + t =~= t);
        assert(encode_utf8(s) + encode_utf8(t) =~= encode_utf8(t));
    } else {
        lemma_encode_concat(s.drop_first(), t);
        assert((s + t).drop_first() =~= s.drop_first() + t);
        let c = encode_scalar(s[0] as u32);
        assert(c + encode_utf8(s.drop_first()) + encode_utf8(t) =~= c + (encode_utf8(s.drop_first())
            + encode_utf8(t)));
    }
}

/// The text of a run: the parsed text of its pieces.
pub fn merge_pieces(pieces: &Vec<TextPiece>) -> (r: String)
    ensures
        encode_utf8(r@) == merged(piece_models(pieces@)),
{
    let mut r = String::new();
    let ghost all = piece_models(pieces@);
    assert(all.take(0) =~= Seq::empty());
    for i in 0..pieces.len()
        invariant
            all == piece_models(pieces@),
            encode_utf8(r@) == merged(all.take(i as int)),
    {
        proof {
            lemma_encode_concat(r@, pieces@[i as int].parsed@);
            assert(all.take(i + 1) =~= all.take(i as int).push(pieces@[i as int]@));
            lemma_merged_push(all.take(i as int), pieces@[i as int]@);
        }
        r.append(pieces[i].parsed.as_str());
    }
    assert(all.take(all.len() as int) =~= all);
    r
}

/// Pushes the events for the link at `start..end` of the text of a run, whose pieces from `next` on
/// are at it, and leaves the rest of them. Returns where they now start, or `None` if there is no
/// such cut or a piece has no event.
fn emit_link(
    text: &str,
    run: &str,
    pieces: &mut Vec<TextPiece>,
    next: usize,
    start: usize,
    end: usize,
    out: &mut Vec<RangedEvent>,
) -> (r: Option<usize>)
    requires
        next < old(pieces)@.len(),
        span::is_slice(run.spec_bytes(), start as int, end as int),
    ensures
        ({
            let b = text.spec_bytes();
            let at_link = piece_models(old(pieces)@).skip(next as int);
            let url = span::chars_of(run.spec_bytes(), start as int, end as int);
            match cut(b, at_link, end - start) {
                Some((inside, rest)) => match piece_events(b, inside) {
                    Some(y) => {
                        &&& r is Some
                        &&& r->0 <= final(pieces)@.len()
                        &&& event::models(final(out)@) == event::models(old(out)@) + link_events(
                            link_source(at_link, inside),
                            url,
                            y,
                        )
                        &&& piece_models(final(pieces)@).skip(r->0 as int) == rest
                    },
                    None => r is None,
                },
                None => r is None,
            }
        }),
{
    let ghost b = text.spec_bytes();
    let ghost at_link = piece_models(pieces@).skip(next as int);
    let ghost x = event::models(out@);
    let link_start = pieces[next].source.start;
    let piece_end = pieces[next].source.end;
    let mut inside: Vec<RangedEvent> = Vec::new();
    assert(event::models(inside@) =~= Seq::empty());
    assert(at_link[0] == pieces@[next as int]@);
    let after = match emit_cut(text, pieces, next, end - start, &mut inside) {
        Some(k) => k,
        None => {
            return None;
        },
    };
    let ghost y = event::models(inside@);
    let ghost inner = (cut(b, at_link, end - start)->0).0;
    proof {
        lemma_piece_events_ranges(b, inner);
        assert(Seq::<RangedModel>::empty() + piece_events(b, inner)->0 =~= y);
        if inside.len() > 0 {
            assert(y[y.len() - 1].0 == inner[inner.len() - 1].source);
        }
    }
    let link_end = if inside.len() > 0 {
        inside[inside.len() - 1].0.end
    } else {
        piece_end
    };
    let url = span::slice(run, start, end).to_owned();
    let tag = MarkdownTag::Link {
        link_type: LinkType::Autolink,
        dest_url: url,
        title: String::new(),
        id: String::new(),
    };
    out.push((link_start..link_end, MarkdownEvent::Start(tag)));
    let ghost opened = event::models(out@);
    out.append(&mut inside);
    assert(event::models(out@) =~= opened + y);
    out.push((link_start..link_end, MarkdownEvent::End(MarkdownTagEnd::Link)));
    assert(event::models(out@) =~= x + link_events(link_source(at_link, inner), url@, y));
    Some(after)
}

/// Splits a run of text into the links at the given ranges of its text and the text around them:
/// see [`linked`]. `None` if a piece has no place in the source.
#[verifier::loop_isolation(false)]
pub fn split_text_run(text: &str, pieces: Vec<TextPiece>, links: &Vec<Range<usize>>) -> (r: Option<
    Vec<RangedEvent>,
>)
    requires
        are_links(merged(piece_models(pieces@)), links@),
    ensures
        event::agree(
            r,
            linked(
                text.spec_bytes(),
                piece_models(pieces@),
                0,
                merged(piece_models(pieces@)),
                links@,
            ),
        ),
{
    let whole_text = merge_pieces(&pieces);
    let ghost b = text.spec_bytes();
    let ghost m = merged(piece_models(pieces@));
    let ghost whole = linked(b, piece_models(pieces@), 0, m, links@);
    let mut pieces = pieces;
    let mut out: Vec<RangedEvent> = Vec::new();
    let mut next: usize = 0;
    let mut at: usize = 0;
    let mut i: usize = 0;
    proof {
        assert(piece_models(pieces@).skip(0) =~= piece_models(pieces@));
        assert(links@.skip(0) =~= links@);
        assert(event::models(out@) =~= Seq::empty());
        match whole {
            Some(z) => {
                assert(Seq::<RangedModel>::empty() + z =~= z);
            },
            None => {},
        }
    }
    while i < links.len()
        invariant
            b == text.spec_bytes(),
            encode_utf8(whole_text@) == m,
            are_links(m, links@),
            i <= links@.len(),
            next <= pieces@.len(),
            at == (if i == 0 {
                0
            } else {
                links@[i - 1].end as int
            }),
            match linked(
                b,
                piece_models(pieces@).skip(next as int),
                at as int,
                m,
                links@.skip(i as int),
            ) {
                Some(z) => whole == Some(event::models(out@) + z),
                None => whole is None,
            },
        decreases links@.len() - i,
    {
        let start = links[i].start;
        let end = links[i].end;
        let ghost rest_links = links@.skip(i as int);
        let ghost x0 = event::models(out@);
        let ghost rem = piece_models(pieces@).skip(next as int);
        proof {
            assert(rest_links[0] == links@[i as int]);
            assert(rest_links.drop_first() =~= links@.skip(i + 1));
            if i > 0 {
                assert(links@[i - 1].end <= links@[i as int].start);
            }
        }
        match emit_cut(text, &mut pieces, next, start - at, &mut out) {
            Some(k) => {
                next = k;
            },
            None => {
                return None;
            },
        }
        let ghost at_link = piece_models(pieces@).skip(next as int);
        if next == pieces.len() {
            assert(at_link =~= Seq::empty());
            return Some(out);
        }
        let ghost x = event::models(out@);
        match emit_link(text, whole_text.as_str(), &mut pieces, next, start, end, &mut out) {
            Some(k) => {
                next = k;
            },
            None => {
                return None;
            },
        }
        proof {
            let before = (cut(b, rem, start - at)->0).0;
            let inside = (cut(b, at_link, end - start)->0).0;
            let url = span::chars_of(m, start as int, end as int);
            let link = link_events(link_source(at_link, inside), url, piece_events(b, inside)->0);
            let rest = piece_models(pieces@).skip(next as int);
            match linked(b, rest, end as int, m, rest_links.drop_first()) {
                Some(z) => {
                    let xs = piece_events(b, before)->0;
                    assert(x0 + (xs + link + z) =~= event::models(out@) + z);
                },
                None => {},
            }
        }
        at = end;
        i += 1;
    }
    assert(links@.skip(i as int) =~= Seq::empty());
    if emit_rest(text, &pieces, next, &mut out) {
        Some(out)
    } else {
        None
    }
}

/// Pushes the events for all pieces from `next` on. `false` if a piece has no event.
fn emit_rest(text: &str, pieces: &Vec<TextPiece>, next: usize, out: &mut Vec<RangedEvent>) -> (r:
    bool)
    requires
        next <= pieces@.len(),
    ensures
        match piece_events(text.spec_bytes(), piece_models(pieces@).skip(next as int)) {
            Some(events) => r && event::models(final(out)@) == event::models(old(out)@) + events,
            None => !r,
        },
{
    let ghost b = text.spec_bytes();
    let ghost rest = piece_models(pieces@).skip(next as int);
    let ghost out0 = event::models(out@);
    let ghost mut events = Seq::<RangedModel>::empty();
    let mut k: usize = next;
    proof {
        assert(rest.take(0) =~= Seq::empty());
        assert(out0 + events =~= out0);
    }
    while k < pieces.len()
        invariant
            b == text.spec_bytes(),
            next <= k <= pieces@.len(),
            rest == piece_models(pieces@).skip(next as int),
            piece_events(b, rest.take(k - next)) == Some(events),
            event::models(out@) == out0 + events,
        decreases pieces@.len() - k,
    {
        let ghost p = pieces@[k as int]@;
        proof {
            assert(rest.take(k - next + 1) =~= rest.take(k - next).push(p));
            lemma_piece_events_push(b, rest.take(k - next), p);
        }
        let range = pieces[k].source.start..pieces[k].source.end;
        match event_for(text, range, pieces[k].parsed.as_str()) {
            Some(event) => {
                proof {
                    events = events.push(event::ranged_model(event));
                }
                out.push(event);
                assert(out0 + events =~= event::models(out@));
            },
            None => {
                proof {
                    assert(rest =~= rest.take(k - next + 1) + rest.skip(k - next + 1));
                    lemma_piece_events_prefix(
                        b,
                        rest.take(k - next + 1),
                        rest.skip(k - next + 1),
                    );
                }
                return false;
            },
        }
        k += 1;
    }
    assert(rest.take(k - next) =~= rest);
    true
}

/// The events for a run of text. Outside of a link, the bare URLs in it become links.
pub open spec fn text_run_events(b: Seq<u8>, pieces: Seq<PieceModel>, within_link: bool) -> Option<
    Seq<RangedModel>,
> {
    let text = merged(pieces);
    linked(
        b,
        pieces,
        0,
        text,
        if within_link {
            Seq::empty()
        } else {
            url_ranges(decode_utf8(text))
        },
    )
}

/// Turns a run of text into events: see [`text_run_events`]. `None` if a piece has no place in
/// the source.
pub fn text_run(text: &str, pieces: Vec<TextPiece>, within_link: bool) -> (r: Option<
    Vec<RangedEvent>,
>)
    ensures
        event::agree(
            r,
            text_run_events(text.spec_bytes(), piece_models(pieces@), within_link),
        ),
{
    let links = if within_link {
        Vec::new()
    } else {
        let merged_text = merge_pieces(&pieces);
        proof {
            encode_utf8_decode_utf8(merged_text@);
        }
        find_urls(merged_text.as_str())
    };
    split_text_run(text, pieces, &links)
}

/// The events for a text in which nothing but its URLs is of interest, from the offset `from` on.
pub open spec fn links_only(b: Seq<u8>, from: int, links: Seq<Range<usize>>) -> Seq<RangedModel>
    decreases links.len(),
{
    if links.len() == 0 {
        text_between(from, b.len() as int)
    } else {
        let link = links[0];
        text_between(from, link.start as int) + link_events(
            link,
            span::chars_of(b, link.start as int, link.end as int),
            seq![(link, EventModel::Text)],
        ) + links_only(b, link.end as int, links.drop_first())
    }
}

/// The text event for a range, if it is not empty.
pub open spec fn text_between(from: int, to: int) -> Seq<RangedModel> {
    if from < to {
        seq![(from as usize..to as usize, EventModel::Text)]
    } else {
        Seq::empty()
    }
}

/// Splits a text into the links at the given ranges and the text around them.
pub fn split_links_only(text: &str, links: &Vec<Range<usize>>) -> (r: Vec<RangedEvent>)
    requires
        are_links(text.spec_bytes(), links@),
    ensures
        event::models(r@) == links_only(text.spec_bytes(), 0, links@),
{
    let ghost b = text.spec_bytes();
    let ghost whole = links_only(b, 0, links@);
    let mut events: Vec<RangedEvent> = Vec::new();
    let len = text.as_bytes().len();
    let mut from: usize = 0;
    let mut i: usize = 0;
    proof {
        assert(links@.skip(0) =~= links@);
        assert(event::models(events@) + whole =~= whole);
    }
    while i < links.len()
        invariant
            b == text.spec_bytes(),
            are_links(b, links@),
            i <= links@.len(),
            from <= len == b.len(),
            whole == event::models(events@) + links_only(b, from as int, links@.skip(i as int)),
        decreases links@.len() - i,
    {
        let start = links[i].start;
        let end = links[i].end;
        let ghost before = event::models(events@);
        proof {
            assert(links@.skip(i as int)[0] == links@[i as int]);
            assert(links@.skip(i as int).drop_first() =~= links@.skip(i + 1));
        }
        if from < start {
            events.push((from..start, MarkdownEvent::Text));
        }
        assert(event::models(events@) =~= before + text_between(from as int, start as int));
        let url = span::slice(text, start, end).to_owned();
        let tag = MarkdownTag::Link {
            link_type: LinkType::Autolink,
            dest_url: url,
            title: String::new(),
            id: String::new(),
        };
        events.push((start..end, MarkdownEvent::Start(tag)));
        events.push((start..end, MarkdownEvent::Text));
        events.push((start..end, MarkdownEvent::End(MarkdownTagEnd::Link)));
        proof {
            let link = link_events(start..end, url@, seq![(start..end, EventModel::Text)]);
            let gap = text_between(from as int, start as int);
            assert(event::models(events@) =~= before + gap + link);
            let rest = links_only(b, end as int, links@.skip(i + 1));
            assert(before + (gap + link + rest) =~= event::models(events@) + rest);
        }
        from = end;
        i += 1;
    }
    assert(links@.skip(i as int) =~= Seq::empty());
    let ghost before = event::models(events@);
    if from < len {
        events.push((from..len, MarkdownEvent::Text));
    }
    assert(event::models(events@) =~= before + text_between(from as int, len as int));
    events
}

/// Parses a text in which nothing but its URLs is of interest: see [`links_only`]. The text events
/// divide the text up.
pub fn parse_links_only(text: &str) -> (r: Vec<RangedEvent>)
    ensures
        event::models(r@) == links_only(text.spec_bytes(), 0, url_ranges(text@)),
        are_links(text.spec_bytes(), url_ranges(text@)),
        divide(text_ranges(event::models(r@)), 0, text.spec_bytes().len() as int),
        all_shown(text.spec_bytes(), event::models(r@)) == text.spec_bytes(),
{
    let links = find_urls(text);
    let bytes = text.as_bytes();
    proof {
        let b = text.spec_bytes();
        assert(bytes.len() <= usize::MAX);
        law_links_only_divides_text(b, 0, links@);
        law_links_only_shows_text(b, 0, links@);
        assert(b.subrange(0, b.len() as int) =~= b);
    }
    split_links_only(text, &links)
}

/// The ranges of the text events among the events, in order.
pub open spec fn text_ranges(events: Seq<RangedModel>) -> Seq<Range<usize>>
    decreases events.len(),
{
    if events.len() == 0 {
        Seq::empty()
    } else if events.last().1 is Text {
        text_ranges(events.drop_last()).push(events.last().0)
    } else {
        text_ranges(events.drop_last())
    }
}

/// The ranges are not empty and make up `from..to`, without gap or overlap.
pub open spec fn divide(ranges: Seq<Range<usize>>, from: int, to: int) -> bool
    decreases ranges.len(),
{
    if ranges.len() == 0 {
        from == to
    } else {
        let last = ranges.last();
        last.start < last.end && last.end == to && divide(
            ranges.drop_last(),
            from,
            last.start as int,
        )
    }
}

/// The ranges of text events in two lists, one behind the other.
pub proof fn lemma_text_ranges_concat(x: Seq<RangedModel>, y: Seq<RangedModel>)
    ensures
        text_ranges(x + y) == text_ranges(x) + text_ranges(y),
    decreases y.len(),
{
    if y.len() == 0 {
        assert(x + y =~= x);
        assert(text_ranges(x) + text_ranges(y) =~= text_ranges(x));
    } else {
        lemma_text_ranges_concat(x, y.drop_last());
        assert((x + y).drop_last() =~= x + y.drop_last());
        if y.last().1 is Text {
            assert(text_ranges(x) + text_ranges(y) =~= (text_ranges(x) + text_ranges(
                y.drop_last(),
            )).push(y.last().0));
        }
    }
}

/// Ranges that divide two stretches up divide both up together.
pub proof fn lemma_divide_concat(
    x: Seq<Range<usize>>,
    y: Seq<Range<usize>>,
    from: int,
    between: int,
    to: int,
)
    requires
        divide(x, from, between),
        divide(y, between, to),
    ensures
        divide(x + y, from, to),
    decreases y.len(),
{
    if y.len() == 0 {
        assert(x + y =~= x);
    } else {
        lemma_divide_concat(x, y.drop_last(), from, between, y.last().start as int);
        assert((x + y).drop_last() =~= x + y.drop_last());
    }
}

/// When a text is split at its URLs, the text events are not empty and divide the text up, without
/// gap or overlap.
pub proof fn law_links_only_divides_text(b: Seq<u8>, from: int, links: Seq<Range<usize>>)
    requires
        are_links(b, links),
        0 <= from <= b.len() <= usize::MAX,
        links.len() > 0 ==> from <= links[0].start,
    ensures
        divide(text_ranges(links_only(b, from, links)), from, b.len() as int),
    decreases links.len(),
{
    if links.len() == 0 {
        lemma_text_between_divides(from, b.len() as int);
    } else {
        let link = links[0];
        let rest = links.drop_first();
        assert(forall|i: int| 0 <= i < rest.len() ==> #[trigger] rest[i] == links[i + 1]);
        if rest.len() > 0 {
            assert(links[0].end <= links[1].start);
        }
        law_links_only_divides_text(b, link.end as int, rest);
        let gap = text_between(from, link.start as int);
        let url = span::chars_of(b, link.start as int, link.end as int);
        let here = link_events(link, url, seq![(link, EventModel::Text)]);
        let after = links_only(b, link.end as int, rest);
        lemma_text_between_divides(from, link.start as int);
        assert(text_ranges(here) =~= seq![link]) by {
            reveal_with_fuel(text_ranges, 4);
            assert(here.len() == 3);
            assert(here.drop_last().drop_last().drop_last().len() == 0);
        }
        assert(seq![link].drop_last().len() == 0);
        assert(divide(seq![link], link.start as int, link.end as int)) by {
            reveal_with_fuel(divide, 2);
        }
        lemma_text_ranges_concat(gap, here);
        lemma_text_ranges_concat(gap + here, after);
        lemma_divide_concat(
            text_ranges(gap),
            text_ranges(here),
            from,
            link.start as int,
            link.end as int,
        );
        lemma_divide_concat(
            text_ranges(gap + here),
            text_ranges(after),
            from,
            link.end as int,
            b.len() as int,
        );
    }
}

proof fn lemma_text_between_divides(from: int, to: int)
    requires
        0 <= from <= to <= usize::MAX,
    ensures
        divide(text_ranges(text_between(from, to)), from, to),
{
    reveal_with_fuel(text_ranges, 2);
    reveal_with_fuel(divide, 2);
    let events = text_between(from, to);
    if from < to {
        assert(events.drop_last().len() == 0);
        assert(text_ranges(events) =~= seq![events[0].0]);
        assert(text_ranges(events).drop_last().len() == 0);
    }
}

/// The bytes that a text event shows: those of the source at its range, or the substituted ones.
pub open spec fn shown(b: Seq<u8>, event: RangedModel) -> Seq<u8> {
    match event.1 {
        EventModel::Text => b.subrange(event.0.start as int, event.0.end as int),
        EventModel::SubstitutedText(text) => encode_utf8(text),
        _ => Seq::empty(),
    }
}

/// The bytes that a list of events shows as text.
pub open spec fn all_shown(b: Seq<u8>, events: Seq<RangedModel>) -> Seq<u8>
    decreases events.len(),
{
    if events.len() == 0 {
        Seq::empty()
    } else {
        all_shown(b, events.drop_last()) + shown(b, events.last())
    }
}

/// What two lists show, one behind the other.
pub proof fn lemma_all_shown_concat(b: Seq<u8>, x: Seq<RangedModel>, y: Seq<RangedModel>)
    ensures
        all_shown(b, x + y) == all_shown(b, x) + all_shown(b, y),
    decreases y.len(),
{
    if y.len() == 0 {
        assert(x + y =~= x);
        assert(all_shown(b, x) + all_shown(b, y) =~= all_shown(b, x));
    } else {
        lemma_all_shown_concat(b, x, y.drop_last());
        assert((x + y).drop_last() =~= x + y.drop_last());
        assert(all_shown(b, x) + all_shown(b, y.drop_last()) + shown(b, y.last()) =~= all_shown(
            b,
            x,
        ) + (all_shown(b, y.drop_last()) + shown(b, y.last())));
    }
}

proof fn lemma_one_shown(b: Seq<u8>, e: RangedModel)
    ensures
        all_shown(b, seq![e]) == shown(b, e),
{
    assert(seq![e].drop_last() =~= Seq::empty());
    assert(all_shown(b, seq![e].drop_last()) + shown(b, e) =~= shown(b, e));
}

proof fn lemma_link_events_shown(
    b: Seq<u8>,
    range: Range<usize>,
    url: Seq<char>,
    inside: Seq<RangedModel>,
)
    ensures
        all_shown(b, link_events(range, url, inside)) == all_shown(b, inside),
{
    let open = seq![(range, EventModel::Start(autolink_tag(url)))];
    let close = seq![(range, EventModel::End(MarkdownTagEnd::Link))];
    lemma_all_shown_concat(b, open + inside, close);
    lemma_all_shown_concat(b, open, inside);
    lemma_one_shown(b, open[0]);
    lemma_one_shown(b, close[0]);
    assert(all_shown(b, link_events(range, url, inside)) =~= all_shown(b, inside));
}

/// Every byte of a text is shown once, in order, when it is split at its URLs.
pub proof fn law_links_only_shows_text(b: Seq<u8>, from: int, links: Seq<Range<usize>>)
    requires
        are_links(b, links),
        0 <= from <= b.len() <= usize::MAX,
        links.len() > 0 ==> from <= links[0].start,
    ensures
        all_shown(b, links_only(b, from, links)) == b.subrange(from, b.len() as int),
    decreases links.len(),
{
    if links.len() == 0 {
        lemma_text_between_shown(b, from, b.len() as int);
    } else {
        let link = links[0];
        let rest = links.drop_first();
        assert(forall|i: int| 0 <= i < rest.len() ==> #[trigger] rest[i] == links[i + 1]);
        if rest.len() > 0 {
            assert(links[0].end <= links[1].start);
        }
        law_links_only_shows_text(b, link.end as int, rest);
        let gap = text_between(from, link.start as int);
        let url = span::chars_of(b, link.start as int, link.end as int);
        let inside = seq![(link, EventModel::Text)];
        let here = link_events(link, url, inside);
        lemma_text_between_shown(b, from, link.start as int);
        lemma_link_events_shown(b, link, url, inside);
        lemma_one_shown(b, inside[0]);
        lemma_all_shown_concat(b, gap, here);
        lemma_all_shown_concat(b, gap + here, links_only(b, link.end as int, rest));
        assert(all_shown(b, links_only(b, from, links)) =~= b.subrange(from, b.len() as int));
    }
}

proof fn lemma_text_between_shown(b: Seq<u8>, from: int, to: int)
    requires
        0 <= from <= to <= b.len() <= usize::MAX,
    ensures
        all_shown(b, text_between(from, to)) == b.subrange(from, to),
{
    if from < to {
        lemma_one_shown(b, (from as usize..to as usize, EventModel::Text));
    }
    assert(all_shown(b, text_between(from, to)) =~= b.subrange(from, to));
}

/// Valid UTF-8 throughout.
pub open spec fn all_valid(pieces: Seq<PieceModel>) -> bool {
    forall|i: int| 0 <= i < pieces.len() ==> valid_utf8((#[trigger] pieces[i]).parsed)
}

/// The text of two lists of pieces, one behind the other.
pub proof fn lemma_merged_concat(x: Seq<PieceModel>, y: Seq<PieceModel>)
    ensures
        merged(x + y) == merged(x) + merged(y),
    decreases y.len(),
{
    if y.len() == 0 {
        assert(x + y =~= x);
        assert(merged(x) + merged(y) =~= merged(x));
    } else {
        lemma_merged_concat(x, y.drop_last());
        assert((x + y).drop_last() =~= x + y.drop_last());
        assert(merged(x) + merged(y.drop_last()) + y.last().parsed =~= merged(x) + (merged(
            y.drop_last(),
        ) + y.last().parsed));
    }
}

/// The text of one piece.
pub proof fn lemma_merged_one(p: PieceModel)
    ensures
        merged(seq![p]) == p.parsed,
{
    assert(seq![p].drop_last() =~= Seq::empty());
    assert(merged(seq![p].drop_last()) + p.parsed =~= p.parsed);
}

/// Cutting a list of pieces keeps their text.
pub proof fn lemma_cut_keeps_text(b: Seq<u8>, pieces: Seq<PieceModel>, n: int)
    requires
        all_valid(pieces),
        cut(b, pieces, n) is Some,
    ensures
        merged((cut(b, pieces, n)->0).0) + merged((cut(b, pieces, n)->0).1) == merged(pieces),
        all_valid((cut(b, pieces, n)->0).0),
        all_valid((cut(b, pieces, n)->0).1),
    decreases pieces.len(),
{
    if pieces.len() == 0 {
        assert(merged(pieces) + merged(pieces) =~= merged(pieces));
    } else {
        let p = pieces[0];
        let rest = pieces.drop_first();
        assert(all_valid(rest)) by {
            assert forall|i: int| 0 <= i < rest.len() implies valid_utf8(
                (#[trigger] rest[i]).parsed,
            ) by {
                assert(rest[i] == pieces[i + 1]);
            }
        }
        assert(pieces =~= seq![p] + rest);
        lemma_merged_concat(seq![p], rest);
        lemma_merged_one(p);
        if p.parsed.len() <= n {
            lemma_cut_keeps_text(b, rest, n - p.parsed.len());
            let (head, tail) = cut(b, rest, n - p.parsed.len())->0;
            lemma_merged_concat(seq![p], head);
            assert(p.parsed + merged(head) + merged(tail) =~= p.parsed + (merged(head) + merged(
                tail,
            )));
        } else if n <= 0 {
            assert(merged(Seq::<PieceModel>::empty()) + merged(pieces) =~= merged(pieces));
        } else {
            lemma_merged_one(cut_head(p, n));
            lemma_merged_one(cut_tail(p, n));
            lemma_merged_concat(seq![cut_tail(p, n)], rest);
            let h = p.parsed.subrange(0, n);
            let t = p.parsed.subrange(n, p.parsed.len() as int);
            assert(h + t =~= p.parsed);
            assert(h + (t + merged(rest)) =~= p.parsed + merged(rest));
            span::lemma_slice_valid(p.parsed, 0, n);
            span::lemma_slice_valid(p.parsed, n, p.parsed.len() as int);
        }
    }
}

/// The events for a list of pieces show their text.
pub proof fn lemma_piece_events_shown(b: Seq<u8>, pieces: Seq<PieceModel>)
    requires
        all_valid(pieces),
        piece_events(b, pieces) is Some,
    ensures
        all_shown(b, piece_events(b, pieces)->0) == merged(pieces),
    decreases pieces.len(),
{
    if pieces.len() > 0 {
        let init = pieces.drop_last();
        assert(all_valid(init)) by {
            assert forall|i: int| 0 <= i < init.len() implies valid_utf8(
                (#[trigger] init[i]).parsed,
            ) by {
                assert(init[i] == pieces[i]);
            }
        }
        lemma_piece_events_shown(b, init);
        let events = piece_events(b, pieces)->0;
        assert(events.drop_last() =~= piece_events(b, init)->0);
        assert(valid_utf8(pieces[pieces.len() - 1].parsed));
        decode_utf8_encode_utf8(pieces.last().parsed);
    }
}

/// Turning the URLs in a run of text into links loses none of its text and adds none.
pub proof fn law_linking_keeps_text(
    b: Seq<u8>,
    pieces: Seq<PieceModel>,
    at: int,
    text: Seq<u8>,
    links: Seq<Range<usize>>,
)
    requires
        all_valid(pieces),
        linked(b, pieces, at, text, links) is Some,
    ensures
        all_shown(b, linked(b, pieces, at, text, links)->0) == merged(pieces),
    decreases links.len(),
{
    if links.len() == 0 {
        lemma_piece_events_shown(b, pieces);
    } else {
        let link = links[0];
        let url = span::chars_of(text, link.start as int, link.end as int);
        lemma_cut_keeps_text(b, pieces, link.start - at);
        let (before, at_link) = cut(b, pieces, link.start - at)->0;
        lemma_piece_events_shown(b, before);
        if at_link.len() == 0 {
            assert(merged(before) + merged(at_link) =~= merged(before));
        } else {
            lemma_cut_keeps_text(b, at_link, link.end - link.start);
            let (inside, rest) = cut(b, at_link, link.end - link.start)->0;
            lemma_piece_events_shown(b, inside);
            law_linking_keeps_text(b, rest, link.end as int, text, links.drop_first());
            let x = piece_events(b, before)->0;
            let y = piece_events(b, inside)->0;
            let z = linked(b, rest, link.end as int, text, links.drop_first())->0;
            let here = link_events(link_source(at_link, inside), url, y);
            lemma_link_events_shown(b, link_source(at_link, inside), url, y);
            lemma_all_shown_concat(b, x + here, z);
            lemma_all_shown_concat(b, x, here);
            assert(merged(before) + merged(inside) + merged(rest) =~= merged(before) + (merged(
                inside,
            ) + merged(rest)));
        }
    }
}

/// The event is one that a run of text can give: text, or the start or end of a link.
pub open spec fn is_run_event(event: EventModel) -> bool {
    match event {
        EventModel::Text | EventModel::SubstitutedText(_) => true,
        EventModel::Start(tag) => tag is Link,
        EventModel::End(tag) => tag is Link,
        _ => false,
    }
}

/// All events are ones that a run of text can give.
pub open spec fn are_run_events(events: Seq<RangedModel>) -> bool {
    forall|i: int| 0 <= i < events.len() ==> is_run_event((#[trigger] events[i]).1)
}

proof fn lemma_piece_events_are_run_events(b: Seq<u8>, pieces: Seq<PieceModel>)
    requires
        piece_events(b, pieces) is Some,
    ensures
        are_run_events(piece_events(b, pieces)->0),
    decreases pieces.len(),
{
    if pieces.len() > 0 {
        lemma_piece_events_are_run_events(b, pieces.drop_last());
    }
}

/// A run of text gives nothing but text and links.
pub proof fn law_runs_give_text_and_links(
    b: Seq<u8>,
    pieces: Seq<PieceModel>,
    at: int,
    text: Seq<u8>,
    links: Seq<Range<usize>>,
)
    requires
        linked(b, pieces, at, text, links) is Some,
    ensures
        are_run_events(linked(b, pieces, at, text, links)->0),
    decreases links.len(),
{
    if links.len() == 0 {
        lemma_piece_events_are_run_events(b, pieces);
    } else {
        let link = links[0];
        let (before, at_link) = cut(b, pieces, link.start - at)->0;
        lemma_piece_events_are_run_events(b, before);
        if at_link.len() > 0 {
            let (inside, rest) = cut(b, at_link, link.end - link.start)->0;
            lemma_piece_events_are_run_events(b, inside);
            law_runs_give_text_and_links(b, rest, link.end as int, text, links.drop_first());
        }
    }
}

/// What the events show of the source are slices of it.
pub open spec fn show_slices(b: Seq<u8>, events: Seq<RangedModel>) -> bool {
    forall|i: int|
        0 <= i < events.len() && ((#[trigger] events[i]).1 is Text || events[i].1 is Code)
            ==> span::is_slice(b, events[i].0.start as int, events[i].0.end as int)
}

proof fn lemma_piece_events_show_slices(b: Seq<u8>, pieces: Seq<PieceModel>)
    requires
        piece_events(b, pieces) is Some,
    ensures
        show_slices(b, piece_events(b, pieces)->0),
    decreases pieces.len(),
{
    if pieces.len() > 0 {
        lemma_piece_events_show_slices(b, pieces.drop_last());
    }
}

/// What a run of text shows of the source are slices of it.
pub proof fn law_runs_show_slices(
    b: Seq<u8>,
    pieces: Seq<PieceModel>,
    at: int,
    text: Seq<u8>,
    links: Seq<Range<usize>>,
)
    requires
        linked(b, pieces, at, text, links) is Some,
    ensures
        show_slices(b, linked(b, pieces, at, text, links)->0),
    decreases links.len(),
{
    if links.len() == 0 {
        lemma_piece_events_show_slices(b, pieces);
    } else {
        let link = links[0];
        let (before, at_link) = cut(b, pieces, link.start - at)->0;
        lemma_piece_events_show_slices(b, before);
        if at_link.len() > 0 {
            let (inside, rest) = cut(b, at_link, link.end - link.start)->0;
            lemma_piece_events_show_slices(b, inside);
            law_runs_show_slices(b, rest, link.end as int, text, links.drop_first());
        }
    }
}

} // verus!
