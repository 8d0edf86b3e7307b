//! The text that a block shows.
use crate::event;
use crate::event::{
    CodeBlockKind, CodeBlockKindModel, CodeBlockMetadata, EventModel, MarkdownEvent, MarkdownTag,
    RangedEvent, RangedModel, TagModel,
};
use crate::preview::MarkdownLivePreviewBlockKind;
use crate::scan;
use crate::span;
use std::ops::Range;
use vstd::prelude::*;
use vstd::string::StringExecFns;
use vstd::string::StringSliceAdditionalSpecFns;
use vstd::utf8::*;

verus! {

/// The end of the text of the line that starts at `p`: without its newline, and without a carriage
/// return before that.
pub open spec fn line_text_end(b: Seq<u8>, p: int) -> int {
    let end = span::find_byte(b, 10, p, b.len() as int);
    if p < end < b.len() && b[end - 1] == 13 {
        end - 1
    } else {
        end
    }
}

/// The ranges of the lines from `p` on, without their line endings.
pub open spec fn lines(b: Seq<u8>, p: int) -> Seq<(int, int)>
    decreases b.len() - p,
    via lines_decreases
{
    if p >= b.len() {
        Seq::empty()
    } else {
        seq![(p, line_text_end(b, p))] + lines(b, scan::next_line(b, p, b.len() as int))
    }
}

#[via_fn]
proof fn lines_decreases(b: Seq<u8>, p: int) {
    if p < b.len() {
        span::lemma_find_byte(b, 10, p, b.len() as int);
    }
}

/// The texts, with a newline between each two.
pub open spec fn joined(texts: Seq<Seq<char>>) -> Seq<char>
    decreases texts.len(),
{
    if texts.len() == 0 {
        Seq::empty()
    } else if texts.len() == 1 {
        texts[0]
    } else {
        joined(texts.drop_last()) + seq!['\n'] + texts.last()
    }
}

/// A line without the four spaces that make it code, if it starts with them.
pub open spec fn unindented_line(b: Seq<u8>, line: (int, int)) -> Seq<char> {
    let (i, j) = line;
    if i + 4 <= j && b[i] == 0x20 && b[i + 1] == 0x20 && b[i + 2] == 0x20 && b[i + 3] == 0x20 {
        span::chars_of(b, i + 4, j)
    } else {
        span::chars_of(b, i, j)
    }
}

/// The lines of a text, each without the four spaces that make it code.
pub open spec fn unindented(b: Seq<u8>) -> Seq<char> {
    joined(lines(b, 0).map_values(|line: (int, int)| unindented_line(b, line)))
}

/// The lines that are not blank, each trimmed and behind a dash.
pub open spec fn dashed(b: Seq<u8>, lines: Seq<(int, int)>) -> Seq<Seq<char>>
    decreases lines.len(),
{
    if lines.len() == 0 {
        Seq::empty()
    } else {
        let before = dashed(b, lines.drop_last());
        let (i, j) = scan::trimmed(b, lines.last().0, lines.last().1);
        if i < j {
            before.push(seq!['-', ' '] + span::chars_of(b, i, j))
        } else {
            before
        }
    }
}

/// The first code block that starts among the events.
pub open spec fn first_code_block(events: Seq<RangedModel>) -> Option<
    (CodeBlockKindModel, CodeBlockMetadata),
>
    decreases events.len(),
{
    if events.len() == 0 {
        None
    } else {
        match events[0].1 {
            EventModel::Start(TagModel::CodeBlock { kind, metadata }) => Some((kind, metadata)),
            _ => first_code_block(events.drop_first()),
        }
    }
}

/// The text that an event shows in a block. `None` if it has no place in the source.
pub open spec fn shown_in_block(b: Seq<u8>, event: RangedModel) -> Option<Seq<char>> {
    let range = event.0;
    match event.1 {
        EventModel::Text | EventModel::Code => if span::is_slice(
            b,
            range.start as int,
            range.end as int,
        ) {
            Some(span::chars_of(b, range.start as int, range.end as int))
        } else {
            None
        },
        EventModel::SubstitutedText(text) => Some(text),
        EventModel::SoftBreak | EventModel::HardBreak => Some(seq!['\n']),
        EventModel::TaskListMarker(checked) => Some(
            seq!['[', if checked { 'x' } else { ' ' }, ']', ' '],
        ),
        EventModel::Rule => Some(seq!['-', '-', '-']),
        _ => Some(Seq::empty()),
    }
}

/// The text that the events show, one after the other.
pub open spec fn all_shown_in_block(b: Seq<u8>, events: Seq<RangedModel>) -> Option<Seq<char>>
    decreases events.len(),
{
    if events.len() == 0 {
        Some(Seq::empty())
    } else {
        match (
            all_shown_in_block(b, events.drop_last()),
            shown_in_block(b, events.last()),
        ) {
            (Some(text), Some(more)) => Some(text + more),
            _ => None,
        }
    }
}

/// The text of a code block: its content without the newlines at its end; without its indentation,
/// if that makes it a code block.
pub open spec fn code_block_text(
    b: Seq<u8>,
    kind: CodeBlockKindModel,
    content: Range<usize>,
) -> Option<Seq<char>> {
    if !span::is_slice(b, content.start as int, content.end as int) {
        None
    } else {
        let end = span::run_start(b, 10, content.start as int, content.end as int);
        if kind is Indented {
            Some(unindented(b.subrange(content.start as int, end)))
        } else {
            Some(span::chars_of(b, content.start as int, end))
        }
    }
}

/// The text that a block shows: the code, if it holds a code block; else what its events show,
/// for a list as a list of its lines and otherwise trimmed. `None` if an event has no place in the
/// source.
pub open spec fn block_text(
    b: Seq<u8>,
    events: Seq<RangedModel>,
    kind: MarkdownLivePreviewBlockKind,
) -> Option<Seq<char>> {
    match first_code_block(events) {
        Some((kind, metadata)) => code_block_text(b, kind, metadata.content_range),
        None => match all_shown_in_block(b, events) {
            Some(text) => {
                let t = encode_utf8(text);
                if kind is List || kind is Item {
                    Some(joined(dashed(t, lines(t, 0))))
                } else {
                    let (i, j) = scan::trimmed(t, 0, t.len() as int);
                    Some(span::chars_of(t, i, j))
                }
            },
            None => None,
        },
    }
}

/// The ranges are slices of the text.
spec fn are_slices(b: Seq<u8>, ranges: Seq<(int, int)>) -> bool {
    forall|i: int|
        0 <= i < ranges.len() ==> span::is_slice(b, (#[trigger] ranges[i]).0, ranges[i].1)
}

/// The model of a list of ranges.
spec fn range_models(ranges: Seq<Range<usize>>) -> Seq<(int, int)> {
    ranges.map_values(|r: Range<usize>| (r.start as int, r.end as int))
}

/// The lines of a text: see [`lines`].
fn line_ranges(text: &str) -> (r: Vec<Range<usize>>)
    ensures
        range_models(r@) == lines(text.spec_bytes(), 0),
        are_slices(text.spec_bytes(), range_models(r@)),
{
    let bytes = text.as_bytes();
    let ghost b = text.spec_bytes();
    let n = bytes.len();
    let mut r: Vec<Range<usize>> = Vec::new();
    let mut p: usize = 0;
    proof {
        span::lemma_str_bytes(text);
        assert(range_models(r@) + lines(b, 0) =~= lines(b, 0));
    }
    while p < n
        invariant
            b == text.spec_bytes(),
            b == bytes@,
            valid_utf8(b),
            n == b.len(),
            p <= n,
            span::on_boundary(b, p as int),
            range_models(r@) + lines(b, p as int) == lines(b, 0),
            are_slices(b, range_models(r@)),
        decreases n - p,
    {
        let newline = span::find_byte_at(bytes, 10, p, n);
        let end = if p < newline && newline < n && bytes[newline - 1] == 13 {
            newline - 1
        } else {
            newline
        };
        let next = if newline < n {
            newline + 1
        } else {
            n
        };
        proof {
            if newline < n {
                span::lemma_ascii_boundary(b, newline as int);
                if end < newline {
                    span::lemma_ascii_boundary(b, end as int);
                }
            }
            let line = (p as int, end as int);
            let before = range_models(r@);
            assert(range_models(r@.push(p..end)) =~= before.push(line));
            assert(before.push(line) + lines(b, next as int) =~= before + (seq![line] + lines(
                b,
                next as int,
            )));
            assert(are_slices(b, before.push(line)));
        }
        r.push(p..end);
        p = next;
    }
    assert(range_models(r@) + Seq::empty() =~= range_models(r@));
    r
}

/// The model of a list of texts.
spec fn text_models(texts: Seq<String>) -> Seq<Seq<char>> {
    texts.map_values(|s: String| s@)
}

/// Joins texts: see [`joined`].
fn join(texts: &Vec<String>) -> (r: String)
    ensures
        r@ == joined(text_models(texts@)),
{
    let ghost models = text_models(texts@);
    let mut r = String::new();
    assert(r@ =~= Seq::empty());
    assert(models.take(0).len() == 0);
    for i in 0..texts.len()
        invariant
            models == text_models(texts@),
            r@ == joined(models.take(i as int)),
    {
        proof {
            assert(models.take(i + 1).drop_last() =~= models.take(i as int));
            reveal_strlit("\n");
        }
        if i > 0 {
            r.append("\n");
            assert(r@ =~= joined(models.take(i as int)) + seq!['\n']);
        }
        r.append(texts[i].as_str());
        assert(r@ =~= joined(models.take(i + 1)));
    }
    assert(models.take(models.len() as int) =~= models);
    r
}

/// The lines of a text without their indentation: see [`unindented`].
fn unindent(text: &str) -> (r: String)
    ensures
        r@ == unindented(text.spec_bytes()),
{
    let bytes = text.as_bytes();
    let ghost b = text.spec_bytes();
    let ghost all = lines(b, 0);
    let ranges = line_ranges(text);
    let mut texts: Vec<String> = Vec::new();
    proof {
        span::lemma_str_bytes(text);
    }
    for i in 0..ranges.len()
        invariant
            b == text.spec_bytes(),
            b == bytes@,
            valid_utf8(b),
            all == range_models(ranges@),
            are_slices(b, all),
            text_models(texts@) == all.take(i as int).map_values(
                |line: (int, int)| unindented_line(b, line),
            ),
    {
        let line = &ranges[i];
        proof {
            assert(all[i as int] == (line.start as int, line.end as int));
        }
        let start = if line.end - line.start >= 4 && bytes[line.start] == 0x20 && bytes[line.start
            + 1] == 0x20 && bytes[line.start + 2] == 0x20 && bytes[line.start + 3] == 0x20 {
            proof {
                span::lemma_ascii_boundary(b, line.start + 3);
            }
            line.start + 4
        } else {
            line.start
        };
        let content = span::slice(text, start, line.end).to_owned();
        proof {
            assert(content@ == unindented_line(b, all[i as int]));
            assert(text_models(texts@.push(content)) =~= text_models(texts@).push(content@));
            assert(all.take(i + 1).map_values(|line: (int, int)| unindented_line(b, line))
                =~= all.take(i as int).map_values(
                |line: (int, int)| unindented_line(b, line),
            ).push(content@));
        }
        texts.push(content);
    }
    assert(all.take(all.len() as int) =~= all);
    join(&texts)
}

/// The lines of a text as a list: see [`dashed`].
fn dash_lines(text: &str) -> (r: String)
    ensures
        r@ == joined(dashed(text.spec_bytes(), lines(text.spec_bytes(), 0))),
{
    let ghost b = text.spec_bytes();
    let ghost all = lines(b, 0);
    let ranges = line_ranges(text);
    let mut texts: Vec<String> = Vec::new();
    assert(all.take(0).len() == 0);
    for i in 0..ranges.len()
        invariant
            b == text.spec_bytes(),
            all == range_models(ranges@),
            are_slices(b, all),
            text_models(texts@) == dashed(b, all.take(i as int)),
    {
        proof {
            assert(all[i as int] == (ranges@[i as int].start as int, ranges@[i as int].end as int));
            assert(all.take(i + 1).drop_last() =~= all.take(i as int));
            reveal_strlit("- ");
        }
        let line = scan::trim_metadata_range(text, ranges[i].start..ranges[i].end);
        if line.start < line.end {
            let mut item = "- ".to_owned();
            assert(item@ =~= seq!['-', ' ']);
            item.append(span::slice(text, line.start, line.end));
            proof {
                assert(text_models(texts@.push(item)) =~= text_models(texts@).push(item@));
            }
            texts.push(item);
        }
    }
    assert(all.take(all.len() as int) =~= all);
    join(&texts)
}

/// The text that an event shows in a block: see [`shown_in_block`].
fn append_shown(source: &str, event: &RangedEvent, r: &mut String) -> (ok: bool)
    ensures
        match shown_in_block(source.spec_bytes(), event::ranged_model(*event)) {
            Some(text) => ok && final(r)@ == old(r)@ + text,
            None => !ok,
        },
{
    proof {
        reveal_strlit("\n");
        reveal_strlit("[x] ");
        reveal_strlit("[ ] ");
        reveal_strlit("---");
        reveal_strlit("");
    }
    let (range, event) = event;
    let text = match event {
        MarkdownEvent::Text | MarkdownEvent::Code => {
            if !span::can_slice(source, range.start, range.end) {
                return false;
            }
            span::slice(source, range.start, range.end)
        },
        MarkdownEvent::SubstitutedText(text) => text.as_str(),
        MarkdownEvent::SoftBreak | MarkdownEvent::HardBreak => {
            assert("\n"@ =~= seq!['\n']);
            "\n"
        },
        MarkdownEvent::TaskListMarker(checked) => {
            assert("[x] "@ =~= seq!['[', 'x', ']', ' ']);
            assert("[ ] "@ =~= seq!['[', ' ', ']', ' ']);
            if *checked {
                "[x] "
            } else {
                "[ ] "
            }
        },
        MarkdownEvent::Rule => {
            assert("---"@ =~= seq!['-', '-', '-']);
            "---"
        },
        _ => {
            assert(""@ =~= Seq::empty());
            ""
        },
    };
    r.append(text);
    true
}

/// The first code block among the events: see [`first_code_block`].
fn find_code_block(events: &[RangedEvent]) -> (r: Option<usize>)
    ensures
        match first_code_block(event::models(events@)) {
            Some((kind, metadata)) => r is Some && r->0 < events@.len()
                && events@[r->0 as int].1@ == EventModel::Start(
                TagModel::CodeBlock { kind, metadata },
            ),
            None => r is None,
        },
{
    let ghost models = event::models(events@);
    let mut i: usize = 0;
    assert(models.skip(0) =~= models);
    while i < events.len()
        invariant
            i <= events@.len(),
            models == event::models(events@),
            first_code_block(models) == first_code_block(models.skip(i as int)),
        decreases events@.len() - i,
    {
        proof {
            assert(models.skip(i as int)[0] == event::ranged_model(events@[i as int]));
            assert(models.skip(i as int).drop_first() =~= models.skip(i + 1));
        }
        if let MarkdownEvent::Start(MarkdownTag::CodeBlock { .. }) = &events[i].1 {
            return Some(i);
        }
        i += 1;
    }
    None
}

/// The text of a code block: see [`code_block_text`].
fn code_text(source: &str, kind: &CodeBlockKind, content: &Range<usize>) -> (r: Option<String>)
    ensures
        event::optional_chars(r) == code_block_text(source.spec_bytes(), kind@, *content),
{
    if !span::can_slice(source, content.start, content.end) {
        return None;
    }
    let end = span::run_start_at(source.as_bytes(), 10, content.start, content.end);
    proof {
        span::lemma_str_bytes(source);
        span::lemma_run_start_boundary(
            source.spec_bytes(),
            10,
            content.start as int,
            content.end as int,
        );
    }
    let text = span::slice(source, content.start, end);
    if let CodeBlockKind::Indented = kind {
        Some(unindent(text))
    } else {
        Some(text.to_owned())
    }
}

proof fn lemma_all_shown_none(b: Seq<u8>, events: Seq<RangedModel>, i: int)
    requires
        0 <= i <= events.len(),
        all_shown_in_block(b, events.take(i)) is None,
    ensures
        all_shown_in_block(b, events) is None,
    decreases events.len() - i,
{
    if i < events.len() {
        assert(events.take(i + 1).drop_last() =~= events.take(i));
        lemma_all_shown_none(b, events, i + 1);
    } else {
        assert(events.take(i) =~= events);
    }
}

/// The text that a block shows: see [`block_text`].
pub fn live_preview_block_text(
    source: &str,
    events: &[RangedEvent],
    kind: MarkdownLivePreviewBlockKind,
) -> (r: Option<String>)
    ensures
        event::optional_chars(r) == block_text(source.spec_bytes(), event::models(events@), kind),
{
    let ghost b = source.spec_bytes();
    let ghost models = event::models(events@);
    if let Some(i) = find_code_block(events) {
        if let MarkdownEvent::Start(MarkdownTag::CodeBlock { kind, metadata }) = &events[i].1 {
            return code_text(source, kind, &metadata.content_range);
        }
    }
    let mut text = String::new();
    assert(text@ =~= Seq::empty());
    assert(models.take(0).len() == 0);
    for i in 0..events.len()
        invariant
            b == source.spec_bytes(),
            models == event::models(events@),
            first_code_block(models) is None,
            all_shown_in_block(b, models.take(i as int)) == Some(text@),
    {
        proof {
            assert(models.take(i + 1).drop_last() =~= models.take(i as int));
            assert(models[i as int] == event::ranged_model(events@[i as int]));
        }
        if !append_shown(source, &events[i], &mut text) {
            proof {
                lemma_all_shown_none(b, models, i + 1);
            }
            return None;
        }
    }
    assert(models.take(models.len() as int) =~= models);
    let shown = text.as_str();
    match kind {
        MarkdownLivePreviewBlockKind::List | MarkdownLivePreviewBlockKind::Item => Some(
            dash_lines(shown),
        ),
        _ => {
            let trimmed = scan::trim_metadata_range(shown, 0..shown.as_bytes().len());
            Some(span::slice(shown, trimmed.start, trimmed.end).to_owned())
        },
    }
}

/// How many lines a text has.
pub fn count_lines(text: &str) -> (r: usize)
    ensures
        r == lines(text.spec_bytes(), 0).len(),
{
    line_ranges(text).len()
}

} // verus!
