//! What lists and code show, line by line.
use super::markers;
use super::text;
use crate::block_text;
use crate::event::{CodeBlockKindModel, CodeBlockMetadata, EventModel, RangedModel, TagModel};
use crate::preview::MarkdownLivePreviewBlockKind as Kind;
use crate::scan;
use crate::span;
use vstd::prelude::*;
use vstd::utf8::*;

verus! {

/// What a list with this text shows.
pub open spec fn as_list(b: Seq<u8>) -> Seq<char> {
    block_text::joined(block_text::dashed(b, block_text::lines(b, 0)))
}

/// Two texts with a new line between them, unless one of them is empty.
pub open spec fn one_below_the_other(x: Seq<char>, y: Seq<char>) -> Seq<char> {
    if x.len() == 0 {
        y
    } else if y.len() == 0 {
        x
    } else {
        x + "\n"@ + y
    }
}

spec fn shifted(lines: Seq<(int, int)>, p: int) -> Seq<(int, int)> {
    Seq::new(lines.len(), |k: int| (lines[k].0 + p, lines[k].1 + p))
}

proof fn lemma_find_byte_shifted(x: Seq<u8>, y: Seq<u8>, p: int, byte: u8, i: int, j: int)
    requires
        0 <= p <= x.len(),
        y == x.subrange(p, x.len() as int),
        0 <= i <= j <= y.len(),
    ensures
        span::find_byte(x, byte, p + i, p + j) == p + span::find_byte(y, byte, i, j),
    decreases j - i,
{
    if i < j {
        assert(y[i] == x[p + i]);
        if y[i] != byte {
            lemma_find_byte_shifted(x, y, p, byte, i + 1, j);
        }
    }
}

proof fn lemma_lines_shifted(x: Seq<u8>, y: Seq<u8>, p: int, q: int)
    requires
        0 <= p <= x.len(),
        y == x.subrange(p, x.len() as int),
        0 <= q <= y.len(),
    ensures
        block_text::lines(x, p + q) == shifted(block_text::lines(y, q), p),
    decreases y.len() - q,
{
    if q < y.len() {
        let n = y.len() as int;
        lemma_find_byte_shifted(x, y, p, 10, q, n);
        span::lemma_find_byte(y, 10, q, n);
        let end = span::find_byte(y, 10, q, n);
        let next = scan::next_line(y, q, n);
        assert(scan::next_line(x, p + q, x.len() as int) == p + next);
        if q < end {
            assert(y[end - 1] == x[p + end - 1]);
        }
        assert(block_text::line_text_end(x, p + q) == p + block_text::line_text_end(y, q));
        lemma_lines_shifted(x, y, p, next);
        assert(block_text::lines(x, p + q) =~= shifted(block_text::lines(y, q), p));
    } else {
        assert(block_text::lines(x, p + q) =~= shifted(block_text::lines(y, q), p));
    }
}

/// The lines of a text whose first line ends at `n`, before a newline at `newline`.
proof fn lemma_first_line(x: Seq<u8>, n: int, newline: int)
    requires
        0 <= n <= newline < x.len(),
        x[newline] == 10,
        forall|k: int| 0 <= k < newline ==> #[trigger] x[k] != 10,
        n == newline && (n > 0 ==> x[n - 1] != 13) || n + 1 == newline && x[n] == 13,
    ensures
        block_text::lines(x, 0) == seq![(0int, n)] + shifted(
            block_text::lines(x.subrange(newline + 1, x.len() as int), 0),
            newline + 1,
        ),
{
    let len = x.len() as int;
    super::code::lemma_find_byte_is(x, 10, 0, len, newline);
    lemma_lines_shifted(x, x.subrange(newline + 1, len), newline + 1, 0);
}

proof fn lemma_only_line(l: Seq<u8>)
    requires
        l.len() > 0,
        forall|k: int| 0 <= k < l.len() ==> #[trigger] l[k] != 10,
    ensures
        block_text::lines(l, 0) == seq![(0int, l.len() as int)],
{
    let n = l.len() as int;
    super::code::lemma_find_byte_none(l, 10, 0, n);
    assert(block_text::lines(l, n) =~= Seq::empty());
    assert(block_text::lines(l, 0) =~= seq![(0int, n)]);
}

proof fn lemma_joined(x: Seq<Seq<char>>, y: Seq<Seq<char>>)
    requires
        x.len() > 0,
        y.len() > 0,
    ensures
        block_text::joined(x + y) == block_text::joined(x) + "\n"@ + block_text::joined(y),
    decreases y.len(),
{
    reveal_strlit("\n");
    assert("\n"@ =~= seq!['\n']);
    let all = x + y;
    assert(all.drop_last() =~= x + y.drop_last());
    assert(all.last() == y.last());
    if y.len() == 1 {
        assert(x + y.drop_last() =~= x);
    } else {
        lemma_joined(x, y.drop_last());
        let a = block_text::joined(x);
        let c = block_text::joined(y.drop_last());
        assert((a + "\n"@ + c) + seq!['\n'] + y.last() =~= a + "\n"@ + (c + seq!['\n'] + y.last()));
    }
}

/// Without the spaces that make it code, a line is the line itself, but for four spaces that it
/// starts with.
pub proof fn law_code_lines_lose_four_spaces(l: Seq<u8>)
    requires
        l.len() > 0,
        text::is_without(l, '\n', 0, l.len() as int),
    ensures
        (l.len() >= 4 && l[0] == ' ' as u8 && l[1] == ' ' as u8 && l[2] == ' ' as u8 && l[3]
            == ' ' as u8) ==> block_text::unindented(l) == decode_utf8(
            l.subrange(4, l.len() as int),
        ),
        !(l.len() >= 4 && l[0] == ' ' as u8 && l[1] == ' ' as u8 && l[2] == ' ' as u8 && l[3]
            == ' ' as u8) ==> block_text::unindented(l) == decode_utf8(l),
{
    lemma_only_line(l);
    let f = |line: (int, int)| block_text::unindented_line(l, line);
    let n = l.len() as int;
    assert(seq![(0int, n)].map_values(f) =~= seq![block_text::unindented_line(l, (0, n))]);
    assert(l.subrange(0, n) =~= l);
}

proof fn lemma_unindented_parts(x: Seq<u8>, n: int, newline: int)
    requires
        0 <= n <= newline < x.len(),
        newline + 1 < x.len(),
        x[newline] == 10,
        forall|k: int| 0 <= k < newline ==> #[trigger] x[k] != 10,
        n == newline && (n > 0 ==> x[n - 1] != 13) || n + 1 == newline && x[n] == 13,
    ensures
        block_text::unindented(x) == block_text::unindented(x.subrange(0, n)) + "\n"@
            + block_text::unindented(x.subrange(newline + 1, x.len() as int)),
{
    let l = x.subrange(0, n);
    let y = x.subrange(newline + 1, x.len() as int);
    lemma_first_line(x, n, newline);
    let below = block_text::lines(y, 0);
    let moved = shifted(below, newline + 1);
    let f = |line: (int, int)| block_text::unindented_line(x, line);
    let g = |line: (int, int)| block_text::unindented_line(y, line);
    let head = seq![(0int, n)].map_values(f);
    assert((seq![(0int, n)] + moved).map_values(f) =~= head + moved.map_values(f));
    lemma_lines_within(y, 0);
    assert forall|k: int| 0 <= k < below.len() implies #[trigger] moved.map_values(f)[k]
        == below.map_values(g)[k] by {
        let (i, j) = below[k];
        assert(0 <= i <= j <= y.len());
        assert forall|c: int| 0 <= c < y.len() implies #[trigger] y[c] == x[newline + 1 + c] by {}
        assert(x.subrange(newline + 1 + i, newline + 1 + j) =~= y.subrange(i, j));
        if i + 4 <= j {
            assert(y[i] == x[newline + 1 + i] && y[i + 1] == x[newline + 1 + i + 1] && y[i + 2]
                == x[newline + 1 + i + 2] && y[i + 3] == x[newline + 1 + i + 3]);
            assert(x.subrange(newline + 1 + i + 4, newline + 1 + j) =~= y.subrange(i + 4, j));
        }
    }
    assert(moved.map_values(f) =~= below.map_values(g));
    assert(below.len() > 0);
    lemma_joined(head, below.map_values(g));
    assert(block_text::joined(head) == head[0]);
    if n > 0 {
        assert forall|k: int| 0 <= k < l.len() implies #[trigger] l[k] != 10 by {
            assert(l[k] == x[k]);
        }
        law_code_lines_lose_four_spaces(l);
        assert(x.subrange(0, n) =~= l);
        if n >= 4 {
            assert(l[0] == x[0] && l[1] == x[1] && l[2] == x[2] && l[3] == x[3]);
            assert(x.subrange(4, n) =~= l.subrange(4, n));
        }
    } else {
        assert(x.subrange(0, 0) =~= Seq::empty());
        assert(block_text::lines(l, 0) =~= Seq::empty());
        let h = |line: (int, int)| block_text::unindented_line(l, line);
        assert(block_text::lines(l, 0).map_values(h).len() == 0);
        assert(block_text::unindented(l) =~= Seq::empty());
        assert(head[0] =~= Seq::empty());
    }
}

proof fn lemma_lines_within(y: Seq<u8>, q: int)
    requires
        0 <= q <= y.len(),
    ensures
        forall|k: int|
            0 <= k < block_text::lines(y, q).len() ==> q <= (#[trigger] block_text::lines(y, q)[k]).0
                <= block_text::lines(y, q)[k].1 <= y.len(),
    decreases y.len() - q,
{
    if q < y.len() {
        let n = y.len() as int;
        span::lemma_find_byte(y, 10, q, n);
        let next = scan::next_line(y, q, n);
        lemma_lines_within(y, next);
        let rest = block_text::lines(y, next);
        let all = block_text::lines(y, q);
        assert forall|k: int| 0 <= k < all.len() implies q <= (#[trigger] all[k]).0 <= all[k].1
            <= y.len() by {
            if k > 0 {
                assert(all[k] == rest[k - 1]);
            }
        }
    }
}

/// Indented code loses its indentation line by line, whether its lines end with a newline alone or
/// with a carriage return before it.
pub proof fn law_code_is_unindented_line_by_line(l: Seq<u8>, y: Seq<u8>)
    requires
        text::is_without(l, '\n', 0, l.len() as int),
        l.len() > 0 ==> l.last() != '\r' as u8,
        y.len() > 0,
    ensures
        block_text::unindented(l + seq!['\n' as u8] + y) == block_text::unindented(l) + "\n"@
            + block_text::unindented(y),
        block_text::unindented(l + seq!['\r' as u8, '\n' as u8] + y) == block_text::unindented(l)
            + "\n"@ + block_text::unindented(y),
{
    let n = l.len() as int;
    let a = l + seq!['\n' as u8] + y;
    assert forall|k: int| 0 <= k < n implies #[trigger] a[k] != 10 by {
        assert(a[k] == l[k]);
    }
    if n > 0 {
        assert(a[n - 1] == l[n - 1]);
    }
    lemma_unindented_parts(a, n, n);
    assert(a.subrange(0, n) =~= l);
    assert(a.subrange(n + 1, a.len() as int) =~= y);
    let c = l + seq!['\r' as u8, '\n' as u8] + y;
    assert forall|k: int| 0 <= k < n + 1 implies #[trigger] c[k] != 10 by {
        if k < n {
            assert(c[k] == l[k]);
        }
    }
    lemma_unindented_parts(c, n, n + 1);
    assert(c.subrange(0, n) =~= l);
    assert(c.subrange(n + 2, c.len() as int) =~= y);
}

/// A code block shows its content without the newlines at its end: as it is written, or without its
/// indentation if that makes it code.
pub proof fn law_code_shows_its_content(
    b: Seq<u8>,
    events: Seq<RangedModel>,
    kind: Kind,
    k: int,
    code: CodeBlockKindModel,
    metadata: CodeBlockMetadata,
    end: int,
)
    requires
        0 <= k < events.len(),
        events[k].1 == EventModel::Start(TagModel::CodeBlock { kind: code, metadata }),
        forall|j: int|
            0 <= j < k ==> !((#[trigger] events[j]).1 matches EventModel::Start(tag) && tag
                is CodeBlock),
        ({
            let content = metadata.content_range;
            &&& span::is_slice(b, content.start as int, content.end as int)
            &&& content.start <= end <= content.end
            &&& super::code::is_run_of(b, '\n', end, content.end as int)
            &&& content.start < end ==> b[end - 1] != '\n' as u8
        }),
    ensures
        block_text::block_text(b, events, kind) == Some(
            if code is Indented {
                block_text::unindented(b.subrange(metadata.content_range.start as int, end))
            } else {
                decode_utf8(b.subrange(metadata.content_range.start as int, end))
            },
        ),
{
    lemma_first_code(events, k, code, metadata);
    let content = metadata.content_range;
    markers::lemma_run_start_is(
        b,
        10,
        content.start as int,
        content.end as int,
        content.end - end,
    );
}

proof fn lemma_first_code(
    events: Seq<RangedModel>,
    k: int,
    code: CodeBlockKindModel,
    metadata: CodeBlockMetadata,
)
    requires
        0 <= k < events.len(),
        events[k].1 == EventModel::Start(TagModel::CodeBlock { kind: code, metadata }),
        forall|j: int|
            0 <= j < k ==> !((#[trigger] events[j]).1 matches EventModel::Start(tag) && tag
                is CodeBlock),
    ensures
        block_text::first_code_block(events) == Some((code, metadata)),
    decreases events.len(),
{
    if k > 0 {
        let rest = events.drop_first();
        assert(!(events[0].1 matches EventModel::Start(tag) && tag is CodeBlock));
        assert forall|j: int| 0 <= j < k - 1 implies !((
        #[trigger] rest[j]).1 matches EventModel::Start(tag) && tag is CodeBlock) by {
            assert(rest[j] == events[j + 1]);
        }
        lemma_first_code(rest, k - 1, code, metadata);
    }
}

proof fn lemma_trim_same(x: Seq<u8>, i: int, j: int, y: Seq<u8>, k: int, l: int)
    requires
        valid_utf8(x),
        valid_utf8(y),
        span::is_slice(x, i, j),
        span::is_slice(y, k, l),
        x.subrange(i, j) == y.subrange(k, l),
    ensures
        ({
            let (s, e) = scan::trimmed(x, i, j);
            let (u, v) = scan::trimmed(y, k, l);
            &&& (s < e) == (u < v)
            &&& s < e ==> span::chars_of(x, s, e) == span::chars_of(y, u, v)
        }),
{
    let (s, e) = scan::trimmed(x, i, j);
    let (u, v) = scan::trimmed(y, k, l);
    text::law_trimming_takes_white_space_off(x, i, j);
    text::law_trimming_takes_white_space_off(y, k, l);
    if s < e {
        text::lemma_chars_concat(x, i, s, e);
        text::lemma_chars_concat(x, i, e, j);
        text::law_trimming_keeps_what_is_between(
            y,
            k,
            l,
            span::chars_of(x, i, s),
            span::chars_of(x, s, e),
            span::chars_of(x, e, j),
        );
    }
}

proof fn lemma_dashed_concat(x: Seq<u8>, a: Seq<(int, int)>, c: Seq<(int, int)>)
    ensures
        block_text::dashed(x, a + c) == block_text::dashed(x, a) + block_text::dashed(x, c),
    decreases c.len(),
{
    if c.len() == 0 {
        assert(a + c =~= a);
        assert(block_text::dashed(x, a) + block_text::dashed(x, c) =~= block_text::dashed(x, a));
    } else {
        lemma_dashed_concat(x, a, c.drop_last());
        assert((a + c).drop_last() =~= a + c.drop_last());
        assert(block_text::dashed(x, a + c) =~= block_text::dashed(x, a) + block_text::dashed(
            x,
            c,
        ));
    }
}

proof fn lemma_dashed_same(
    x: Seq<u8>,
    a: Seq<(int, int)>,
    y: Seq<u8>,
    c: Seq<(int, int)>,
)
    requires
        valid_utf8(x),
        valid_utf8(y),
        a.len() == c.len(),
        forall|k: int|
            0 <= k < a.len() ==> span::is_slice(x, (#[trigger] a[k]).0, a[k].1) && span::is_slice(
                y,
                c[k].0,
                c[k].1,
            ) && x.subrange(a[k].0, a[k].1) == y.subrange(c[k].0, c[k].1),
    ensures
        block_text::dashed(x, a) == block_text::dashed(y, c),
    decreases a.len(),
{
    if a.len() > 0 {
        assert forall|k: int| 0 <= k < a.drop_last().len() implies span::is_slice(
            x,
            (#[trigger] a.drop_last()[k]).0,
            a.drop_last()[k].1,
        ) && span::is_slice(y, c.drop_last()[k].0, c.drop_last()[k].1) && x.subrange(
            a.drop_last()[k].0,
            a.drop_last()[k].1,
        ) == y.subrange(c.drop_last()[k].0, c.drop_last()[k].1) by {
            assert(a.drop_last()[k] == a[k]);
        }
        lemma_dashed_same(x, a.drop_last(), y, c.drop_last());
        let n = a.len() - 1;
        assert(span::is_slice(x, a[n].0, a[n].1));
        lemma_trim_same(x, a[n].0, a[n].1, y, c[n].0, c[n].1);
    }
}

proof fn lemma_lines_are_slices(y: Seq<u8>, q: int)
    requires
        valid_utf8(y),
        0 <= q <= y.len(),
        span::on_boundary(y, q),
    ensures
        forall|k: int|
            0 <= k < block_text::lines(y, q).len() ==> span::is_slice(
                y,
                (#[trigger] block_text::lines(y, q)[k]).0,
                block_text::lines(y, q)[k].1,
            ),
    decreases y.len() - q,
{
    if q < y.len() {
        let n = y.len() as int;
        span::lemma_find_byte(y, 10, q, n);
        let newline = span::find_byte(y, 10, q, n);
        let next = scan::next_line(y, q, n);
        let end = block_text::line_text_end(y, q);
        if newline < n {
            span::lemma_ascii_boundary(y, newline);
            if end < newline {
                span::lemma_ascii_boundary(y, end);
            }
        }
        lemma_lines_are_slices(y, next);
        let rest = block_text::lines(y, next);
        let all = block_text::lines(y, q);
        assert forall|k: int| 0 <= k < all.len() implies span::is_slice(
            y,
            (#[trigger] all[k]).0,
            all[k].1,
        ) by {
            if k > 0 {
                assert(all[k] == rest[k - 1]);
            }
        }
    }
}

proof fn lemma_joined_empty(texts: Seq<Seq<char>>)
    requires
        forall|k: int| 0 <= k < texts.len() ==> (#[trigger] texts[k]).len() > 0,
    ensures
        block_text::joined(texts).len() == 0 <==> texts.len() == 0,
{
    if texts.len() > 0 {
        assert(texts[texts.len() - 1].len() > 0);
        assert(texts.last().len() > 0);
    }
}

proof fn lemma_dashed_items(x: Seq<u8>, lines: Seq<(int, int)>)
    ensures
        forall|k: int|
            0 <= k < block_text::dashed(x, lines).len() ==> (#[trigger] block_text::dashed(
                x,
                lines,
            )[k]).len() > 0,
    decreases lines.len(),
{
    if lines.len() > 0 {
        lemma_dashed_items(x, lines.drop_last());
        let before = block_text::dashed(x, lines.drop_last());
        let all = block_text::dashed(x, lines);
        assert forall|k: int| 0 <= k < all.len() implies (#[trigger] all[k]).len() > 0 by {
            if k < before.len() {
                assert(all[k] == before[k]);
            }
        }
    }
}

/// A line of a list is shown behind a dash, without white space around it; a blank line is not
/// shown.
pub proof fn law_list_lines_get_dashes(
    l: Seq<u8>,
    pre: Seq<char>,
    item: Seq<char>,
    post: Seq<char>,
)
    requires
        valid_utf8(l),
        text::is_without(l, '\n', 0, l.len() as int),
        decode_utf8(l) == pre + item + post,
        text::all_blank(pre),
        text::all_blank(post),
        item.len() == 0 || text::is_trim(item),
    ensures
        as_list(l) == (if item.len() == 0 {
            ""@
        } else {
            "- "@ + item
        }),
{
    reveal_strlit("");
    reveal_strlit("- ");
    assert("- "@ =~= seq!['-', ' ']);
    assert(""@ =~= Seq::empty());
    let n = l.len() as int;
    assert(l.subrange(0, n) =~= l);
    if n > 0 {
        lemma_only_line(l);
        let lines = seq![(0int, n)];
        assert(lines.drop_last() =~= Seq::empty());
        assert(block_text::dashed(l, lines.drop_last()) =~= Seq::empty());
        text::law_trimming_takes_white_space_off(l, 0, n);
        if item.len() > 0 {
            text::law_trimming_keeps_what_is_between(l, 0, n, pre, item, post);
            assert(block_text::dashed(l, lines) =~= seq![seq!['-', ' '] + item]);
        } else {
            let all = decode_utf8(l);
            assert forall|k: int| 0 <= k < all.len() implies text::is_blank(#[trigger] all[k]) by {
                if k < pre.len() {
                    assert(all[k] == pre[k]);
                } else {
                    assert(all[k] == post[k - pre.len()]);
                }
            }
            assert(block_text::dashed(l, lines) =~= Seq::empty());
        }
    } else {
        assert(block_text::lines(l, 0) =~= Seq::empty());
        assert(decode_utf8(l) =~= Seq::empty());
        assert(item.len() == 0) by {
            assert((pre + item + post).len() == 0);
        }
    }
}

/// A list shows its lines one below the other.
pub proof fn law_lists_are_shown_line_by_line(l: Seq<u8>, y: Seq<u8>)
    requires
        valid_utf8(l),
        valid_utf8(y),
        text::is_without(l, '\n', 0, l.len() as int),
        l.len() > 0 ==> l.last() != '\r' as u8,
    ensures
        as_list(l + seq!['\n' as u8] + y) == one_below_the_other(as_list(l), as_list(y)),
{
    let n = l.len() as int;
    let newline = seq!['\n' as u8];
    let x = l + newline + y;
    assert(valid_utf8(newline)) by {
        assert(pop_first_scalar(newline) =~= Seq::empty());
        assert(newline[0] == 10);
        reveal_with_fuel(valid_utf8, 2);
        lemma_newline_scalar(newline);
    }
    valid_utf8_concat(l, newline);
    valid_utf8_concat(l + newline, y);
    assert forall|k: int| 0 <= k < n implies #[trigger] x[k] != 10 by {
        assert(x[k] == l[k]);
    }
    if n > 0 {
        assert(x[n - 1] == l[n - 1]);
    }
    assert(x.subrange(n + 1, x.len() as int) =~= y);
    lemma_first_line(x, n, n);
    let below = block_text::lines(y, 0);
    let moved = shifted(below, n + 1);
    let head = seq![(0int, n)];
    lemma_dashed_concat(x, head, moved);
    lemma_lines_are_slices(y, 0);
    lemma_lines_are_slices(x, 0);
    let all = block_text::lines(x, 0);
    assert(all == head + moved);
    assert forall|k: int| 0 <= k < moved.len() implies span::is_slice(
        x,
        (#[trigger] moved[k]).0,
        moved[k].1,
    ) && span::is_slice(y, below[k].0, below[k].1) && x.subrange(moved[k].0, moved[k].1)
        == y.subrange(below[k].0, below[k].1) by {
        assert(all[k + 1] == moved[k]);
        assert(span::is_slice(y, below[k].0, below[k].1));
        assert(x.subrange(moved[k].0, moved[k].1) =~= y.subrange(below[k].0, below[k].1));
    }
    lemma_dashed_same(x, moved, y, below);
    let first = block_text::dashed(x, head);
    let rest = block_text::dashed(y, below);
    if n > 0 {
        assert forall|k: int| 0 <= k < l.len() implies #[trigger] l[k] != 10 by {}
        lemma_only_line(l);
        assert(all[0] == (0int, n));
        assert(span::is_slice(x, 0, n));
        assert(x.subrange(0, n) =~= l.subrange(0, n));
        lemma_dashed_same(x, head, l, head);
        assert(first == block_text::dashed(l, block_text::lines(l, 0)));
    } else {
        assert(block_text::lines(l, 0) =~= Seq::empty());
        assert(head.drop_last() =~= Seq::empty());
        let (s, e) = scan::trimmed(x, 0, 0);
        text::law_trimming_takes_white_space_off(x, 0, 0);
        assert(s == e);
        assert(head.last() == (0int, 0int));
        assert(block_text::dashed(x, head.drop_last()) =~= Seq::empty());
        assert(first =~= Seq::empty());
        assert(block_text::dashed(l, block_text::lines(l, 0)) =~= Seq::empty());
    }
    lemma_dashed_items(x, head);
    lemma_dashed_items(y, below);
    lemma_joined_empty(first);
    lemma_joined_empty(rest);
    if first.len() == 0 {
        assert(first + rest =~= rest);
    } else if rest.len() == 0 {
        assert(first + rest =~= first);
    } else {
        lemma_joined(first, rest);
    }
}

proof fn lemma_newline_scalar(newline: Seq<u8>)
    requires
        newline.len() == 1,
        newline[0] == 10,
    ensures
        valid_first_scalar(newline),
{
    text::lemma_ascii_scalar(newline, 0);
    assert(newline.subrange(0, 1) =~= newline);
}

/// A list or an item without code shows what its events add, run together, as a list.
pub proof fn law_lists_show_what_their_events_add(
    b: Seq<u8>,
    events: Seq<RangedModel>,
    kind: Kind,
    texts: Seq<Seq<char>>,
)
    requires
        kind is List || kind is Item,
        super::blocks::has_no_code_block(events),
        texts.len() == events.len(),
        forall|k: int|
            0 <= k < events.len() ==> super::blocks::adds(b, #[trigger] events[k], texts[k]),
    ensures
        block_text::block_text(b, events, kind) == Some(
            as_list(encode_utf8(super::blocks::run_together(texts))),
        ),
{
    super::blocks::lemma_no_code_block(events);
    super::blocks::lemma_all_shown(b, events, texts);
}

} // verus!
