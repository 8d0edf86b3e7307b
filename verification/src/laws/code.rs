//! Code spans, code blocks and tags: where their content is, and what they are called.
use super::markers;
use super::text;
use crate::autolink;
use crate::convert;
use crate::event::CodeBlockKindModel;
use crate::scan;
use crate::span;
use std::ops::Range;
use vstd::prelude::*;
use vstd::utf8::*;

verus! {

/// There is nothing but the byte in `i..j`.
pub open spec fn is_run_of(b: Seq<u8>, byte: char, i: int, j: int) -> bool {
    forall|k: int| i <= k < j ==> #[trigger] b[k] == byte as u8
}

/// Inline code between as many backticks at either end is what is between them.
pub proof fn law_code_is_between_its_backticks(b: Seq<u8>, n: int)
    requires
        0 < n,
        2 * n < b.len(),
        is_run_of(b, '`', 0, n),
        is_run_of(b, '`', b.len() - n, b.len() as int),
        b[n] != '`' as u8,
        b[b.len() - n - 1] != '`' as u8,
    ensures
        scan::code_content(b) == (n, b.len() - n),
{
    markers::lemma_run_end_is(b, 0x60, 0, b.len() as int, n);
    markers::lemma_run_start_is(b, 0x60, 0, b.len() as int, n);
}

/// What is left out at the ends of inline code are as many backticks at either end; else nothing is
/// left out.
pub proof fn law_backticks_alone_are_left_out(b: Seq<u8>)
    ensures
        ({
            let (s, e) = scan::code_content(b);
            &&& 0 <= s <= e <= b.len()
            &&& s == b.len() - e
            &&& is_run_of(b, '`', 0, s)
            &&& is_run_of(b, '`', e, b.len() as int)
            &&& 0 < s < e ==> b[s] != '`' as u8 && b[e - 1] != '`' as u8
        }),
{
    let n = b.len() as int;
    markers::lemma_run_end_holds(b, 0x60, 0, n);
    markers::lemma_run_start_holds(b, 0x60, 0, n);
    lemma_run_end_stops(b, 0x60, 0, n);
    lemma_run_start_stops(b, 0x60, 0, n);
}

proof fn lemma_run_end_stops(b: Seq<u8>, byte: u8, i: int, j: int)
    ensures
        span::run_end(b, byte, i, j) < j ==> b[span::run_end(b, byte, i, j)] != byte,
    decreases j - i,
{
    if i < j && b[i] == byte {
        lemma_run_end_stops(b, byte, i + 1, j);
    }
}

proof fn lemma_run_start_stops(b: Seq<u8>, byte: u8, i: int, j: int)
    ensures
        i < span::run_start(b, byte, i, j) ==> b[span::run_start(b, byte, i, j) - 1] != byte,
    decreases j - i,
{
    if i < j && b[j - 1] == byte {
        lemma_run_start_stops(b, byte, i, j - 1);
    }
}

/// The block opens with a fence of `n` bytes: three backticks or tildes at least.
pub open spec fn opens_with_fence(b: Seq<u8>, fence: char, n: int) -> bool {
    &&& fence == '`' || fence == '~'
    &&& 3 <= n <= b.len()
    &&& is_run_of(b, fence, 0, n)
    &&& n < b.len() ==> b[n] != fence as u8
}

/// From `c` on stands a line that closes the block: three spaces at most, `m` bytes of the fence,
/// spaces and tabs up to `t`, and the end of the line.
pub open spec fn closes_with_fence(b: Seq<u8>, fence: char, c: int, f: int, m: int, t: int) -> bool {
    &&& 0 < c <= f <= c + 3
    &&& b[c - 1] == '\n' as u8
    &&& is_run_of(b, ' ', c, f)
    &&& 0 < m && f + m <= t <= b.len()
    &&& is_run_of(b, fence, f, f + m)
    &&& forall|k: int| f + m <= k < t ==> #[trigger] b[k] == ' ' as u8 || b[k] == '\t' as u8
    &&& forall|k: int| t <= k < b.len() ==> #[trigger] b[k] == '\n' as u8 || b[k] == '\r' as u8
}

proof fn lemma_line_endings_start(b: Seq<u8>, j: int)
    requires
        0 <= j,
    ensures
        0 <= scan::line_endings_start(b, j) <= j,
        forall|k: int|
            scan::line_endings_start(b, j) <= k < j ==> #[trigger] b[k] == 10 || b[k] == 13,
        scan::line_endings_start(b, j) > 0 ==> b[scan::line_endings_start(b, j) - 1] != 10
            && b[scan::line_endings_start(b, j) - 1] != 13,
    decreases j,
{
    if j > 0 && (b[j - 1] == 13 || b[j - 1] == 10) {
        lemma_line_endings_start(b, j - 1);
    }
}

proof fn lemma_line_endings_start_is(b: Seq<u8>, j: int, t: int)
    requires
        0 < t <= j,
        forall|k: int| t <= k < j ==> #[trigger] b[k] == 10 || b[k] == 13,
        b[t - 1] != 10,
        b[t - 1] != 13,
    ensures
        scan::line_endings_start(b, j) == t,
    decreases j,
{
    if t < j {
        assert(b[j - 1] == 10 || b[j - 1] == 13);
        lemma_line_endings_start_is(b, j - 1, t);
    }
}

proof fn lemma_line_start_is(b: Seq<u8>, i: int, c: int)
    requires
        0 <= c <= i,
        c == 0 || b[c - 1] == 10,
        forall|k: int| c <= k < i ==> #[trigger] b[k] != 10,
    ensures
        span::line_start(b, i) == c,
    decreases i,
{
    if c < i {
        assert(b[i - 1] != 10);
        lemma_line_start_is(b, i - 1, c);
    }
}

/// The content of a fenced code block starts on the line behind its opening fence and ends where the
/// line of its closing fence starts, which is at least as long as the opening one.
pub proof fn law_code_is_between_its_fences(
    b: Seq<u8>,
    fence: char,
    n: int,
    newline: int,
    c: int,
    f: int,
    m: int,
    t: int,
)
    requires
        opens_with_fence(b, fence, n),
        n <= newline < c,
        b[newline] == '\n' as u8,
        text::is_without(b, '\n', n, newline),
        closes_with_fence(b, fence, c, f, m, t),
        n <= m,
    ensures
        scan::fenced_content(b) == (newline + 1, c),
{
    let len = b.len() as int;
    let byte = b[0];
    assert(byte == fence as u8);
    markers::lemma_run_end_is(b, byte, 0, len, n);
    lemma_find_byte_is(b, 10, n, len, newline);
    assert(b[t - 1] != 10 && b[t - 1] != 13) by {
        if t == f + m {
            assert(b[t - 1] == fence as u8);
        }
    }
    lemma_line_endings_start_is(b, len, t);
    assert forall|k: int| c <= k < t implies #[trigger] b[k] != 10 by {
        if k < f {
            assert(b[k] == ' ' as u8);
        } else if k < f + m {
            assert(b[k] == fence as u8);
        }
    }
    lemma_line_start_is(b, t, c);
    assert(b[f] == fence as u8);
    markers::lemma_run_end_is(b, 0x20, c, t, f - c);
    markers::lemma_run_end_is(b, byte, f, t, m);
}

/// A byte is found where it stands first.
pub proof fn lemma_find_byte_is(b: Seq<u8>, byte: u8, i: int, j: int, k: int)
    requires
        i <= k < j,
        b[k] == byte,
        forall|x: int| i <= x < k ==> #[trigger] b[x] != byte,
    ensures
        span::find_byte(b, byte, i, j) == k,
    decreases k - i,
{
    if i < k {
        assert(b[i] != byte);
        lemma_find_byte_is(b, byte, i + 1, j, k);
    }
}

/// A byte that does not occur is not found.
pub proof fn lemma_find_byte_none(b: Seq<u8>, byte: u8, i: int, j: int)
    requires
        i <= j,
        forall|x: int| i <= x < j ==> #[trigger] b[x] != byte,
    ensures
        span::find_byte(b, byte, i, j) == j,
    decreases j - i,
{
    if i < j {
        assert(b[i] != byte);
        lemma_find_byte_none(b, byte, i + 1, j);
    }
}

/// The content of a fenced code block that is not closed reaches to its end. Where it ends earlier,
/// a line that closes the block stands there.
pub proof fn law_code_ends_before_a_closing_fence(b: Seq<u8>, fence: char, n: int)
    requires
        opens_with_fence(b, fence, n),
        scan::fenced_content(b).1 < b.len(),
    ensures
        exists|f: int, m: int, t: int|
            n <= m && #[trigger] closes_with_fence(b, fence, scan::fenced_content(b).1, f, m, t),
{
    let len = b.len() as int;
    let byte = b[0];
    assert(byte == fence as u8);
    markers::lemma_run_end_is(b, byte, 0, len, n);
    let newline = span::find_byte(b, 10, n, len);
    span::lemma_find_byte(b, 10, n, len);
    let start = if newline < len {
        newline + 1
    } else {
        n
    };
    let t = scan::line_endings_start(b, len);
    lemma_line_endings_start(b, len);
    let c = span::line_start(b, t);
    span::lemma_line_start(b, t);
    lemma_line_start_stops(b, t);
    let f = span::run_end(b, 0x20, c, t);
    markers::lemma_run_end_holds(b, 0x20, c, t);
    let e = span::run_end(b, byte, f, t);
    markers::lemma_run_end_holds(b, byte, f, t);
    assert(c >= start);
    assert(closes_with_fence(b, fence, c, f, e - f, t)) by {
        assert(scan::all_blank(b, e, t));
        assert(b[c - 1] == 10);
    }
}

proof fn lemma_line_start_stops(b: Seq<u8>, i: int)
    requires
        0 <= i,
    ensures
        0 <= span::line_start(b, i) <= i,
        span::line_start(b, i) > 0 ==> b[span::line_start(b, i) - 1] == 10,
    decreases i,
{
    if i > 0 && b[i - 1] != 10 {
        lemma_line_start_stops(b, i - 1);
    }
}

/// The content of a fenced code block starts behind its first newline; without one, behind the
/// opening fence.
pub proof fn law_code_starts_behind_its_first_line(b: Seq<u8>, fence: char, n: int)
    requires
        opens_with_fence(b, fence, n),
    ensures
        ({
            let start = scan::fenced_content(b).0;
            ||| n < start <= b.len() && b[start - 1] == '\n' as u8 && text::is_without(
                b,
                '\n',
                n,
                start - 1,
            )
            ||| start == n && text::is_without(b, '\n', n, b.len() as int)
        }),
        scan::fenced_content(b).0 <= scan::fenced_content(b).1 <= b.len(),
{
    let len = b.len() as int;
    markers::lemma_run_end_is(b, b[0], 0, len, n);
    span::lemma_find_byte(b, 10, n, len);
    lemma_line_endings_start(b, len);
    lemma_line_start_stops(b, scan::line_endings_start(b, len));
}

/// How many bytes of `i..j` are newlines, counted from the end.
proof fn lemma_count_byte(b: Seq<u8>, i: int, j: int)
    requires
        i <= j,
    ensures
        convert::count_byte(b, 10, i, j) == text::newlines_in(b, i, j),
    decreases j - i,
{
    if i < j {
        lemma_count_byte(b, i, j - 1);
    }
}

/// What is known of a fenced code block: its content lies in it as in its source, it has as many
/// lines as newlines, and it is closed exactly if its content ends before it does.
pub proof fn law_fenced_blocks_know_their_content(b: Seq<u8>, range: Range<usize>)
    requires
        b.len() <= usize::MAX,
        range.start <= range.end <= b.len(),
    ensures
        ({
            let block = b.subrange(range.start as int, range.end as int);
            let (s, e) = scan::fenced_content(block);
            let metadata = convert::fenced_metadata(b, range);
            &&& metadata.content_range.start == range.start + s
            &&& metadata.content_range.end == range.start + e
            &&& range.start <= metadata.content_range.start <= metadata.content_range.end
                <= range.end
            &&& metadata.line_count == text::newlines_in(
                b,
                metadata.content_range.start as int,
                metadata.content_range.end as int,
            )
            &&& metadata.is_fenced_closed == (metadata.content_range.end < range.end)
        }),
{
    let block = b.subrange(range.start as int, range.end as int);
    let len = block.len() as int;
    let (s, e) = scan::fenced_content(block);
    markers::lemma_run_end_holds(block, block[0], 0, len);
    let n = span::run_end(block, block[0], 0, len);
    span::lemma_find_byte(block, 10, n, len);
    lemma_line_endings_start(block, len);
    lemma_line_start_stops(block, scan::line_endings_start(block, len));
    lemma_count_byte(b, range.start + s, range.start + e);
    lemma_newlines_bound(b, range.start + s, range.start + e);
}

proof fn lemma_newlines_bound(b: Seq<u8>, i: int, j: int)
    requires
        i <= j,
    ensures
        text::newlines_in(b, i, j) <= j - i,
    decreases j - i,
{
    if i < j {
        lemma_newlines_bound(b, i, j - 1);
    }
}

/// An ASCII character is in a text exactly if its byte is.
pub proof fn lemma_ascii_in_chars(b: Seq<u8>, i: int, j: int, c: char)
    requires
        valid_utf8(b),
        span::is_slice(b, i, j),
        c <= '\u{7f}',
    ensures
        span::chars_of(b, i, j).contains(c) <==> exists|k: int|
            i <= k < j && #[trigger] b[k] == c as u8,
    decreases j - i,
{
    text::lemma_chars_empty(b, i, j);
    if i < j {
        text::lemma_chars_step(b, i, j);
        span::lemma_scalar(b, i);
        let w = span::width_at(b, i);
        lemma_ascii_in_chars(b, i + w, j, c);
        let first = span::scalar_at(b, i) as char;
        let all = span::chars_of(b, i, j);
        let rest = span::chars_of(b, i + w, j);
        assert(all[0] == first);
        if b[i] < 0x80 {
            text::lemma_ascii_scalar(b, i);
            assert(first as u32 == b[i] as u32);
        } else {
            lemma_wide_scalar(b, i);
        }
        if all.contains(c) {
            let k = choose|k: int| 0 <= k < all.len() && all[k] == c;
            if k > 0 {
                assert(rest[k - 1] == c);
            } else {
                assert(b[i] == c as u8);
            }
        }
        if exists|k: int| i <= k < j && #[trigger] b[k] == c as u8 {
            let k = choose|k: int| i <= k < j && #[trigger] b[k] == c as u8;
            if k == i {
                assert(all[0] == c);
            } else {
                assert(k < i + w ==> is_continuation_byte(b[k]));
                assert(rest.contains(c));
                let x = choose|x: int| 0 <= x < rest.len() && rest[x] == c;
                assert(all[x + 1] == c);
            }
        }
    }
}

proof fn lemma_wide_scalar(b: Seq<u8>, i: int)
    requires
        valid_utf8(b),
        0 <= i < b.len(),
        span::on_boundary(b, i),
        b[i] >= 0x80,
    ensures
        span::scalar_at(b, i) >= 0x80,
{
    span::lemma_scalar(b, i);
    let s = b.subrange(i, b.len() as int);
    assert(s[0] == b[i]);
    assert(valid_first_scalar(s));
}

/// A fenced code block is called what its info string says, without white space around it: a source
/// location if there is a slash in it, else a language.
pub proof fn law_info_strings_name_code_blocks(pre: Seq<char>, name: Seq<char>, post: Seq<char>)
    requires
        text::all_blank(pre),
        text::all_blank(post),
        text::is_trim(name),
    ensures
        convert::fenced_kind(pre + name + post) == (if name.contains('/') {
            CodeBlockKindModel::FencedSrc(name)
        } else {
            CodeBlockKindModel::FencedLang(name)
        }),
{
    let info = pre + name + post;
    let b = encode_utf8(info);
    encode_utf8_valid_utf8(info);
    encode_utf8_decode_utf8(info);
    let n = b.len() as int;
    assert(b.subrange(0, n) =~= b);
    text::law_trimming_keeps_what_is_between(b, 0, n, pre, name, post);
    let (i, j) = scan::trimmed(b, 0, n);
    lemma_ascii_in_chars(b, i, j, '/');
}

/// A fenced code block with a blank info string has no name.
pub proof fn law_blank_info_strings_name_nothing(info: Seq<char>)
    requires
        text::all_blank(info),
    ensures
        convert::fenced_kind(info) == CodeBlockKindModel::Fenced,
{
    let b = encode_utf8(info);
    encode_utf8_valid_utf8(info);
    encode_utf8_decode_utf8(info);
    let n = b.len() as int;
    assert(b.subrange(0, n) =~= b);
    text::law_leading_white_space_is_skipped(b, 0, n);
    let i = span::skip_white(b, 0, n);
    text::lemma_chars_concat(b, 0, i, n);
    if i < n {
        let k = span::chars_of(b, 0, i).len() as int;
        assert(info[k] == span::chars_of(b, i, n)[0]);
    }
    text::law_trailing_white_space_is_skipped(b, i, n);
}

/// A language is Mermaid exactly if it is `mermaid`, or that with white space behind it.
pub proof fn law_mermaid_is_the_first_word(rest: Seq<char>)
    ensures
        scan::names_mermaid(encode_utf8("mermaid"@ + rest)) == (rest.len() == 0 || text::is_blank(
            rest[0],
        )),
{
    reveal_strlit("mermaid");
    let word = "mermaid"@;
    let all = word + rest;
    let b = encode_utf8(all);
    autolink::lemma_encode_concat(word, rest);
    is_ascii_chars_encode_utf8(word);
    encode_utf8_valid_utf8(all);
    encode_utf8_decode_utf8(all);
    let n = b.len() as int;
    assert(b.subrange(0, n) =~= b);
    assert(b[0] == 0x6d);
    assert(span::on_boundary(b, 0));
    text::lemma_ascii_scalar(b, 0);
    assert(span::skip_white(b, 0, n) == 0);
    assert(b.subrange(0, 7) =~= scan::mermaid_bytes());
    if rest.len() > 0 {
        encode_utf8_first_scalar(rest);
        assert(b.subrange(7, n) =~= encode_utf8(rest));
        text::law_white_space_is_the_unicode_property(rest[0]);
    } else {
        assert(encode_utf8(rest).len() == 0);
    }
}

/// A language that does not start with `mermaid` or white space is not Mermaid.
pub proof fn law_other_languages_are_not_mermaid(name: Seq<char>)
    requires
        name.len() > 0,
        !text::is_blank(name[0]),
        name.len() < 7 || name.subrange(0, 7) != "mermaid"@,
    ensures
        !scan::names_mermaid(encode_utf8(name)),
{
    reveal_strlit("mermaid");
    let b = encode_utf8(name);
    encode_utf8_valid_utf8(name);
    encode_utf8_decode_utf8(name);
    let n = b.len() as int;
    assert(b.subrange(0, n) =~= b);
    encode_utf8_first_scalar(name);
    text::law_white_space_is_the_unicode_property(name[0]);
    assert(span::skip_white(b, 0, n) == 0);
    if scan::names_mermaid(b) {
        let word = b.subrange(0, 7);
        assert(word == scan::mermaid_bytes());
        assert(forall|k: int| 0 <= k < 7 ==> #[trigger] word[k] == b[k]);
        lemma_ascii_prefix(b, 7);
        assert(word[0] == 0x6d && word[1] == 0x65 && word[2] == 0x72 && word[3] == 0x6d && word[4]
            == 0x61 && word[5] == 0x69 && word[6] == 0x64);
        let d = decode_utf8(b);
        assert(d == name);
        assert forall|k: int| 0 <= k < 7 implies #[trigger] d[k] as u32 == word[k] as u32 by {
            assert(d[k] as u32 == b[k] as u32);
        }
        assert(d[0] as u32 == 0x6d && d[1] as u32 == 0x65 && d[2] as u32 == 0x72 && d[3] as u32
            == 0x6d && d[4] as u32 == 0x61 && d[5] as u32 == 0x69 && d[6] as u32 == 0x64);
        char_u32_cast(d[0], 0x6d);
        char_u32_cast(d[1], 0x65);
        char_u32_cast(d[2], 0x72);
        char_u32_cast(d[3], 0x6d);
        char_u32_cast(d[4], 0x61);
        char_u32_cast(d[5], 0x69);
        char_u32_cast(d[6], 0x64);
        assert(d[0] == 'm' && d[1] == 'e' && d[2] == 'r' && d[3] == 'm' && d[4] == 'a' && d[5]
            == 'i' && d[6] == 'd');
        assert(d.len() >= 7);
        assert("mermaid"@.len() == 7);
        assert(name.subrange(0, 7) =~= "mermaid"@);
    }
}

/// The characters of ASCII bytes at the start of a text.
proof fn lemma_ascii_prefix(b: Seq<u8>, n: int)
    requires
        valid_utf8(b),
        0 <= n <= b.len(),
        forall|k: int| 0 <= k < n ==> #[trigger] b[k] < 0x80,
    ensures
        decode_utf8(b).len() >= n,
        forall|k: int| 0 <= k < n ==> #[trigger] decode_utf8(b)[k] as u32 == b[k] as u32,
    decreases n,
{
    if n > 0 {
        let len = b.len() as int;
        assert(b[0] < 0x80);
        text::lemma_ascii_scalar(b, 0);
        text::lemma_chars_step(b, 0, len);
        assert(b.subrange(0, len) =~= b);
        let rest = b.subrange(1, len);
        span::lemma_slice_valid(b, 1, len);
        assert forall|k: int| 0 <= k < n - 1 implies #[trigger] rest[k] < 0x80 by {
            assert(rest[k] == b[k + 1]);
        }
        lemma_ascii_prefix(rest, n - 1);
        assert forall|k: int| 0 <= k < n implies #[trigger] decode_utf8(b)[k] as u32
            == b[k] as u32 by {
            if k > 0 {
                assert(decode_utf8(b)[k] == decode_utf8(rest)[k - 1]);
                assert(rest[k - 1] == b[k]);
            }
        }
    }
}

/// A space, tab or line ending of ASCII.
pub open spec fn is_ascii_space(byte: u8) -> bool {
    byte == ' ' as u8 || byte == '\t' as u8 || byte == '\n' as u8 || byte == '\x0c' as u8 || byte
        == '\r' as u8
}

/// The letters at `s` are `br`, large or small, behind nothing but white space from `i` on.
pub open spec fn reads_br(b: Seq<u8>, i: int, s: int) -> bool {
    &&& i <= s
    &&& forall|k: int| i <= k < s ==> is_ascii_space(#[trigger] b[k])
    &&& b[s] == 'b' as u8 || b[s] == 'B' as u8
    &&& b[s + 1] == 'r' as u8 || b[s + 1] == 'R' as u8
}

/// A tag breaks the line exactly if its name is `br`, large or small: behind the name come white
/// space, the end of the tag, or a slash and the end of the tag.
pub proof fn law_br_tags_are_told_by_their_name(b: Seq<u8>)
    requires
        valid_utf8(b),
        b.len() >= 2,
        b[0] == '<' as u8,
        b.last() == '>' as u8,
    ensures
        scan::br_tag(b) <==> exists|s: int|
            s + 2 < b.len() && #[trigger] reads_br(b, 1, s) && (is_ascii_space(b[s + 2]) || s + 3
                == b.len() || b[s + 2] == '/' as u8 && s + 4 == b.len()),
{
    let n = b.len() as int;
    text::lemma_ascii_scalar(b, 0);
    assert(span::skip_white(b, 0, n) == 0);
    span::lemma_ascii_boundary(b, n - 1);
    assert(span::previous_start(b, n) == n - 1);
    text::lemma_ascii_scalar(b, n - 1);
    assert(span::skip_white_back(b, 0, n) == n);
    let end = if 1 < n - 1 && b[n - 2] == 0x2f {
        n - 2
    } else {
        n - 1
    };
    if scan::br_tag(b) {
        let s = choose|s: int| #[trigger] scan::word_br_at(b, 1, s, end);
        assert forall|k: int| 1 <= k < s implies is_ascii_space(#[trigger] b[k]) by {
            assert(scan::is_ascii_white(b[k]));
        }
        assert(reads_br(b, 1, s));
    }
    if exists|s: int|
        s + 2 < b.len() && #[trigger] reads_br(b, 1, s) && (is_ascii_space(b[s + 2]) || s + 3
            == b.len() || b[s + 2] == '/' as u8 && s + 4 == b.len()) {
        let s = choose|s: int|
            s + 2 < b.len() && #[trigger] reads_br(b, 1, s) && (is_ascii_space(b[s + 2]) || s + 3
                == b.len() || b[s + 2] == '/' as u8 && s + 4 == b.len());
        assert forall|k: int| 1 <= k < s implies scan::is_ascii_white(#[trigger] b[k]) by {
            assert(is_ascii_space(b[k]));
        }
        assert(scan::word_br_at(b, 1, s, end));
    }
}

} // verus!
