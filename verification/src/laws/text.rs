//! How text is trimmed and read line by line.
use crate::scan;
use crate::scan::MetadataRow;
use crate::span;
use vstd::prelude::*;
use vstd::utf8::*;

verus! {

/// The character has the Unicode property `White_Space`.
pub open spec fn is_blank(c: char) -> bool {
    ||| '\t' <= c <= '\r'
    ||| c == ' '
    ||| c == '\u{85}'
    ||| c == '\u{a0}'
    ||| c == '\u{1680}'
    ||| '\u{2000}' <= c <= '\u{200a}'
    ||| c == '\u{2028}'
    ||| c == '\u{2029}'
    ||| c == '\u{202f}'
    ||| c == '\u{205f}'
    ||| c == '\u{3000}'
}

/// There is nothing but white space.
pub open spec fn all_blank(chars: Seq<char>) -> bool {
    forall|i: int| 0 <= i < chars.len() ==> is_blank(#[trigger] chars[i])
}

/// There is something, with no white space at its ends.
pub open spec fn is_trim(chars: Seq<char>) -> bool {
    chars.len() > 0 && !is_blank(chars[0]) && !is_blank(chars.last())
}

/// The scalar value of a character is that of white space exactly if the character is white space.
pub proof fn law_white_space_is_the_unicode_property(c: char)
    ensures
        span::is_white_space(c as u32) == is_blank(c),
{
}

/// The characters of a slice: the first one, and those behind it.
pub proof fn lemma_chars_step(b: Seq<u8>, i: int, j: int)
    requires
        valid_utf8(b),
        span::is_slice(b, i, j),
        i < j,
    ensures
        i + span::width_at(b, i) <= j,
        span::is_slice(b, i + span::width_at(b, i), j),
        span::chars_of(b, i, j) == seq![span::scalar_at(b, i) as char] + span::chars_of(
            b,
            i + span::width_at(b, i),
            j,
        ),
        (span::scalar_at(b, i) as char) as u32 == span::scalar_at(b, i),
{
    span::lemma_scalar(b, i);
    let w = span::width_at(b, i);
    if i + w > j {
        assert(is_continuation_byte(b[j]));
    }
    span::lemma_slice_valid(b, i, j);
    let s = b.subrange(i, j);
    let all = b.subrange(i, b.len() as int);
    assert(forall|k: int| 0 <= k < w ==> s[k] == all[k]);
    assert(s[0] == all[0]);
    assert(w > 1 ==> s[1] == all[1]);
    assert(w > 2 ==> s[2] == all[2]);
    assert(w > 3 ==> s[3] == all[3]);
    assert(decode_first_scalar(s) == span::scalar_at(b, i));
    assert(pop_first_scalar(s) =~= b.subrange(i + w, j));
    let c = decode_first_scalar(s) as char;
    decode_utf8_first_scalar(s);
    encode_utf8_first_scalar(seq![c]);
    let first = take_first_scalar(s);
    assert(seq![c].drop_first() =~= Seq::empty());
    assert(encode_utf8(seq![c].drop_first()).len() == 0);
    assert(encode_utf8(seq![c]) =~= encode_scalar(c as u32));
    assert(encode_utf8(seq![c]) =~= first);
    assert(first[0] == s[0]);
    assert(w > 1 ==> first[1] == s[1]);
    assert(w > 2 ==> first[2] == s[2]);
    assert(w > 3 ==> first[3] == s[3]);
    assert(decode_first_scalar(first) == decode_first_scalar(s));
}

/// The characters of a slice are those of its parts.
pub proof fn lemma_chars_concat(b: Seq<u8>, i: int, k: int, j: int)
    requires
        valid_utf8(b),
        span::is_slice(b, i, k),
        span::is_slice(b, k, j),
    ensures
        span::chars_of(b, i, j) == span::chars_of(b, i, k) + span::chars_of(b, k, j),
{
    span::lemma_slice_valid(b, i, j);
    let s = b.subrange(i, j);
    assert(span::on_boundary(s, k - i)) by {
        if i < k < j {
            assert(s[k - i] == b[k]);
        }
    }
    span::lemma_boundary(s, k - i);
    decode_utf8_split(s, k - i);
    assert(s.subrange(0, k - i) =~= b.subrange(i, k));
    assert(s.subrange(k - i, s.len() as int) =~= b.subrange(k, j));
}

/// A slice with something in it has a character.
pub proof fn lemma_chars_empty(b: Seq<u8>, i: int, j: int)
    requires
        valid_utf8(b),
        span::is_slice(b, i, j),
    ensures
        (span::chars_of(b, i, j).len() == 0) == (i == j),
{
    if i < j {
        lemma_chars_step(b, i, j);
    } else {
        assert(b.subrange(i, j) =~= Seq::empty());
    }
}

/// What is skipped at the start of a text is white space, and all of it.
pub proof fn law_leading_white_space_is_skipped(b: Seq<u8>, i: int, j: int)
    requires
        valid_utf8(b),
        span::is_slice(b, i, j),
    ensures
        ({
            let k = span::skip_white(b, i, j);
            &&& span::is_slice(b, i, k) && span::is_slice(b, k, j)
            &&& all_blank(span::chars_of(b, i, k))
            &&& k < j ==> span::chars_of(b, k, j).len() > 0 && !is_blank(
                span::chars_of(b, k, j)[0],
            )
        }),
    decreases j - i,
{
    span::lemma_skip_white(b, i, j);
    if i < j {
        lemma_chars_step(b, i, j);
        law_white_space_is_the_unicode_property(span::scalar_at(b, i) as char);
        if span::is_white_space(span::scalar_at(b, i)) {
            let next = i + span::width_at(b, i);
            span::lemma_scalar(b, i);
            law_leading_white_space_is_skipped(b, next, j);
            let k = span::skip_white(b, i, j);
            lemma_chars_step(b, i, k);
        } else {
            lemma_chars_empty(b, i, i);
        }
    } else {
        lemma_chars_empty(b, i, j);
    }
}

/// What is skipped at the end of a text is white space, and all of it.
pub proof fn law_trailing_white_space_is_skipped(b: Seq<u8>, i: int, j: int)
    requires
        valid_utf8(b),
        span::is_slice(b, i, j),
    ensures
        ({
            let k = span::skip_white_back(b, i, j);
            &&& span::is_slice(b, i, k) && span::is_slice(b, k, j)
            &&& all_blank(span::chars_of(b, k, j))
            &&& i < k ==> span::chars_of(b, i, k).len() > 0 && !is_blank(
                span::chars_of(b, i, k).last(),
            )
        }),
    decreases j - i,
{
    span::lemma_skip_white_back(b, i, j);
    if i < j {
        span::lemma_previous_scalar(b, j);
        let p = span::previous_start(b, j);
        if p < i {
            assert(is_continuation_byte(b[i]));
        }
        lemma_chars_step(b, p, j);
        lemma_chars_empty(b, j, j);
        lemma_chars_concat(b, i, p, j);
        law_white_space_is_the_unicode_property(span::scalar_at(b, p) as char);
        assert(span::chars_of(b, p, j) =~= seq![span::scalar_at(b, p) as char]);
        if span::is_white_space(span::scalar_at(b, p)) {
            law_trailing_white_space_is_skipped(b, i, p);
            let k = span::skip_white_back(b, i, j);
            lemma_chars_concat(b, k, p, j);
        } else {
            assert(span::chars_of(b, i, j).last() == span::scalar_at(b, p) as char);
        }
    } else {
        lemma_chars_empty(b, i, j);
    }
}

/// Two ways to part a text into white space and what starts with none are one.
pub proof fn lemma_leading_seq_unique(x: Seq<char>, y: Seq<char>, pre: Seq<char>, rest: Seq<char>)
    requires
        x + y == pre + rest,
        all_blank(x),
        all_blank(pre),
        y.len() > 0 ==> !is_blank(y[0]),
        rest.len() > 0 ==> !is_blank(rest[0]),
    ensures
        x == pre,
        y == rest,
{
    let all = x + y;
    assert(all.len() == pre.len() + rest.len());
    if x.len() < pre.len() {
        assert(all[x.len() as int] == y[0]);
        assert((pre + rest)[x.len() as int] == pre[x.len() as int]);
    }
    if pre.len() < x.len() {
        assert((pre + rest)[pre.len() as int] == rest[0]);
        assert(all[pre.len() as int] == x[pre.len() as int]);
    }
    assert(x =~= all.subrange(0, x.len() as int));
    assert(pre =~= (pre + rest).subrange(0, pre.len() as int));
    assert(y =~= all.subrange(x.len() as int, all.len() as int));
    assert(rest =~= (pre + rest).subrange(pre.len() as int, all.len() as int));
}

/// Two ways to part a text into what ends with no white space and white space are one.
pub proof fn lemma_trailing_seq_unique(x: Seq<char>, y: Seq<char>, rest: Seq<char>, post: Seq<char>)
    requires
        x + y == rest + post,
        all_blank(y),
        all_blank(post),
        x.len() > 0 ==> !is_blank(x.last()),
        rest.len() > 0 ==> !is_blank(rest.last()),
    ensures
        x == rest,
        y == post,
{
    let all = x + y;
    assert(all.len() == rest.len() + post.len());
    if rest.len() < x.len() {
        assert(all[x.len() - 1] == x.last());
        assert((rest + post)[x.len() - 1] == post[x.len() - 1 - rest.len()]);
    }
    if x.len() < rest.len() {
        assert((rest + post)[rest.len() - 1] == rest.last());
        assert(all[rest.len() - 1] == y[rest.len() - 1 - x.len()]);
    }
    assert(x =~= all.subrange(0, x.len() as int));
    assert(rest =~= (rest + post).subrange(0, rest.len() as int));
    assert(y =~= all.subrange(x.len() as int, all.len() as int));
    assert(post =~= (rest + post).subrange(rest.len() as int, all.len() as int));
}

/// Slices with a common start and the same characters have a common end.
pub proof fn lemma_same_end(b: Seq<u8>, i: int, j: int, k: int)
    requires
        valid_utf8(b),
        span::is_slice(b, i, j),
        span::is_slice(b, i, k),
        span::chars_of(b, i, j) == span::chars_of(b, i, k),
    ensures
        j == k,
{
    if j < k {
        lemma_chars_concat(b, i, j, k);
        lemma_chars_empty(b, j, k);
    } else if k < j {
        lemma_chars_concat(b, i, k, j);
        lemma_chars_empty(b, k, j);
    }
}

/// Skipping white space back ends where the white space starts.
pub proof fn lemma_trailing_unique(b: Seq<u8>, i: int, k: int, j: int)
    requires
        valid_utf8(b),
        span::is_slice(b, i, k),
        span::is_slice(b, k, j),
        all_blank(span::chars_of(b, k, j)),
        i < k ==> !is_blank(span::chars_of(b, i, k).last()),
    ensures
        span::skip_white_back(b, i, j) == k,
{
    law_trailing_white_space_is_skipped(b, i, j);
    let e = span::skip_white_back(b, i, j);
    lemma_chars_concat(b, i, e, j);
    lemma_chars_concat(b, i, k, j);
    lemma_chars_empty(b, i, e);
    lemma_chars_empty(b, i, k);
    lemma_trailing_seq_unique(
        span::chars_of(b, i, e),
        span::chars_of(b, e, j),
        span::chars_of(b, i, k),
        span::chars_of(b, k, j),
    );
    lemma_same_end(b, i, e, k);
}

/// Skipping white space ends where the white space does.
pub proof fn lemma_leading_unique(b: Seq<u8>, i: int, k: int, j: int)
    requires
        valid_utf8(b),
        span::is_slice(b, i, k),
        span::is_slice(b, k, j),
        all_blank(span::chars_of(b, i, k)),
        k < j ==> !is_blank(span::chars_of(b, k, j)[0]),
    ensures
        span::skip_white(b, i, j) == k,
{
    law_leading_white_space_is_skipped(b, i, j);
    let s = span::skip_white(b, i, j);
    lemma_chars_concat(b, i, s, j);
    lemma_chars_concat(b, i, k, j);
    lemma_chars_empty(b, s, j);
    lemma_chars_empty(b, k, j);
    lemma_leading_seq_unique(
        span::chars_of(b, i, s),
        span::chars_of(b, s, j),
        span::chars_of(b, i, k),
        span::chars_of(b, k, j),
    );
    lemma_same_end(b, i, s, k);
}

/// A text is trimmed to what is between the white space at its ends.
pub proof fn law_trimming_keeps_what_is_between(
    b: Seq<u8>,
    i: int,
    j: int,
    pre: Seq<char>,
    name: Seq<char>,
    post: Seq<char>,
)
    requires
        valid_utf8(b),
        span::is_slice(b, i, j),
        span::chars_of(b, i, j) == pre + name + post,
        all_blank(pre),
        all_blank(post),
        is_trim(name),
    ensures
        ({
            let (s, e) = scan::trimmed(b, i, j);
            &&& span::chars_of(b, s, e) == name
            &&& i <= s < e <= j
            &&& span::is_slice(b, s, e)
            &&& span::skip_white(b, i, j) == s
            &&& span::skip_white_back(b, s, j) == e
        }),
{
    let (s, e) = scan::trimmed(b, i, j);
    law_trimming_takes_white_space_off(b, i, j);
    let all = span::chars_of(b, i, j);
    assert(all[pre.len() as int] == name[0]);
    lemma_chars_concat(b, i, s, e);
    lemma_chars_concat(b, i, e, j);
    lemma_chars_concat(b, s, e, j);
    let x = span::chars_of(b, i, s);
    let y = span::chars_of(b, s, e);
    let z = span::chars_of(b, e, j);
    assert(all == x + y + z);
    assert(x + y + z =~= x + (y + z));
    assert(pre + name + post =~= pre + (name + post));
    assert((y + z)[0] == y[0]);
    assert((name + post)[0] == name[0]);
    lemma_leading_seq_unique(x, y + z, pre, name + post);
    lemma_trailing_seq_unique(y, z, name, post);
    assert(s < e);
    lemma_trailing_unique(b, s, e, j);
    law_leading_white_space_is_skipped(b, i, j);
    lemma_leading_unique(b, i, s, j);
}

/// Trimming takes white space off both ends, all of it and nothing else.
pub proof fn law_trimming_takes_white_space_off(b: Seq<u8>, i: int, j: int)
    requires
        valid_utf8(b),
        span::is_slice(b, i, j),
    ensures
        ({
            let (s, e) = scan::trimmed(b, i, j);
            &&& span::is_slice(b, i, s) && span::is_slice(b, s, e) && span::is_slice(b, e, j)
            &&& all_blank(span::chars_of(b, i, s))
            &&& all_blank(span::chars_of(b, e, j))
            &&& s < e ==> is_trim(span::chars_of(b, s, e))
            &&& s == e ==> all_blank(span::chars_of(b, i, j))
            &&& all_blank(span::chars_of(b, i, j)) ==> s == e
        }),
{
    law_leading_white_space_is_skipped(b, i, j);
    law_trailing_white_space_is_skipped(b, i, j);
    let start = span::skip_white(b, i, j);
    let end = span::skip_white_back(b, i, j);
    if start < end {
        lemma_chars_concat(b, i, start, end);
        lemma_chars_concat(b, start, end, j);
        lemma_chars_concat(b, i, start, j);
        lemma_chars_empty(b, start, end);
        let all = span::chars_of(b, i, j);
        let head = span::chars_of(b, i, start);
        assert(all[head.len() as int] == span::chars_of(b, start, j)[0]);
        assert(span::chars_of(b, i, end).last() == span::chars_of(b, start, end).last());
    } else {
        lemma_chars_empty(b, start, start);
        if start < j {
            lemma_chars_concat(b, i, start, j);
            lemma_chars_concat(b, i, end, j);
            if end < start {
                lemma_chars_concat(b, end, start, j);
            }
            let first = span::chars_of(b, start, j)[0];
            let tail = span::chars_of(b, end, j);
            lemma_chars_concat(b, end, start, j);
            let between = span::chars_of(b, end, start);
            assert(tail[between.len() as int] == first);
        }
        assert(start == j);
    }
}

/// How many newlines are in `i..j`.
pub open spec fn newlines_in(b: Seq<u8>, i: int, j: int) -> nat
    decreases j - i,
{
    if i >= j {
        0
    } else {
        newlines_in(b, i, j - 1) + if b[j - 1] == '\n' as u8 {
            1nat
        } else {
            0
        }
    }
}

/// The byte does not occur in `i..j`.
pub open spec fn is_without(b: Seq<u8>, byte: char, i: int, j: int) -> bool {
    forall|k: int| i <= k < j ==> #[trigger] b[k] != byte as u8
}

/// `s..e` is a line of `p..end`, without its newline.
pub open spec fn is_line(b: Seq<u8>, p: int, end: int, s: int, e: int) -> bool {
    &&& p <= s <= e <= end
    &&& s == p || b[s - 1] == '\n' as u8
    &&& e == end || b[e] == '\n' as u8
    &&& is_without(b, '\n', s, e)
}

/// The line `s..e` reads as the row: the key, which starts with the line and ends before its first
/// colon, and the value behind that colon, with nothing but white space around them.
pub open spec fn reads_as_row(b: Seq<u8>, s: int, e: int, colon: int, row: MetadataRow) -> bool {
    &&& row.key.start == s
    &&& s < row.key.end <= colon < row.value.start < row.value.end <= e
    &&& b[colon] == ':' as u8
    &&& is_without(b, ':', s, colon)
    &&& span::is_slice(b, s, row.key.end as int)
    &&& span::is_slice(b, row.value.start as int, row.value.end as int)
    &&& is_trim(span::chars_of(b, s, row.key.end as int))
    &&& is_trim(span::chars_of(b, row.value.start as int, row.value.end as int))
    &&& all_blank(span::chars_of(b, row.key.end as int, colon))
    &&& all_blank(span::chars_of(b, colon + 1, row.value.start as int))
    &&& all_blank(span::chars_of(b, row.value.end as int, e))
}

proof fn lemma_run_start(b: Seq<u8>, byte: u8, i: int, j: int)
    requires
        i <= j,
    ensures
        i <= span::run_start(b, byte, i, j) <= j,
        forall|k: int| span::run_start(b, byte, i, j) <= k < j ==> #[trigger] b[k] == byte,
        i < span::run_start(b, byte, i, j) ==> b[span::run_start(b, byte, i, j) - 1] != byte,
    decreases j - i,
{
    if i < j && b[j - 1] == byte {
        lemma_run_start(b, byte, i, j - 1);
    }
}

/// Carriage returns are white space.
proof fn lemma_carriage_returns_are_blank(b: Seq<u8>, i: int, j: int)
    requires
        valid_utf8(b),
        span::is_slice(b, i, j),
        forall|k: int| i <= k < j ==> #[trigger] b[k] == 13,
    ensures
        all_blank(span::chars_of(b, i, j)),
    decreases j - i,
{
    lemma_chars_empty(b, i, j);
    if i < j {
        lemma_chars_step(b, i, j);
        lemma_ascii_scalar(b, i);
        lemma_carriage_returns_are_blank(b, i + 1, j);
    }
}

/// A byte below 128 is a character.
pub proof fn lemma_ascii_scalar(b: Seq<u8>, i: int)
    requires
        0 <= i < b.len(),
        b[i] < 0x80,
    ensures
        span::width_at(b, i) == 1,
        span::scalar_at(b, i) == b[i] as u32,
{
    let s = b.subrange(i, b.len() as int);
    assert(s[0] == b[i]);
    let x = b[i];
    assert(codepoint_width_1(x) == x as u32) by {
        assert((x & 0x7F) as u32 == x as u32) by (bit_vector)
            requires
                x < 0x80,
        ;
    }
}

proof fn lemma_row_of_line(b: Seq<u8>, p: int, end: int)
    requires
        valid_utf8(b),
        b.len() <= usize::MAX,
        span::is_slice(b, p, end),
        p < end,
        scan::metadata_row(b, p, end) is Some,
    ensures
        ({
            let e = span::find_byte(b, 10, p, end);
            let colon = span::find_byte(b, 58, p, e);
            &&& is_line(b, p, end, p, e)
            &&& reads_as_row(b, p, e, colon, scan::metadata_row(b, p, end)->0)
        }),
{
    let e = span::find_byte(b, 10, p, end);
    span::lemma_find_byte(b, 10, p, end);
    if e < end {
        span::lemma_ascii_boundary(b, e);
    }
    let content_end = span::run_start(b, 13, p, e);
    lemma_run_start(b, 13, p, e);
    span::lemma_run_start_boundary(b, 13, p, e);
    span::lemma_find_byte(b, 58, p, content_end);
    let colon = span::find_byte(b, 58, p, content_end);
    span::lemma_ascii_boundary(b, colon);
    lemma_find_byte_further(b, 58, p, content_end, e);
    law_trimming_takes_white_space_off(b, p, colon);
    law_trimming_takes_white_space_off(b, colon + 1, content_end);
    let row = scan::metadata_row(b, p, end)->0;
    let value_end = row.value.end as int;
    lemma_carriage_returns_are_blank(b, content_end, e);
    lemma_chars_concat(b, value_end, content_end, e);
    // The line starts with no white space, so the key starts with the line.
    assert(span::skip_white(b, p, colon) == p);
}

proof fn lemma_find_byte_further(b: Seq<u8>, byte: u8, i: int, j: int, n: int)
    requires
        i <= j <= n,
        span::find_byte(b, byte, i, j) < j,
    ensures
        span::find_byte(b, byte, i, n) == span::find_byte(b, byte, i, j),
    decreases j - i,
{
    if i < j && b[i] != byte {
        lemma_find_byte_further(b, byte, i + 1, j, n);
    }
}

proof fn lemma_newlines_in_concat(b: Seq<u8>, i: int, k: int, j: int)
    requires
        i <= k <= j,
    ensures
        newlines_in(b, i, j) == newlines_in(b, i, k) + newlines_in(b, k, j),
    decreases j - k,
{
    if k < j {
        lemma_newlines_in_concat(b, i, k, j - 1);
    }
}

proof fn lemma_no_newlines(b: Seq<u8>, i: int, j: int)
    requires
        is_without(b, '\n', i, j),
    ensures
        newlines_in(b, i, j) == 0,
    decreases j - i,
{
    if i < j {
        lemma_no_newlines(b, i, j - 1);
    }
}

/// The row at `i` of a metadata block is its line at `i`, read as a key and a value. Together, the
/// key, the first colon and the value leave out nothing of the line but white space.
pub proof fn law_rows_leave_out_white_space_only(b: Seq<u8>, p: int, end: int, i: int)
    requires
        valid_utf8(b),
        b.len() <= usize::MAX,
        span::is_slice(b, p, end),
        scan::metadata_rows(b, p, end) is Some,
        0 <= i < (scan::metadata_rows(b, p, end)->0).len(),
    ensures
        exists|s: int, e: int, colon: int|
            is_line(b, p, end, s, e) && newlines_in(b, p, s) == i && #[trigger] reads_as_row(
                b,
                s,
                e,
                colon,
                (scan::metadata_rows(b, p, end)->0)[i],
            ),
    decreases end - p,
{
    let rows = scan::metadata_rows(b, p, end)->0;
    let e = span::find_byte(b, 10, p, end);
    span::lemma_find_byte(b, 10, p, end);
    lemma_row_of_line(b, p, end);
    if i == 0 {
        let colon = span::find_byte(b, 58, p, e);
        assert(reads_as_row(b, p, e, colon, rows[i]));
    } else {
        let next = scan::next_line(b, p, end);
        let rest = scan::metadata_rows(b, next, end)->0;
        assert(e < end);
        span::lemma_ascii_boundary(b, e);
        law_rows_leave_out_white_space_only(b, next, end, i - 1);
        let (s, t, colon) = choose|s: int, t: int, colon: int|
            is_line(b, next, end, s, t) && newlines_in(b, next, s) == i - 1
                && #[trigger] reads_as_row(b, s, t, colon, rest[i - 1]);
        assert(rows[i] == rest[i - 1]);
        lemma_newlines_in_concat(b, p, next, s);
        lemma_newlines_in_concat(b, p, e, next);
        lemma_no_newlines(b, p, e);
        assert(newlines_in(b, e, next) == 1) by {
            reveal_with_fuel(newlines_in, 2);
        }
        assert(is_line(b, p, end, s, t));
    }
}

/// Each line of a metadata block has its row.
pub proof fn law_every_line_is_a_row(b: Seq<u8>, p: int, end: int)
    requires
        scan::metadata_rows(b, p, end) is Some,
        p <= end,
    ensures
        (scan::metadata_rows(b, p, end)->0).len() == newlines_in(b, p, end) + (if p < end && b[end
            - 1] != '\n' as u8 {
            1nat
        } else {
            0
        }),
    decreases end - p,
{
    if p < end {
        let e = span::find_byte(b, 10, p, end);
        span::lemma_find_byte(b, 10, p, end);
        let next = scan::next_line(b, p, end);
        law_every_line_is_a_row(b, next, end);
        lemma_newlines_in_concat(b, p, next, end);
        lemma_newlines_in_concat(b, p, e, next);
        lemma_no_newlines(b, p, e);
        if e < end {
            assert(newlines_in(b, e, next) == 1) by {
                reveal_with_fuel(newlines_in, 2);
            }
        }
    }
}

} // verus!
