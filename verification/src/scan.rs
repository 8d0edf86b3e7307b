//! Scanners over Markdown source: trimming, metadata rows, code spans, fences and tags.
use crate::span;
use std::ops::Range;
use vstd::prelude::*;
use vstd::string::StringSliceAdditionalSpecFns;
use vstd::utf8::*;

verus! {

/// One `key: value` line of a metadata block, by its ranges in the source.
#[derive(Debug, PartialEq)]
pub struct MetadataRow {
    pub key: Range<usize>,
    pub value: Range<usize>,
}

impl Clone for MetadataRow {
    fn clone(&self) -> (r: Self)
        ensures
            r == *self,
    {
        MetadataRow {
            key: self.key.start..self.key.end,
            value: self.value.start..self.value.end,
        }
    }
}

/// `i..j` without the white space at either end; empty at the end of the white space if nothing
/// else is there.
pub open spec fn trimmed(b: Seq<u8>, i: int, j: int) -> (int, int) {
    let start = span::skip_white(b, i, j);
    let end = span::skip_white_back(b, i, j);
    (start, if end < start { start } else { end })
}

/// Trims white space off both ends of a range of the source.
pub fn trim_metadata_range(source: &str, range: Range<usize>) -> (r: Range<usize>)
    requires
        span::is_slice(source.spec_bytes(), range.start as int, range.end as int),
    ensures
        (r.start as int, r.end as int) == trimmed(
            source.spec_bytes(),
            range.start as int,
            range.end as int,
        ),
        range.start <= r.start <= r.end <= range.end,
        span::is_slice(source.spec_bytes(), r.start as int, r.end as int),
{
    proof {
        span::lemma_str_bytes(source);
    }
    let bytes = source.as_bytes();
    let start = span::trim_start_at(bytes, range.start, range.end);
    let end = span::trim_end_at(bytes, range.start, range.end);
    if end < start {
        start..start
    } else {
        start..end
    }
}

/// Trims white space off the end of a range of the text.
pub fn trim_end_whitespace(text: &str, range: Range<usize>) -> (r: Range<usize>)
    requires
        span::is_slice(text.spec_bytes(), range.start as int, range.end as int),
    ensures
        r.start == range.start,
        r.end == span::skip_white_back(text.spec_bytes(), range.start as int, range.end as int),
        span::is_slice(text.spec_bytes(), r.start as int, r.end as int),
{
    proof {
        span::lemma_str_bytes(text);
    }
    let end = span::trim_end_at(text.as_bytes(), range.start, range.end);
    range.start..end
}

/// The end of the line that starts at `p`, without its newline, no later than `end`.
pub open spec fn line_end(b: Seq<u8>, p: int, end: int) -> int {
    span::find_byte(b, 10, p, end)
}

/// The start of the line behind the one that starts at `p`, or `end`.
pub open spec fn next_line(b: Seq<u8>, p: int, end: int) -> int {
    if line_end(b, p, end) < end {
        line_end(b, p, end) + 1
    } else {
        end
    }
}

/// The row on the line that starts at `p`: a line that starts with neither white space nor a
/// colon, with a colon, and with something other than white space behind the first colon.
pub open spec fn metadata_row(b: Seq<u8>, p: int, end: int) -> Option<MetadataRow> {
    let content_end = span::run_start(b, 13, p, line_end(b, p, end));
    let colon = span::find_byte(b, 58, p, content_end);
    let key = trimmed(b, p, colon);
    let value = trimmed(b, colon + 1, content_end);
    if content_end <= p || span::is_white_space(span::scalar_at(b, p)) || colon >= content_end || key.0
        >= key.1 || value.0 >= value.1 {
        None
    } else {
        Some(
            MetadataRow {
                key: key.0 as usize..key.1 as usize,
                value: value.0 as usize..value.1 as usize,
            },
        )
    }
}

/// The rows of the lines from `p` on, if each line is a row.
pub open spec fn metadata_rows(b: Seq<u8>, p: int, end: int) -> Option<Seq<MetadataRow>>
    decreases end - p,
    via metadata_rows_decreases
{
    if p >= end {
        Some(Seq::empty())
    } else {
        match (metadata_row(b, p, end), metadata_rows(b, next_line(b, p, end), end)) {
            (Some(row), Some(rest)) => Some(seq![row] + rest),
            _ => None,
        }
    }
}

#[via_fn]
proof fn metadata_rows_decreases(b: Seq<u8>, p: int, end: int) {
    if p < end {
        span::lemma_find_byte(b, 10, p, end);
    }
}

/// The range is not empty and is a slice of the text within `i..j`.
pub open spec fn is_word(b: Seq<u8>, range: Range<usize>, i: int, j: int) -> bool {
    i <= range.start < range.end <= j && span::is_slice(b, range.start as int, range.end as int)
}

proof fn lemma_trimmed(b: Seq<u8>, i: int, j: int)
    requires
        valid_utf8(b),
        span::is_slice(b, i, j),
    ensures
        i <= trimmed(b, i, j).0 <= trimmed(b, i, j).1 <= j,
        span::is_slice(b, trimmed(b, i, j).0, trimmed(b, i, j).1),
{
    span::lemma_skip_white(b, i, j);
    span::lemma_skip_white_back(b, i, j);
}

proof fn lemma_line_parts(b: Seq<u8>, p: int, end: int)
    requires
        valid_utf8(b),
        span::is_slice(b, p, end),
        p < end,
    ensures
        p < next_line(b, p, end) <= end,
        span::on_boundary(b, next_line(b, p, end)),
        p <= line_end(b, p, end) <= end,
        span::on_boundary(b, line_end(b, p, end)),
{
    span::lemma_find_byte(b, 10, p, end);
    if line_end(b, p, end) < end {
        span::lemma_ascii_boundary(b, line_end(b, p, end));
    }
}

/// The keys and values of a metadata block are not empty and can be sliced out of the source.
pub proof fn law_rows_are_slices(b: Seq<u8>, p: int, end: int, i: int)
    requires
        valid_utf8(b),
        b.len() <= usize::MAX,
        span::is_slice(b, p, end),
        metadata_rows(b, p, end) is Some,
        0 <= i < (metadata_rows(b, p, end)->0).len(),
    ensures
        is_word(b, (metadata_rows(b, p, end)->0)[i].key, p, end),
        is_word(b, (metadata_rows(b, p, end)->0)[i].value, p, end),
    decreases end - p,
{
    let next = next_line(b, p, end);
    lemma_line_parts(b, p, end);
    if i > 0 {
        law_rows_are_slices(b, next, end, i - 1);
    } else {
        let content_end = span::run_start(b, 13, p, line_end(b, p, end));
        span::lemma_run_start_boundary(b, 13, p, line_end(b, p, end));
        span::lemma_find_byte(b, 58, p, content_end);
        let colon = span::find_byte(b, 58, p, content_end);
        span::lemma_ascii_boundary(b, colon);
        lemma_trimmed(b, p, colon);
        lemma_trimmed(b, colon + 1, content_end);
    }
}

/// Reads the lines of a metadata block as `key: value` rows. `None` if there is no line, or if
/// one line is no such row.
pub fn parse_metadata_table_rows(source: &str, source_range: Range<usize>) -> (r: Option<
    Vec<MetadataRow>,
>)
    requires
        span::is_slice(source.spec_bytes(), source_range.start as int, source_range.end as int),
    ensures
        match metadata_rows(
            source.spec_bytes(),
            source_range.start as int,
            source_range.end as int,
        ) {
            Some(rows) if rows.len() > 0 => r is Some && r->0@ == rows,
            _ => r is None,
        },
{
    let bytes = source.as_bytes();
    let ghost b = source.spec_bytes();
    let end = source_range.end;
    let mut rows: Vec<MetadataRow> = Vec::new();
    let mut p: usize = source_range.start;
    let ghost all = metadata_rows(b, p as int, end as int);
    proof {
        span::lemma_str_bytes(source);
        assert(all is Some ==> all->0 =~= Seq::<MetadataRow>::empty() + all->0);
    }
    while p < end
        invariant
            bytes@ == b,
            b == source.spec_bytes(),
            valid_utf8(b),
            p <= end <= b.len(),
            span::is_slice(b, p as int, end as int),
            match metadata_rows(b, p as int, end as int) {
                Some(rest) => all == Some(rows@ + rest),
                None => all is None,
            },
            end == source_range.end,
            all == metadata_rows(b, source_range.start as int, end as int),
        decreases end - p,
    {
        let newline = span::find_byte_at(bytes, 10, p, end);
        let content_end = span::run_start_at(bytes, 13, p, newline);
        proof {
            if newline < end {
                span::lemma_ascii_boundary(b, newline as int);
            }
            span::lemma_run_start_boundary(b, 13, p as int, newline as int);
        }
        if content_end == p {
            return None;
        }
        let (first, _) = span::decode_at(bytes, p);
        if span::white_space(first) {
            return None;
        }
        let colon = span::find_byte_at(bytes, 58, p, content_end);
        if colon == content_end {
            return None;
        }
        proof {
            span::lemma_ascii_boundary(b, colon as int);
        }
        let key = trim_metadata_range(source, p..colon);
        let value = trim_metadata_range(source, colon + 1..content_end);
        if key.start >= key.end || value.start >= value.end {
            return None;
        }
        let ghost row = MetadataRow { key, value };
        let ghost before = rows@;
        rows.push(MetadataRow { key, value });
        let next = if newline < end {
            newline + 1
        } else {
            end
        };
        proof {
            assert(metadata_row(b, p as int, end as int) == Some(row));
            match metadata_rows(b, next as int, end as int) {
                Some(rest) => {
                    assert(before + (seq![row] + rest) =~= rows@ + rest);
                },
                None => {},
            }
        }
        p = next;
    }
    proof {
        assert(rows@ + Seq::<MetadataRow>::empty() =~= rows@);
    }
    if rows.len() == 0 {
        None
    } else {
        Some(rows)
    }
}

/// ASCII white space, as it separates the parts of an HTML tag.
pub open spec fn is_ascii_white(byte: u8) -> bool {
    byte == 0x20 || byte == 0x09 || byte == 0x0a || byte == 0x0c || byte == 0x0d
}

/// The first word of `b[i..j]`, split at ASCII white space, is `br` in either case.
pub open spec fn names_br(b: Seq<u8>, i: int, j: int) -> bool {
    exists|s: int| #[trigger] word_br_at(b, i, s, j)
}

/// The first word of `b[i..j]` starts at `s` and is `br` in either case.
pub open spec fn word_br_at(b: Seq<u8>, i: int, s: int, j: int) -> bool {
    &&& i <= s
    &&& s + 2 <= j
    &&& forall|k: int| i <= k < s ==> is_ascii_white(#[trigger] b[k])
    &&& b[s] == 0x62 || b[s] == 0x42
    &&& b[s + 1] == 0x72 || b[s + 1] == 0x52
    &&& s + 2 == j || is_ascii_white(b[s + 2])
}

/// `b` is, but for white space around it, a tag `<..>` or `<../>` with the name `br`.
pub open spec fn br_tag(b: Seq<u8>) -> bool {
    let i = span::skip_white(b, 0, b.len() as int);
    let j = span::skip_white_back(b, i, b.len() as int);
    let inner_end = if i + 1 < j - 1 && b[j - 2] == 0x2f {
        j - 2
    } else {
        j - 1
    };
    i + 2 <= j && b[i] == 0x3c && b[j - 1] == 0x3e && names_br(b, i + 1, inner_end)
}

/// Whether an inline HTML node is a `<br>` tag.
pub fn is_br_tag(html: &str) -> (r: bool)
    ensures
        r == br_tag(html.spec_bytes()),
{
    let bytes = html.as_bytes();
    let ghost b = html.spec_bytes();
    proof {
        span::lemma_str_bytes(html);
    }
    let i = span::trim_start_at(bytes, 0, bytes.len());
    let j = span::trim_end_at(bytes, i, bytes.len());
    if j - i < 2 || bytes[i] != 0x3c || bytes[j - 1] != 0x3e {
        return false;
    }
    let end = if i + 1 < j - 1 && bytes[j - 2] == 0x2f {
        j - 2
    } else {
        j - 1
    };
    let mut s: usize = i + 1;
    while s < end && (bytes[s] == 0x20 || bytes[s] == 0x09 || bytes[s] == 0x0a || bytes[s] == 0x0c
        || bytes[s] == 0x0d)
        invariant
            i + 1 <= s <= end <= bytes@.len(),
            bytes@ == b,
            forall|k: int| i + 1 <= k < s ==> is_ascii_white(#[trigger] b[k]),
        decreases end - s,
    {
        s += 1;
    }
    let r = end - s >= 2 && (bytes[s] == 0x62 || bytes[s] == 0x42) && (bytes[s + 1] == 0x72
        || bytes[s + 1] == 0x52) && (s + 2 == end || bytes[s + 2] == 0x20 || bytes[s + 2] == 0x09
        || bytes[s + 2] == 0x0a || bytes[s + 2] == 0x0c || bytes[s + 2] == 0x0d);
    proof {
        if r {
            assert(word_br_at(b, i + 1, s as int, end as int));
        } else {
            assert forall|t: int| !#[trigger] word_br_at(b, i + 1, t, end as int) by {
                if word_br_at(b, i + 1, t, end as int) {
                    if t < s {
                        assert(is_ascii_white(b[t]));
                    } else if t > s {
                        assert(is_ascii_white(b[s as int]));
                    }
                }
            }
        }
    }
    r
}

/// The text of `mermaid`, in bytes.
pub open spec fn mermaid_bytes() -> Seq<u8> {
    seq![0x6d, 0x65, 0x72, 0x6d, 0x61, 0x69, 0x64]
}

/// The first word of `b`, split at white space, is `mermaid`.
pub open spec fn names_mermaid(b: Seq<u8>) -> bool {
    let s = span::skip_white(b, 0, b.len() as int);
    &&& s + 7 <= b.len()
    &&& b.subrange(s, s + 7) == mermaid_bytes()
    &&& s + 7 == b.len() || is_white_space_at(b, s + 7)
}

/// The character that starts at `i` is white space.
pub open spec fn is_white_space_at(b: Seq<u8>, i: int) -> bool {
    span::is_white_space(span::scalar_at(b, i))
}

/// Whether the info string of a fenced code block names Mermaid as its language.
pub fn is_mermaid_code_block_language(language: &str) -> (r: bool)
    ensures
        r == names_mermaid(language.spec_bytes()),
{
    let bytes = language.as_bytes();
    let ghost b = language.spec_bytes();
    proof {
        span::lemma_str_bytes(language);
    }
    let s = span::trim_start_at(bytes, 0, bytes.len());
    if bytes.len() - s < 7 {
        return false;
    }
    if bytes[s] == 0x6d && bytes[s + 1] == 0x65 && bytes[s + 2] == 0x72 && bytes[s + 3] == 0x6d
        && bytes[s + 4] == 0x61 && bytes[s + 5] == 0x69 && bytes[s + 6] == 0x64 {
        assert(b.subrange(s as int, s + 7) =~= mermaid_bytes());
        if s + 7 == bytes.len() {
            return true;
        }
        proof {
            span::lemma_ascii_boundary(b, s + 6);
        }
        let (scalar, _) = span::decode_at(bytes, s + 7);
        span::white_space(scalar)
    } else {
        proof {
            if b.subrange(s as int, s + 7) == mermaid_bytes() {
                let w = b.subrange(s as int, s + 7);
                assert(forall|k: int| 0 <= k < 7 ==> #[trigger] w[k] == b[s + k]);
                assert(w[0] == 0x6d && w[1] == 0x65 && w[2] == 0x72 && w[3] == 0x6d && w[4] == 0x61
                    && w[5] == 0x69 && w[6] == 0x64);
            }
        }
        false
    }
}

/// The backtick delimiters around a code span whose content is `start..end`: the runs of
/// backticks directly around it, or behind one padding space, if both are of one length. Each
/// delimiter reaches to the content, so it takes the padding space in.
pub open spec fn span_delimiters(b: Seq<u8>, start: int, end: int) -> Option<
    (Range<usize>, Range<usize>),
> {
    let leading_end = if start > 0 && b[start - 1] == 0x20 {
        start - 1
    } else {
        start
    };
    let leading_start = span::run_start(b, 0x60, 0, leading_end);
    let trailing_start = if end < b.len() && b[end] == 0x20 {
        end + 1
    } else {
        end
    };
    let trailing_end = span::run_end(b, 0x60, trailing_start, b.len() as int);
    if leading_end - leading_start == 0 || leading_end - leading_start != trailing_end
        - trailing_start {
        None
    } else {
        Some((leading_start as usize..start as usize, end as usize..trailing_end as usize))
    }
}

/// Finds the backtick delimiters surrounding an inline code span whose content occupies
/// `content_range`. Returns the leading and trailing delimiter ranges.
pub fn code_span_delimiters(text: &str, content_range: Range<usize>) -> (r: Option<
    (Range<usize>, Range<usize>),
>)
    requires
        content_range.start <= text.spec_bytes().len(),
    ensures
        r == span_delimiters(
            text.spec_bytes(),
            content_range.start as int,
            content_range.end as int,
        ),
{
    let bytes = text.as_bytes();
    let start = content_range.start;
    let end = content_range.end;
    let leading_end = if start > 0 && bytes[start - 1] == 0x20 {
        start - 1
    } else {
        start
    };
    let leading_start = span::run_start_at(bytes, 0x60, 0, leading_end);
    let trailing_start = if end < bytes.len() && bytes[end] == 0x20 {
        end + 1
    } else {
        end
    };
    let trailing_end = if trailing_start <= bytes.len() {
        span::run_end_at(bytes, 0x60, trailing_start, bytes.len())
    } else {
        trailing_start
    };
    let leading_ticks: usize = leading_end - leading_start;
    let trailing_ticks: usize = trailing_end - trailing_start;
    if leading_ticks == 0 || leading_ticks != trailing_ticks {
        return None;
    }
    Some((leading_start..start, end..trailing_end))
}

/// The start of the line of `source` that holds `offset`.
pub fn live_preview_line_start(source: &str, offset: usize) -> (r: usize)
    requires
        offset <= source.spec_bytes().len(),
        span::on_boundary(source.spec_bytes(), offset as int),
    ensures
        r == span::line_start(source.spec_bytes(), offset as int),
        r <= offset,
        span::on_boundary(source.spec_bytes(), r as int),
{
    let r = span::line_start_at(source.as_bytes(), offset);
    proof {
        span::lemma_str_bytes(source);
        span::lemma_line_start(source.spec_bytes(), offset as int);
        if r > 0 && r < offset {
            span::lemma_ascii_boundary(source.spec_bytes(), r - 1);
        }
    }
    r
}

/// `start..end` without the white space at its end and, if asked for, at its start.
pub open spec fn preview_range(b: Seq<u8>, start: int, end: int, trim_leading: bool) -> (int, int) {
    let from = if trim_leading {
        span::skip_white(b, start, end)
    } else {
        start
    };
    (from, span::skip_white_back(b, from, end))
}

/// Trims white space off the end of a block's range and, if asked for, off its start.
pub fn trim_live_preview_source_range(
    source: &str,
    range: Range<usize>,
    trim_leading_whitespace: bool,
) -> (r: Range<usize>)
    requires
        range.start < range.end ==> span::is_slice(
            source.spec_bytes(),
            range.start as int,
            range.end as int,
        ),
    ensures
        (r.start as int, r.end as int) == preview_range(
            source.spec_bytes(),
            range.start as int,
            range.end as int,
            trim_leading_whitespace,
        ),
        range.start < range.end ==> range.start <= r.start <= r.end <= range.end,
        range.start < range.end ==> span::is_slice(
            source.spec_bytes(),
            r.start as int,
            r.end as int,
        ),
{
    proof {
        span::lemma_str_bytes(source);
    }
    if range.start >= range.end {
        return range;
    }
    let bytes = source.as_bytes();
    let start = if trim_leading_whitespace {
        span::trim_start_at(bytes, range.start, range.end)
    } else {
        range.start
    };
    let end = span::trim_end_at(bytes, start, range.end);
    start..end
}

/// The content of a code span with its delimiters `b`: what lies between the runs of backticks at
/// its ends, if they are of one length and do not overlap; else all of it.
pub open spec fn code_content(b: Seq<u8>) -> (int, int) {
    let n = b.len() as int;
    let start = span::run_end(b, 0x60, 0, n);
    let end = span::run_start(b, 0x60, 0, n);
    if start == 0 || n - end != start || end < start {
        (0, n)
    } else {
        (start, end)
    }
}

/// A run lies between the offsets that it is looked for between.
pub proof fn lemma_runs_within(b: Seq<u8>, byte: u8, i: int, j: int)
    requires
        i <= j,
    ensures
        i <= span::run_end(b, byte, i, j) <= j,
        i <= span::run_start(b, byte, i, j) <= j,
    decreases j - i,
{
    if i < j {
        lemma_runs_within(b, byte, i + 1, j);
        lemma_runs_within(b, byte, i, j - 1);
    }
}

/// The content of a code span lies within it.
pub proof fn lemma_code_content(b: Seq<u8>)
    ensures
        0 <= code_content(b).0 <= code_content(b).1 <= b.len(),
{
    lemma_runs_within(b, 0x60, 0, b.len() as int);
}

/// The content range of an inline code span.
pub fn extract_code_content_range(text: &str) -> (r: Range<usize>)
    ensures
        (r.start as int, r.end as int) == code_content(text.spec_bytes()),
        r.start <= r.end <= text.spec_bytes().len(),
        span::is_slice(text.spec_bytes(), r.start as int, r.end as int),
{
    let bytes = text.as_bytes();
    let n = bytes.len();
    let start = span::run_end_at(bytes, 0x60, 0, n);
    let end = span::run_start_at(bytes, 0x60, 0, n);
    proof {
        span::lemma_str_bytes(text);
        span::lemma_run_end_boundary(bytes@, 0x60, 0, n as int);
        span::lemma_run_start_boundary(bytes@, 0x60, 0, n as int);
    }
    if start == 0 || n - end != start || end < start {
        return 0..n;
    }
    start..end
}

/// The start of the line endings at the end of `b[..j]`.
pub open spec fn line_endings_start(b: Seq<u8>, j: int) -> int
    decreases j,
{
    if j > 0 && (b[j - 1] == 13 || b[j - 1] == 10) {
        line_endings_start(b, j - 1)
    } else {
        j
    }
}

/// The bytes in `i..j` are spaces and tabs.
pub open spec fn all_blank(b: Seq<u8>, i: int, j: int) -> bool {
    forall|k: int| i <= k < j ==> #[trigger] b[k] == 0x20 || b[k] == 0x09
}

/// `b[i..j]` closes a code block that `fence_len` bytes `fence` opened: up to three spaces, at
/// least as many of the same byte, then nothing but spaces and tabs.
pub open spec fn is_closing_fence(b: Seq<u8>, i: int, j: int, fence: u8, fence_len: int) -> bool {
    let fence_start = span::run_end(b, 0x20, i, j);
    let fence_end = span::run_end(b, fence, fence_start, j);
    fence_start - i <= 3 && fence_end - fence_start >= fence_len && all_blank(b, fence_end, j)
}

/// The content of the fenced code block `b`: from the line behind the opening fence to the line
/// of the closing fence, or to the end if the last line closes nothing. All of `b` if it opens
/// with no fence of three or more backticks or tildes.
pub open spec fn fenced_content(b: Seq<u8>) -> (int, int) {
    let n = b.len() as int;
    let fence_len = span::run_end(b, b[0], 0, n);
    if n == 0 || !(b[0] == 0x60 || b[0] == 0x7e) || fence_len < 3 {
        (0, n)
    } else {
        let newline = span::find_byte(b, 10, fence_len, n);
        let start = if newline < n {
            newline + 1
        } else {
            fence_len
        };
        let text_end = line_endings_start(b, n);
        let closing = span::line_start(b, text_end);
        let end = if closing >= start && is_closing_fence(b, closing, text_end, b[0], fence_len) {
            closing
        } else {
            n
        };
        (start, if end < start { start } else { end })
    }
}

/// The content range of a fenced code block.
pub fn extract_code_block_content_range(text: &str) -> (r: Range<usize>)
    ensures
        (r.start as int, r.end as int) == fenced_content(text.spec_bytes()),
        r.start <= r.end <= text.spec_bytes().len(),
        span::is_slice(text.spec_bytes(), r.start as int, r.end as int),
{
    let bytes = text.as_bytes();
    let ghost b = text.spec_bytes();
    let n = bytes.len();
    proof {
        span::lemma_str_bytes(text);
    }
    if n == 0 || !(bytes[0] == 0x60 || bytes[0] == 0x7e) {
        return 0..n;
    }
    let fence = bytes[0];
    let fence_len = span::run_end_at(bytes, fence, 0, n);
    if fence_len < 3 {
        return 0..n;
    }
    let newline = span::find_byte_at(bytes, 10, fence_len, n);
    let start = if newline < n {
        newline + 1
    } else {
        fence_len
    };
    let mut text_end: usize = n;
    while text_end > 0 && (bytes[text_end - 1] == 13 || bytes[text_end - 1] == 10)
        invariant
            bytes@ == b,
            text_end <= n == b.len(),
            line_endings_start(b, text_end as int) == line_endings_start(b, n as int),
        decreases text_end,
    {
        text_end -= 1;
    }
    let closing = span::line_start_at(bytes, text_end);
    let mut end: usize = n;
    if closing >= start {
        let fence_start = span::run_end_at(bytes, 0x20, closing, text_end);
        let fence_end = span::run_end_at(bytes, fence, fence_start, text_end);
        let mut k: usize = fence_end;
        while k < text_end && (bytes[k] == 0x20 || bytes[k] == 0x09)
            invariant
                bytes@ == b,
                fence_end <= k <= text_end <= b.len(),
                all_blank(b, fence_end as int, k as int),
            decreases text_end - k,
        {
            k += 1;
        }
        if fence_start - closing <= 3 && fence_end - fence_start >= fence_len && k == text_end {
            end = closing;
        }
    }
    proof {
        span::lemma_run_end_boundary(b, fence, 0, n as int);
        if newline < n {
            span::lemma_ascii_boundary(b, newline as int);
        }
        span::lemma_line_start(b, text_end as int);
        if 0 < closing && closing < text_end {
            span::lemma_ascii_boundary(b, closing - 1);
        }
        assert(0 < text_end ==> b[text_end - 1] != 10);
    }
    if end < start {
        return start..start;
    }
    start..end
}

} // verus!
