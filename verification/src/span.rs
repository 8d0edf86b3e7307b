//! Offsets, characters and slices of UTF-8 text.
//!
//! Every position is a byte offset. A document is modelled by its bytes; the functions below say
//! where its characters lie and which of them are white space.
use vstd::prelude::*;
use vstd::string::StringSliceAdditionalSpecFns;
use vstd::utf8::*;

verus! {

/// `i` does not split a character of the valid UTF-8 text `b`.
pub open spec fn on_boundary(b: Seq<u8>, i: int) -> bool {
    ||| i == 0
    ||| i == b.len()
    ||| 0 < i < b.len() && !is_continuation_byte(b[i])
}

/// `b[i..j]` is a range of whole characters of `b`: the ranges that text can be sliced by.
pub open spec fn is_slice(b: Seq<u8>, i: int, j: int) -> bool {
    0 <= i <= j <= b.len() && on_boundary(b, i) && on_boundary(b, j)
}

/// The characters of `b[i..j]`.
pub open spec fn chars_of(b: Seq<u8>, i: int, j: int) -> Seq<char> {
    decode_utf8(b.subrange(i, j))
}

/// The scalar value of the character that starts at `i`.
pub open spec fn scalar_at(b: Seq<u8>, i: int) -> u32 {
    decode_first_scalar(b.subrange(i, b.len() as int))
}

/// The number of bytes of the character that starts at `i`.
pub open spec fn width_at(b: Seq<u8>, i: int) -> int {
    length_of_first_scalar(b.subrange(i, b.len() as int))
}

/// The start of the character that ends at `i`.
pub open spec fn previous_start(b: Seq<u8>, i: int) -> int
    decreases i,
{
    if i <= 1 || !is_continuation_byte(b[i - 1]) {
        i - 1
    } else {
        previous_start(b, i - 1)
    }
}

/// The characters with the Unicode property `White_Space`.
pub open spec fn is_white_space(scalar: u32) -> bool {
    ||| 0x9 <= scalar <= 0xd
    ||| scalar == 0x20
    ||| scalar == 0x85
    ||| scalar == 0xa0
    ||| scalar == 0x1680
    ||| 0x2000 <= scalar <= 0x200a
    ||| scalar == 0x2028
    ||| scalar == 0x2029
    ||| scalar == 0x202f
    ||| scalar == 0x205f
    ||| scalar == 0x3000
}

/// The first offset in `i..j` at which a character other than white space starts, or `j`.
pub open spec fn skip_white(b: Seq<u8>, i: int, j: int) -> int
    decreases
            (if i < j {
                j - i
            } else {
                0
            }),
{
    if i < j && is_white_space(scalar_at(b, i)) {
        skip_white(b, i + width_at(b, i), j)
    } else {
        i
    }
}

/// The last offset in `i..j` at which a character other than white space ends, or `i`.
pub open spec fn skip_white_back(b: Seq<u8>, i: int, j: int) -> int
    decreases
            (if i < j {
                j - i
            } else {
                0
            }),
    via skip_white_back_decreases
{
    if i < j && is_white_space(scalar_at(b, previous_start(b, j))) {
        skip_white_back(b, i, previous_start(b, j))
    } else {
        j
    }
}

#[via_fn]
proof fn skip_white_back_decreases(b: Seq<u8>, i: int, j: int) {
    lemma_previous_start_bounds(b, j);
}

proof fn lemma_previous_start_bounds(b: Seq<u8>, i: int)
    ensures
        previous_start(b, i) < i,
        i >= 1 ==> 0 <= previous_start(b, i),
    decreases i,
{
    if !(i <= 1 || !is_continuation_byte(b[i - 1])) {
        lemma_previous_start_bounds(b, i - 1);
    }
}

/// The first offset in `i..j` that holds `byte`, or `j`.
pub open spec fn find_byte(b: Seq<u8>, byte: u8, i: int, j: int) -> int
    decreases j - i,
{
    if i < j && b[i] != byte {
        find_byte(b, byte, i + 1, j)
    } else {
        i
    }
}

/// The end of the run of `byte` that starts at `i`, no later than `j`.
pub open spec fn run_end(b: Seq<u8>, byte: u8, i: int, j: int) -> int
    decreases j - i,
{
    if i < j && b[i] == byte {
        run_end(b, byte, i + 1, j)
    } else {
        i
    }
}

/// The start of the run of `byte` that ends at `j`, no earlier than `i`.
pub open spec fn run_start(b: Seq<u8>, byte: u8, i: int, j: int) -> int
    decreases j - i,
{
    if i < j && b[j - 1] == byte {
        run_start(b, byte, i, j - 1)
    } else {
        j
    }
}

/// The start of the line that holds the offset `i`: the offset behind the last newline before it.
pub open spec fn line_start(b: Seq<u8>, i: int) -> int
    decreases i,
{
    if i <= 0 || b[i - 1] == 10 {
        i
    } else {
        line_start(b, i - 1)
    }
}

/// What the bytes of a string are like: they are valid UTF-8 and decode to its characters.
pub proof fn lemma_str_bytes(s: &str)
    ensures
        valid_utf8(s.spec_bytes()),
        decode_utf8(s.spec_bytes()) == s@,
{
    encode_utf8_valid_utf8(s@);
    encode_utf8_decode_utf8(s@);
}

/// For valid text, the local test for a boundary and the one by decoding agree.
pub proof fn lemma_boundary(b: Seq<u8>, i: int)
    requires
        valid_utf8(b),
    ensures
        is_char_boundary(b, i) <==> 0 <= i <= b.len() && on_boundary(b, i),
{
    is_char_boundary_start_end_of_seq(b);
    if 0 <= i < b.len() {
        is_char_boundary_iff_not_is_continuation_byte(b, i);
    } else if i != b.len() {
        reveal_with_fuel(is_char_boundary, 1);
    }
}

/// A character of valid text: its bytes lie within the text, only its first is a leading byte,
/// and the next character starts behind it.
pub proof fn lemma_scalar(b: Seq<u8>, i: int)
    requires
        valid_utf8(b),
        0 <= i < b.len(),
        on_boundary(b, i),
    ensures
        valid_first_scalar(b.subrange(i, b.len() as int)),
        1 <= width_at(b, i) <= 4,
        i + width_at(b, i) <= b.len(),
        on_boundary(b, i + width_at(b, i)),
        forall|k: int| i < k < i + width_at(b, i) ==> is_continuation_byte(#[trigger] b[k]),
        !is_continuation_byte(b[i]),
{
    lemma_boundary(b, i);
    valid_utf8_split(b, i);
    let s = b.subrange(i, b.len() as int);
    let rest = pop_first_scalar(s);
    assert(valid_first_scalar(s));
    assert(s[0] == b[i]);
    let w = width_at(b, i);
    if i + w < b.len() {
        assert(rest.len() > 0);
        assert(valid_utf8(rest));
        assert(valid_first_scalar(rest));
        assert(rest[0] == b[i + w]);
    }
    assert forall|k: int| i < k < i + w implies is_continuation_byte(#[trigger] b[k]) by {
        assert(s[k - i] == b[k]);
    }
}

/// The character that ends at the boundary `j` starts at the boundary before it.
pub proof fn lemma_previous_scalar(b: Seq<u8>, j: int)
    requires
        valid_utf8(b),
        0 < j <= b.len(),
        on_boundary(b, j),
    ensures
        0 <= previous_start(b, j) < j,
        on_boundary(b, previous_start(b, j)),
        previous_start(b, j) + width_at(b, previous_start(b, j)) == j,
        forall|k: int| previous_start(b, j) < k < j ==> is_continuation_byte(#[trigger] b[k]),
{
    lemma_previous_start_local(b, j);
    let p = previous_start(b, j);
    lemma_boundary(b, 0);
    if p == 0 && is_continuation_byte(b[0]) {
        lemma_scalar(b, 0);
    }
    lemma_scalar(b, p);
    let w = width_at(b, p);
    if p + w < j {
        assert(is_continuation_byte(b[p + w]));
    }
    if p + w > j {
        assert(is_continuation_byte(b[j]));
    }
}

proof fn lemma_previous_start_local(b: Seq<u8>, j: int)
    requires
        0 < j <= b.len(),
    ensures
        0 <= previous_start(b, j) < j,
        on_boundary(b, previous_start(b, j)),
        forall|k: int| previous_start(b, j) < k < j ==> is_continuation_byte(#[trigger] b[k]),
    decreases j,
{
    if j > 1 && is_continuation_byte(b[j - 1]) {
        lemma_previous_start_local(b, j - 1);
    }
}

/// A range of whole characters of valid text is valid text.
pub proof fn lemma_slice_valid(b: Seq<u8>, i: int, j: int)
    requires
        valid_utf8(b),
        is_slice(b, i, j),
    ensures
        valid_utf8(b.subrange(i, j)),
{
    lemma_boundary(b, j);
    valid_utf8_split(b, j);
    let head = b.subrange(0, j);
    assert(on_boundary(head, i));
    lemma_boundary(head, i);
    valid_utf8_split(head, i);
    assert(head.subrange(i, j) =~= b.subrange(i, j));
}

/// A boundary of a slice is a boundary of the text.
pub proof fn lemma_boundary_within(b: Seq<u8>, i: int, j: int, k: int)
    requires
        is_slice(b, i, j),
        0 <= k <= j - i,
        on_boundary(b.subrange(i, j), k),
    ensures
        on_boundary(b, i + k),
{
    if 0 < k < j - i {
        assert(b.subrange(i, j)[k] == b[i + k]);
    }
}

/// Skipping white space stays within the range and on a boundary.
pub proof fn lemma_skip_white(b: Seq<u8>, i: int, j: int)
    requires
        valid_utf8(b),
        is_slice(b, i, j),
    ensures
        i <= skip_white(b, i, j) <= j,
        on_boundary(b, skip_white(b, i, j)),
    decreases j - i,
{
    if i < j && is_white_space(scalar_at(b, i)) {
        lemma_scalar(b, i);
        if i + width_at(b, i) > j {
            assert(is_continuation_byte(b[j]));
        }
        lemma_skip_white(b, i + width_at(b, i), j);
    }
}

/// Skipping white space back stays within the range and on a boundary.
pub proof fn lemma_skip_white_back(b: Seq<u8>, i: int, j: int)
    requires
        valid_utf8(b),
        is_slice(b, i, j),
    ensures
        i <= skip_white_back(b, i, j) <= j,
        on_boundary(b, skip_white_back(b, i, j)),
    decreases j - i,
{
    if i < j && is_white_space(scalar_at(b, previous_start(b, j))) {
        lemma_previous_scalar(b, j);
        if previous_start(b, j) < i {
            assert(is_continuation_byte(b[i]));
        }
        lemma_skip_white_back(b, i, previous_start(b, j));
    }
}

/// The slice of `text` from byte `start` to byte `end`.
pub fn slice<'a>(text: &'a str, start: usize, end: usize) -> (r: &'a str)
    requires
        is_slice(text.spec_bytes(), start as int, end as int),
    ensures
        r.spec_bytes() == text.spec_bytes().subrange(start as int, end as int),
        r@ == chars_of(text.spec_bytes(), start as int, end as int),
{
    let ghost b = text.spec_bytes();
    proof {
        lemma_str_bytes(text);
        lemma_boundary(b, end as int);
        valid_utf8_split(b, end as int);
        lemma_boundary(b.subrange(0, end as int), start as int);
    }
    let (head, _) = text.split_at(end);
    let (_, r) = head.split_at(start);
    proof {
        assert(r.spec_bytes() =~= b.subrange(start as int, end as int));
        lemma_str_bytes(r);
    }
    r
}

/// Whether `start..end` is a range of whole characters of `text`.
pub fn can_slice(text: &str, start: usize, end: usize) -> (r: bool)
    ensures
        r == is_slice(text.spec_bytes(), start as int, end as int),
{
    proof {
        lemma_str_bytes(text);
        lemma_boundary(text.spec_bytes(), start as int);
        lemma_boundary(text.spec_bytes(), end as int);
    }
    start <= end && end <= text.as_bytes().len() && text.is_char_boundary(start)
        && text.is_char_boundary(end)
}

/// Whether the character with this scalar value is white space.
pub fn white_space(scalar: u32) -> (r: bool)
    ensures
        r == is_white_space(scalar),
{
    (0x9 <= scalar && scalar <= 0xd) || scalar == 0x20 || scalar == 0x85 || scalar == 0xa0 || scalar
        == 0x1680 || (0x2000 <= scalar && scalar <= 0x200a) || scalar == 0x2028 || scalar == 0x2029
        || scalar == 0x202f || scalar == 0x205f || scalar == 0x3000
}

/// The character that starts at `i`: its scalar value and its width in bytes.
pub fn decode_at(bytes: &[u8], i: usize) -> (r: (u32, usize))
    requires
        valid_utf8(bytes@),
        i < bytes@.len(),
        on_boundary(bytes@, i as int),
    ensures
        r.0 == scalar_at(bytes@, i as int),
        r.1 == width_at(bytes@, i as int),
{
    proof {
        lemma_scalar(bytes@, i as int);
    }
    let ghost s = bytes@.subrange(i as int, bytes@.len() as int);
    let b0 = bytes[i];
    assert(s[0] == b0);
    if b0 <= 0x7f {
        ((b0 & 0x7f) as u32, 1)
    } else if b0 <= 0xdf {
        let b1 = bytes[i + 1];
        assert(s[1] == b1);
        ((((b0 & 0x1f) as u32) << 6) | ((b1 & 0x3f) as u32), 2)
    } else if b0 <= 0xef {
        let b1 = bytes[i + 1];
        let b2 = bytes[i + 2];
        assert(s[1] == b1 && s[2] == b2);
        ((((b0 & 0x0f) as u32) << 12) | (((b1 & 0x3f) as u32) << 6) | ((b2 & 0x3f) as u32), 3)
    } else {
        let b1 = bytes[i + 1];
        let b2 = bytes[i + 2];
        let b3 = bytes[i + 3];
        assert(s[1] == b1 && s[2] == b2 && s[3] == b3);
        (
            (((b0 & 0x07) as u32) << 18) | (((b1 & 0x3f) as u32) << 12) | (((b2 & 0x3f) as u32)
                << 6) | ((b3 & 0x3f) as u32),
            4,
        )
    }
}

/// The start of the character that ends at `i`.
pub fn start_before(bytes: &[u8], i: usize) -> (r: usize)
    requires
        0 < i <= bytes@.len(),
    ensures
        r == previous_start(bytes@, i as int),
{
    proof {
        lemma_previous_start_bounds(bytes@, i as int);
    }
    let mut k: usize = i;
    while k > 1 && 0x80 <= bytes[k - 1] && bytes[k - 1] <= 0xbf
        invariant
            1 <= k <= i <= bytes@.len(),
            previous_start(bytes@, k as int) == previous_start(bytes@, i as int),
        decreases k,
    {
        k -= 1;
    }
    k - 1
}

/// Skips white space forwards: see [`skip_white`].
pub fn trim_start_at(bytes: &[u8], start: usize, end: usize) -> (r: usize)
    requires
        valid_utf8(bytes@),
        is_slice(bytes@, start as int, end as int),
    ensures
        r == skip_white(bytes@, start as int, end as int),
        start <= r <= end,
        on_boundary(bytes@, r as int),
{
    let mut i: usize = start;
    while i < end
        invariant
            valid_utf8(bytes@),
            is_slice(bytes@, start as int, end as int),
            start <= i <= end,
            on_boundary(bytes@, i as int),
            skip_white(bytes@, i as int, end as int) == skip_white(
                bytes@,
                start as int,
                end as int,
            ),
        decreases end - i,
    {
        let (scalar, width) = decode_at(bytes, i);
        if !white_space(scalar) {
            return i;
        }
        proof {
            lemma_scalar(bytes@, i as int);
            if i + width > end {
                assert(is_continuation_byte(bytes@[end as int]));
            }
        }
        i += width;
    }
    i
}

/// Skips white space backwards: see [`skip_white_back`].
pub fn trim_end_at(bytes: &[u8], start: usize, end: usize) -> (r: usize)
    requires
        valid_utf8(bytes@),
        is_slice(bytes@, start as int, end as int),
    ensures
        r == skip_white_back(bytes@, start as int, end as int),
        start <= r <= end,
        on_boundary(bytes@, r as int),
{
    let mut j: usize = end;
    while start < j
        invariant
            valid_utf8(bytes@),
            is_slice(bytes@, start as int, end as int),
            start <= j <= end,
            on_boundary(bytes@, j as int),
            skip_white_back(bytes@, start as int, j as int) == skip_white_back(
                bytes@,
                start as int,
                end as int,
            ),
        decreases j,
    {
        proof {
            lemma_previous_scalar(bytes@, j as int);
        }
        let p = start_before(bytes, j);
        let (scalar, _) = decode_at(bytes, p);
        if !white_space(scalar) {
            return j;
        }
        proof {
            if p < start {
                assert(is_continuation_byte(bytes@[start as int]));
                lemma_scalar(bytes@, start as int);
            }
        }
        j = p;
    }
    j
}

/// Finds a byte forwards: see [`find_byte`].
pub fn find_byte_at(bytes: &[u8], byte: u8, start: usize, end: usize) -> (r: usize)
    requires
        start <= end <= bytes@.len(),
    ensures
        r == find_byte(bytes@, byte, start as int, end as int),
        start <= r <= end,
        r < end ==> bytes@[r as int] == byte,
        forall|k: int| start <= k < r ==> bytes@[k] != byte,
{
    let mut i: usize = start;
    while i < end && bytes[i] != byte
        invariant
            start <= i <= end <= bytes@.len(),
            find_byte(bytes@, byte, i as int, end as int) == find_byte(
                bytes@,
                byte,
                start as int,
                end as int,
            ),
            forall|k: int| start <= k < i ==> bytes@[k] != byte,
        decreases end - i,
    {
        i += 1;
    }
    i
}

/// Follows a run of one byte forwards: see [`run_end`].
pub fn run_end_at(bytes: &[u8], byte: u8, start: usize, end: usize) -> (r: usize)
    requires
        start <= end <= bytes@.len(),
    ensures
        r == run_end(bytes@, byte, start as int, end as int),
        start <= r <= end,
{
    let mut i: usize = start;
    while i < end && bytes[i] == byte
        invariant
            start <= i <= end <= bytes@.len(),
            run_end(bytes@, byte, i as int, end as int) == run_end(
                bytes@,
                byte,
                start as int,
                end as int,
            ),
        decreases end - i,
    {
        i += 1;
    }
    i
}

/// Follows a run of one byte backwards: see [`run_start`].
pub fn run_start_at(bytes: &[u8], byte: u8, start: usize, end: usize) -> (r: usize)
    requires
        start <= end <= bytes@.len(),
    ensures
        r == run_start(bytes@, byte, start as int, end as int),
        start <= r <= end,
{
    let mut j: usize = end;
    while start < j && bytes[j - 1] == byte
        invariant
            start <= j <= end <= bytes@.len(),
            run_start(bytes@, byte, start as int, j as int) == run_start(
                bytes@,
                byte,
                start as int,
                end as int,
            ),
        decreases j,
    {
        j -= 1;
    }
    j
}

/// The start of the line that holds `offset`: see [`line_start`].
pub fn line_start_at(bytes: &[u8], offset: usize) -> (r: usize)
    requires
        offset <= bytes@.len(),
    ensures
        r == line_start(bytes@, offset as int),
        r <= offset,
{
    let mut i: usize = offset;
    while i > 0 && bytes[i - 1] != 10
        invariant
            i <= offset <= bytes@.len(),
            line_start(bytes@, i as int) == line_start(bytes@, offset as int),
        decreases i,
    {
        i -= 1;
    }
    i
}

/// Where [`find_byte`] stops.
pub proof fn lemma_find_byte(b: Seq<u8>, byte: u8, i: int, j: int)
    requires
        i <= j,
    ensures
        i <= find_byte(b, byte, i, j) <= j,
        find_byte(b, byte, i, j) < j ==> b[find_byte(b, byte, i, j)] == byte,
        forall|k: int| i <= k < find_byte(b, byte, i, j) ==> b[k] != byte,
    decreases j - i,
{
    if i < j && b[i] != byte {
        lemma_find_byte(b, byte, i + 1, j);
    }
}

/// The offsets at and behind an ASCII byte of valid text are boundaries.
pub proof fn lemma_ascii_boundary(b: Seq<u8>, i: int)
    requires
        valid_utf8(b),
        0 <= i < b.len() ==> b[i] < 0x80,
        0 <= i <= b.len(),
    ensures
        on_boundary(b, i),
        i < b.len() ==> on_boundary(b, i + 1),
        i < b.len() ==> width_at(b, i) == 1 && scalar_at(b, i) == b[i],
{
    if i < b.len() {
        lemma_scalar(b, i);
        let s = b.subrange(i, b.len() as int);
        assert(s[0] == b[i]);
        let x = b[i];
        assert(x & 0x7f == x) by (bit_vector)
            requires
                x < 0x80,
        ;
    }
}

pub proof fn lemma_run_start_boundary(b: Seq<u8>, byte: u8, i: int, j: int)
    requires
        valid_utf8(b),
        0 <= i <= j <= b.len(),
        byte < 0x80,
        on_boundary(b, i),
        on_boundary(b, j),
    ensures
        i <= run_start(b, byte, i, j) <= j,
        on_boundary(b, run_start(b, byte, i, j)),
    decreases j - i,
{
    if i < j && b[j - 1] == byte {
        lemma_ascii_boundary(b, j - 1);
        lemma_run_start_boundary(b, byte, i, j - 1);
    }
}

/// The run of an ASCII byte that starts on a boundary ends on one.
pub proof fn lemma_run_end_boundary(b: Seq<u8>, byte: u8, i: int, j: int)
    requires
        valid_utf8(b),
        0 <= i <= j <= b.len(),
        byte < 0x80,
        on_boundary(b, i),
    ensures
        i <= run_end(b, byte, i, j) <= j,
        on_boundary(b, run_end(b, byte, i, j)),
    decreases j - i,
{
    if i < j && b[i] == byte {
        lemma_ascii_boundary(b, i);
        lemma_run_end_boundary(b, byte, i + 1, j);
    }
}

/// Where [`line_start`] stops.
pub proof fn lemma_line_start(b: Seq<u8>, i: int)
    requires
        0 <= i <= b.len(),
    ensures
        0 <= line_start(b, i) <= i,
        line_start(b, i) > 0 ==> b[line_start(b, i) - 1] == 10,
        forall|k: int| line_start(b, i) <= k < i ==> b[k] != 10,
    decreases i,
{
    if !(i <= 0 || b[i - 1] == 10) {
        lemma_line_start(b, i - 1);
    }
}

} // verus!
