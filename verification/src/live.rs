//! The decisions of an editor that shows a live preview.
use crate::block_text;
use crate::order;
use crate::preview::{
    BlockModel, MarkdownLivePreviewBlock, MarkdownLivePreviewBlockKind,
    MarkdownLivePreviewInlineMarkerKind,
};
use std::ops::Range;
use vstd::prelude::*;
use vstd::string::StringSliceAdditionalSpecFns;
use vstd::utf8::*;

verus! {

/// The lines that an image takes up until it has been measured.
pub const IMAGE_FALLBACK_LINES: u32 = 8;

/// The name of the language whose buffers have a live preview.
pub open spec fn markdown_language() -> Seq<char> {
    seq!['M', 'a', 'r', 'k', 'd', 'o', 'w', 'n']
}

/// Whether an editor shows a live preview: a full editor on a single buffer of Markdown, if the
/// setting is on. `language` is the language of the buffer, if it has one.
pub fn should_render_markdown_live_preview(
    is_full_editor: bool,
    live_preview: bool,
    is_single_buffer: bool,
    language: Option<&str>,
) -> (r: bool)
    ensures
        r == (is_full_editor && live_preview && is_single_buffer && (language matches Some(name)
            && name@ == markdown_language())),
{
    proof {
        reveal_strlit("Markdown");
        assert("Markdown"@ =~= markdown_language());
    }
    if !is_full_editor || !live_preview || !is_single_buffer {
        return false;
    }
    match language {
        Some(name) => name.to_owned() == "Markdown".to_owned(),
        None => false,
    }
}

/// Two ranges of rows have a row in common.
pub open spec fn meet(a: Range<u32>, b: Range<u32>) -> bool {
    a.start < b.end && b.start < a.end
}

/// One of the active ranges meets the rows.
pub open spec fn meet_any(rows: Range<u32>, active_rows: Seq<Range<u32>>) -> bool {
    exists|i: int| 0 <= i < active_rows.len() && meet(rows, #[trigger] active_rows[i])
}

/// Whether one of the active ranges meets the rows.
pub fn rows_intersect(rows: Range<u32>, active_rows: &Vec<Range<u32>>) -> (r: bool)
    ensures
        r == meet_any(rows, active_rows@),
{
    for i in 0..active_rows.len()
        invariant
            forall|k: int| 0 <= k < i ==> !meet(rows, #[trigger] active_rows@[k]),
    {
        if rows.start < active_rows[i].end && active_rows[i].start < rows.end {
            assert(meet(rows, active_rows@[i as int]));
            return true;
        }
    }
    false
}

/// The rows from `a` to `b`, in either order, both with them.
pub open spec fn rows_between(a: u32, b: u32) -> Range<u32> {
    let last = if a < b {
        b
    } else {
        a
    };
    (if a < b {
        a
    } else {
        b
    })..(if last < u32::MAX {
        (last + 1) as u32
    } else {
        u32::MAX
    })
}

/// The row ranges of some selections.
pub open spec fn selected_rows(selections: Seq<(u32, u32)>) -> Seq<Range<u32>> {
    selections.map_values(|s: (u32, u32)| rows_between(s.0, s.1))
}

/// The rows that the selections touch, in order. A selection is given by the rows of its ends.
pub fn active_markdown_live_preview_rows(selections: &Vec<(u32, u32)>) -> (r: Vec<Range<u32>>)
    ensures
        r@ == order::sorted(selected_rows(selections@)),
{
    let mut rows: Vec<Range<u32>> = Vec::new();
    for i in 0..selections.len()
        invariant
            rows@ == selected_rows(selections@).take(i as int),
    {
        let (a, b) = selections[i];
        let start = if a < b {
            a
        } else {
            b
        };
        let last = if a < b {
            b
        } else {
            a
        };
        rows.push(start..last.saturating_add(1));
        assert(rows@ =~= selected_rows(selections@).take(i + 1));
    }
    assert(selected_rows(selections@).take(selections@.len() as int) =~= selected_rows(
        selections@,
    ));
    order::sort(rows)
}

/// How many lines the source of a block has: one at least.
pub open spec fn source_lines(source: Seq<char>) -> u32 {
    let lines = block_text::lines(encode_utf8(source), 0).len();
    (if lines > 1 {
        lines as usize
    } else {
        1
    }) as u32
}

/// The lines that a block takes up until it has been measured.
pub open spec fn initial_height(block: BlockModel) -> u32 {
    let lines = source_lines(block.source);
    match block.kind {
        MarkdownLivePreviewBlockKind::Image => IMAGE_FALLBACK_LINES,
        MarkdownLivePreviewBlockKind::CodeBlock { is_indented, .. } => if !is_indented {
            lines
        } else if lines + 2 <= u32::MAX {
            (lines + 2) as u32
        } else {
            u32::MAX
        },
        MarkdownLivePreviewBlockKind::Rule => 1,
        _ => lines,
    }
}

/// The height a block is given until it has been measured during rendering.
pub fn initial_block_height(block: &MarkdownLivePreviewBlock) -> (r: u32)
    ensures
        r == initial_height(block@),
{
    let count = block_text::count_lines(block.source.as_str());
    let lines = (if count > 1 {
        count
    } else {
        1
    }) as u32;
    match block.kind {
        MarkdownLivePreviewBlockKind::Image => IMAGE_FALLBACK_LINES,
        MarkdownLivePreviewBlockKind::CodeBlock { is_indented, .. } => {
            if is_indented {
                lines.saturating_add(2)
            } else {
                lines
            }
        },
        MarkdownLivePreviewBlockKind::Rule => 1,
        _ => lines,
    }
}

/// What is drawn in place of a folded marker.
#[derive(Clone, Copy, Debug, Eq, PartialEq, Structural)]
pub enum Placeholder {
    Nothing,
    /// A bullet in the font of the buffer.
    Bullet,
    /// A vertical bar as high as the line.
    Bar,
    /// A checkbox that can be clicked.
    Checkbox { checked: bool },
}

/// What is drawn in place of a folded marker of this kind.
pub fn inline_marker_placeholder(kind: MarkdownLivePreviewInlineMarkerKind) -> (r: Placeholder)
    ensures
        r == (match kind {
            MarkdownLivePreviewInlineMarkerKind::Hidden => Placeholder::Nothing,
            MarkdownLivePreviewInlineMarkerKind::Bullet => Placeholder::Bullet,
            MarkdownLivePreviewInlineMarkerKind::BlockQuote => Placeholder::Bar,
            MarkdownLivePreviewInlineMarkerKind::TaskListMarker { checked } => {
                Placeholder::Checkbox { checked }
            },
        }),
{
    match kind {
        MarkdownLivePreviewInlineMarkerKind::Hidden => Placeholder::Nothing,
        MarkdownLivePreviewInlineMarkerKind::Bullet => Placeholder::Bullet,
        MarkdownLivePreviewInlineMarkerKind::BlockQuote => Placeholder::Bar,
        MarkdownLivePreviewInlineMarkerKind::TaskListMarker { checked } => Placeholder::Checkbox {
            checked,
        },
    }
}

/// Where an image is to be had.
#[derive(Clone, Copy, Debug, Eq, PartialEq, Structural)]
pub enum ImageReference {
    /// In the destination itself.
    Data,
    /// On the web.
    Uri,
    /// In a file, in the base directory if the path is relative.
    File,
}

/// `b` starts with `prefix`.
pub open spec fn starts_with(b: Seq<u8>, prefix: Seq<u8>) -> bool {
    prefix.len() <= b.len() && b.subrange(0, prefix.len() as int) == prefix
}

/// What an image destination refers to, by its first characters: `data:`, `http://` or `https://`,
/// or a file.
pub open spec fn reference_of(b: Seq<u8>) -> ImageReference {
    if starts_with(b, seq![0x64, 0x61, 0x74, 0x61, 0x3a]) {
        ImageReference::Data
    } else if starts_with(b, seq![0x68, 0x74, 0x74, 0x70, 0x3a, 0x2f, 0x2f]) || starts_with(
        b,
        seq![0x68, 0x74, 0x74, 0x70, 0x73, 0x3a, 0x2f, 0x2f],
    ) {
        ImageReference::Uri
    } else {
        ImageReference::File
    }
}

/// Tests for a prefix.
fn has_prefix(bytes: &[u8], prefix: &Vec<u8>) -> (r: bool)
    ensures
        r == starts_with(bytes@, prefix@),
{
    if bytes.len() < prefix.len() {
        return false;
    }
    for i in 0..prefix.len()
        invariant
            prefix@.len() <= bytes@.len(),
            forall|k: int| 0 <= k < i ==> bytes@[k] == prefix@[k],
    {
        if bytes[i] != prefix[i] {
            assert(bytes@.subrange(0, prefix@.len() as int)[i as int] != prefix@[i as int]);
            return false;
        }
    }
    assert(bytes@.subrange(0, prefix@.len() as int) =~= prefix@);
    true
}

/// What an image destination refers to: see [`reference_of`]. An image whose data is in the
/// destination is not resolved any further.
pub fn resolve_markdown_live_preview_image(dest_url: &str) -> (r: ImageReference)
    ensures
        r == reference_of(dest_url.spec_bytes()),
{
    let bytes = dest_url.as_bytes();
    let data: Vec<u8> = vec![0x64, 0x61, 0x74, 0x61, 0x3a];
    let http: Vec<u8> = vec![0x68, 0x74, 0x74, 0x70, 0x3a, 0x2f, 0x2f];
    let https: Vec<u8> = vec![0x68, 0x74, 0x74, 0x70, 0x73, 0x3a, 0x2f, 0x2f];
    proof {
        assert(data@ =~= seq![0x64, 0x61, 0x74, 0x61, 0x3a]);
        assert(http@ =~= seq![0x68, 0x74, 0x74, 0x70, 0x3a, 0x2f, 0x2f]);
        assert(https@ =~= seq![0x68, 0x74, 0x74, 0x70, 0x73, 0x3a, 0x2f, 0x2f]);
    }
    if has_prefix(bytes, &data) {
        ImageReference::Data
    } else if has_prefix(bytes, &http) || has_prefix(bytes, &https) {
        ImageReference::Uri
    } else {
        ImageReference::File
    }
}

/// What an image is loaded from.
#[derive(Clone, Copy, Debug, Eq, PartialEq, Structural)]
pub enum ImageLocation {
    /// From the web, at its destination.
    Uri,
    /// From the path that its destination is.
    AbsolutePath,
    /// From the path that its destination is, in the base directory.
    PathInBase,
}

/// What an image is loaded from. An image whose data is in the destination is not loaded, nor is
/// one with a relative path where there is no base directory.
pub open spec fn location_of(
    reference: ImageReference,
    is_absolute: bool,
    has_base: bool,
) -> Option<ImageLocation> {
    match reference {
        ImageReference::Data => None,
        ImageReference::Uri => Some(ImageLocation::Uri),
        ImageReference::File => if is_absolute {
            Some(ImageLocation::AbsolutePath)
        } else if has_base {
            Some(ImageLocation::PathInBase)
        } else {
            None
        },
    }
}

/// What an image is loaded from: see [`location_of`]. `is_absolute` says whether its destination
/// is an absolute path, which matters for files only; `has_base`, whether there is a base directory.
pub fn locate_markdown_live_preview_image(
    reference: ImageReference,
    is_absolute: bool,
    has_base: bool,
) -> (r: Option<ImageLocation>)
    ensures
        r == location_of(reference, is_absolute, has_base),
{
    match reference {
        ImageReference::Data => None,
        ImageReference::Uri => Some(ImageLocation::Uri),
        ImageReference::File => {
            if is_absolute {
                Some(ImageLocation::AbsolutePath)
            } else if has_base {
                Some(ImageLocation::PathInBase)
            } else {
                None
            }
        },
    }
}

/// A checkbox with `mark` in it starts at `i`.
pub open spec fn box_at(b: Seq<u8>, mark: u8, i: int) -> bool {
    0 <= i && i + 3 <= b.len() && b[i] == 0x5b && b[i + 1] == mark && b[i + 2] == 0x5d
}

/// Where the first checkbox with `mark` in it starts, from `i` on.
pub open spec fn find_box(b: Seq<u8>, mark: u8, i: int) -> Option<int>
    decreases b.len() - i,
{
    if i >= b.len() {
        None
    } else if box_at(b, mark, i) {
        Some(i)
    } else {
        find_box(b, mark, i + 1)
    }
}

/// Where the checkbox of a task list marker starts: the first `[ ]`, else the first `[x]`, else the
/// first `[X]`.
pub open spec fn task_box(b: Seq<u8>) -> Option<int> {
    match find_box(b, 0x20, 0) {
        Some(i) => Some(i),
        None => match find_box(b, 0x78, 0) {
            Some(i) => Some(i),
            None => find_box(b, 0x58, 0),
        },
    }
}

/// An edit that turns a checkbox over.
#[derive(Debug, Eq, PartialEq)]
pub struct TaskListEdit {
    /// The range of the checkbox.
    pub range: Range<usize>,
    /// Whether the checkbox is checked after the edit.
    pub checked: bool,
}

impl TaskListEdit {
    /// The checkbox after the edit.
    pub fn replacement(&self) -> (r: &'static str)
        ensures
            r@ == box_text(self.checked),
    {
        proof {
            reveal_strlit("[x]");
            reveal_strlit("[ ]");
            assert("[x]"@ =~= box_text(true));
            assert("[ ]"@ =~= box_text(false));
        }
        if self.checked {
            "[x]"
        } else {
            "[ ]"
        }
    }
}

/// A checkbox.
pub open spec fn box_text(checked: bool) -> Seq<char> {
    seq!['[', if checked { 'x' } else { ' ' }, ']']
}

/// Finds a checkbox: see [`find_box`].
fn find_box_at(bytes: &[u8], mark: u8) -> (r: Option<usize>)
    ensures
        match find_box(bytes@, mark, 0) {
            Some(i) => r == Some(i as usize) && 0 <= i && i + 3 <= bytes@.len(),
            None => r is None,
        },
{
    let mut i: usize = 0;
    while i < bytes.len()
        invariant
            i <= bytes@.len(),
            find_box(bytes@, mark, 0) == find_box(bytes@, mark, i as int),
        decreases bytes@.len() - i,
    {
        if bytes.len() - i >= 3 && bytes[i] == 0x5b && bytes[i + 1] == mark && bytes[i + 2]
            == 0x5d {
            return Some(i);
        }
        i += 1;
    }
    None
}

/// The edit that turns over the checkbox in the text of a task list marker, which stands at
/// `start` and was shown as `checked`. No edit if there is no checkbox in it.
pub fn toggle_task_list_marker(text: &str, start: usize, checked: bool) -> (r: Option<TaskListEdit>)
    requires
        start + text.spec_bytes().len() <= usize::MAX,
    ensures
        match task_box(text.spec_bytes()) {
            Some(i) => r is Some && r->0.range.start == start + i && r->0.range.end == start + i + 3
                && r->0.checked == !checked,
            None => r is None,
        },
{
    let bytes = text.as_bytes();
    let found = match find_box_at(bytes, 0x20) {
        Some(i) => Some(i),
        None => match find_box_at(bytes, 0x78) {
            Some(i) => Some(i),
            None => find_box_at(bytes, 0x58),
        },
    };
    match found {
        Some(i) => Some(
            TaskListEdit { range: start + i..start + i + 3, checked: !checked },
        ),
        None => None,
    }
}

/// The text after the checkbox at `i` has been replaced.
pub open spec fn with_box(b: Seq<u8>, i: int, checked: bool) -> Seq<u8> {
    b.update(
        i + 1,
        if checked {
            0x78
        } else {
            0x20
        },
    )
}

/// A checkbox starts at `i`.
pub open spec fn any_box_at(b: Seq<u8>, i: int) -> bool {
    box_at(b, 0x20, i) || box_at(b, 0x78, i) || box_at(b, 0x58, i)
}

/// The text holds one checkbox, at `i`.
pub open spec fn only_box(b: Seq<u8>, i: int) -> bool {
    any_box_at(b, i) && forall|k: int| #[trigger] any_box_at(b, k) ==> k == i
}

proof fn lemma_find_box(b: Seq<u8>, mark: u8, i: int)
    requires
        0 <= i,
    ensures
        match find_box(b, mark, i) {
            Some(k) => i <= k && box_at(b, mark, k),
            None => forall|k: int| i <= k ==> !#[trigger] box_at(b, mark, k),
        },
    decreases b.len() - i,
{
    if i < b.len() {
        if !box_at(b, mark, i) {
            lemma_find_box(b, mark, i + 1);
        }
    }
}

proof fn lemma_task_box(b: Seq<u8>, i: int)
    requires
        only_box(b, i),
    ensures
        task_box(b) == Some(i),
{
    lemma_find_box(b, 0x20, 0);
    lemma_find_box(b, 0x78, 0);
    lemma_find_box(b, 0x58, 0);
    if let Some(k) = task_box(b) {
        assert(any_box_at(b, k));
    }
}

/// Turning a checkbox over and back gives the text from before, if the text holds one checkbox,
/// which is either empty or marked with an `x`.
pub proof fn law_toggling_twice_restores(b: Seq<u8>, i: int, checked: bool)
    requires
        only_box(b, i),
        box_at(
            b,
            if checked {
                0x78
            } else {
                0x20
            },
            i,
        ),
    ensures
        task_box(b) == Some(i),
        task_box(with_box(b, i, !checked)) == Some(i),
        with_box(with_box(b, i, !checked), i, checked) == b,
{
    let c = with_box(b, i, !checked);
    lemma_task_box(b, i);
    assert(only_box(c, i)) by {
        assert(any_box_at(c, i));
        assert forall|k: int| #[trigger] any_box_at(c, k) implies k == i by {
            if k != i {
                assert(k != i + 1 && k + 2 != i + 1);
                assert(b[k] == c[k] && b[k + 1] == c[k + 1] && b[k + 2] == c[k + 2]);
                assert(any_box_at(b, k));
            }
        }
    }
    lemma_task_box(c, i);
    assert(with_box(c, i, checked) =~= b);
}

} // verus!
