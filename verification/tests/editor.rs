//! An editor that follows the decisions of its live preview.
use markdown_preview::layout::markdown_live_preview_layout;
use markdown_preview::live::{
    active_markdown_live_preview_rows, should_render_markdown_live_preview,
    toggle_task_list_marker,
};
use markdown_preview::preview::MarkdownLivePreviewInlineMarkerKind;
use markdown_preview::session::{
    accepts_parse, apply_markdown_live_preview_layout, markdown_live_preview_blocks_inserted,
    reconcile_markdown_live_preview_selection, schedule_markdown_live_preview_reparse,
    sync_markdown_live_preview, MarkerPosition, Point, ReconcileDecision, RemovalPlan,
    ScheduleDecision, Session,
};
use std::ops::Range;

/// An editor on one Markdown buffer, with one cursor.
struct Editor {
    text: String,
    cursor: usize,
    live_preview: bool,
    session: Session,
    /// The ranges of the blocks and the numbers of what is rendered of them.
    blocks: Vec<(Range<usize>, usize)>,
    markers: Vec<Range<usize>>,
    folds: Vec<Range<usize>>,
    inserted: Vec<usize>,
    next_number: usize,
}

impl Editor {
    /// An editor with the cursor at the `ˇ` of the text.
    fn new(marked_text: &str) -> Editor {
        let cursor = marked_text.find('ˇ').unwrap();
        Editor {
            text: marked_text.replace('ˇ', ""),
            cursor,
            live_preview: true,
            session: None,
            blocks: Vec::new(),
            markers: Vec::new(),
            folds: Vec::new(),
            inserted: Vec::new(),
            next_number: 1,
        }
    }

    fn next_number(&mut self) -> usize {
        self.next_number += 1;
        self.next_number
    }

    fn point(&self, offset: usize) -> Point {
        let before = &self.text[..offset];
        let row = before.matches('\n').count();
        let column = before.len() - before.rfind('\n').map_or(0, |ix| ix + 1);
        Point {
            row: row as u32,
            column: column as u32,
        }
    }

    fn should_render(&self) -> bool {
        should_render_markdown_live_preview(true, self.live_preview, true, Some("Markdown"))
    }

    fn active_rows(&self) -> Vec<Range<u32>> {
        let row = self.point(self.cursor).row;
        active_markdown_live_preview_rows(&vec![(row, row)])
    }

    fn settle(&mut self) {
        let should_render = self.should_render();
        match schedule_markdown_live_preview_reparse(&mut self.session, should_render) {
            ScheduleDecision::Remove(plan) => self.remove(plan),
            ScheduleDecision::Parse { generation } => {
                let layout = markdown_live_preview_layout(&self.text);
                assert!(accepts_parse(&self.session, generation));
                self.apply(layout);
            }
        }
    }

    fn remove(&mut self, plan: Option<RemovalPlan>) {
        if let Some(plan) = plan {
            self.inserted.retain(|id| !plan.block_ids.contains(id));
            if plan.remove_folds {
                self.folds.clear();
            }
        }
        self.blocks.clear();
        self.markers.clear();
    }

    fn apply(&mut self, layout: markdown_preview::preview::MarkdownLivePreviewLayout) {
        let ranges: Vec<_> = self.blocks.iter().map(|block| block.0.clone()).collect();
        let new_ranges: Vec<_> = layout
            .blocks
            .iter()
            .map(|block| block.replacement_range.clone())
            .collect();
        self.markers = layout
            .inline_markers
            .iter()
            .map(|marker| marker.range.clone())
            .collect();
        let plan = apply_markdown_live_preview_layout(&mut self.session, layout, &ranges);
        self.inserted.retain(|id| !plan.blocks_to_remove.contains(id));
        let old = std::mem::take(&mut self.blocks);
        for (range, reused) in new_ranges.into_iter().zip(plan.reused) {
            let rendered = match reused {
                Some(ix) => old[ix].1,
                None => self.next_number(),
            };
            self.blocks.push((range, rendered));
        }
        self.sync(self.active_rows());
    }

    fn sync(&mut self, active_rows: Vec<Range<u32>>) {
        let positions: Vec<_> = self
            .blocks
            .iter()
            .map(|(range, _)| (self.point(range.start), self.point(range.end)))
            .collect();
        let markers: Vec<_> = self
            .markers
            .iter()
            .map(|range| MarkerPosition {
                range: range.clone(),
                start_row: self.point(range.start).row,
                end_row: self.point(range.end).row,
            })
            .collect();
        let plan = sync_markdown_live_preview(
            &mut self.session,
            active_rows,
            &positions,
            &markers,
            &self.folds,
        )
        .unwrap();
        self.inserted.retain(|id| !plan.blocks_to_remove.contains(id));
        let ids: Vec<usize> = plan
            .blocks_to_insert
            .iter()
            .map(|_| self.next_number())
            .collect();
        self.inserted.extend(&ids);
        markdown_live_preview_blocks_inserted(&mut self.session, &plan.blocks_to_insert, &ids);
        self.folds.retain(|fold| !plan.folds_to_remove.contains(fold));
        for ix in plan.folds_to_create {
            self.folds.push(self.markers[ix].clone());
        }
        self.folds.sort_by_key(|fold| fold.start);
    }

    fn move_cursor(&mut self, row: usize, column: usize) {
        let line_start: usize = self
            .text
            .split_inclusive('\n')
            .take(row)
            .map(|line| line.len())
            .sum();
        self.cursor = line_start + column;
        let should_render = self.should_render();
        let active_rows = self.active_rows();
        match reconcile_markdown_live_preview_selection(
            &mut self.session,
            should_render,
            &active_rows,
        ) {
            ReconcileDecision::Remove(plan) => self.remove(plan),
            ReconcileDecision::Parse { .. } => self.settle(),
            ReconcileDecision::Keep => {}
            ReconcileDecision::Sync => self.sync(active_rows),
        }
    }

    /// Replaces a range, and moves what is behind it.
    fn edit(&mut self, range: Range<usize>, replacement: &str) {
        self.text.replace_range(range.clone(), replacement);
        let moved = |offset: usize| {
            if offset >= range.end {
                offset + replacement.len() - (range.end - range.start)
            } else {
                offset
            }
        };
        let moved_range = |range: &Range<usize>| moved(range.start)..moved(range.end);
        self.cursor = moved(self.cursor);
        for (block, _) in &mut self.blocks {
            *block = moved_range(block);
        }
        self.markers = self.markers.iter().map(moved_range).collect();
        self.folds = self.folds.iter().map(moved_range).collect();
    }

    fn display_text(&self) -> String {
        let mut shown = String::new();
        let mut at = 0;
        for fold in &self.folds {
            shown.push_str(&self.text[at..fold.start]);
            shown.push('⋯');
            at = fold.end;
        }
        shown.push_str(&self.text[at..]);
        shown
    }

    fn inserted_block_count(&self) -> usize {
        let noted = self.session.as_ref().map_or(0, |state| {
            state
                .rich_blocks
                .iter()
                .filter(|block| block.block_id.is_some())
                .count()
        });
        assert_eq!(noted, self.inserted.len());
        noted
    }

    fn marked_text(&self) -> String {
        let mut text = self.text.clone();
        text.insert(self.cursor, 'ˇ');
        text
    }
}

#[test]
fn test_inline_markers_are_hidden_except_on_cursor_rows() {
    let mut editor = Editor::new("# Titleˇ\n\nSome **bold** text\n\n- item\n");
    editor.settle();
    assert_eq!(
        editor.display_text(),
        "# Title\n\nSome ⋯bold⋯ text\n\n⋯ item\n"
    );

    editor.move_cursor(2, 0);
    assert_eq!(
        editor.display_text(),
        "⋯Title\n\nSome **bold** text\n\n⋯ item\n"
    );

    editor.move_cursor(4, 2);
    assert_eq!(
        editor.display_text(),
        "⋯Title\n\nSome ⋯bold⋯ text\n\n- item\n"
    );
}

#[test]
fn test_rich_blocks_are_revealed_when_cursor_enters() {
    let mut editor = Editor::new("Introˇ\n\n```rust\nlet x = 1;\n```\n\nOutro\n");
    editor.settle();
    assert_eq!(editor.inserted_block_count(), 1);

    editor.move_cursor(3, 4);
    assert_eq!(editor.inserted_block_count(), 0);

    editor.move_cursor(6, 0);
    assert_eq!(editor.inserted_block_count(), 1);
}

#[test]
fn test_editing_above_a_block_reuses_it() {
    let mut editor = Editor::new("Introˇ\n\n```rust\nlet x = 1;\n```\n");
    editor.settle();
    let rendered = editor.blocks[0].1;
    let block_id = editor.session.as_ref().unwrap().rich_blocks[0].block_id;
    assert!(block_id.is_some());

    let cursor = editor.cursor;
    editor.edit(cursor..cursor, " edited");
    editor.settle();

    assert_eq!(editor.blocks[0].1, rendered);
    assert_eq!(
        editor.session.as_ref().unwrap().rich_blocks[0].block_id,
        block_id
    );
    assert_eq!(
        editor.marked_text(),
        "Intro editedˇ\n\n```rust\nlet x = 1;\n```\n"
    );
}

#[test]
fn test_toggling_task_list_marker_edits_buffer() {
    let mut editor = Editor::new("ˇ\n- [ ] task\n");
    editor.settle();
    assert_eq!(editor.display_text(), "\n⋯ task\n");

    let fold = editor.markers[0].clone();
    let text = editor.text[fold.clone()].to_owned();
    let edit = toggle_task_list_marker(&text, fold.start, false).unwrap();
    let replacement = edit.replacement();
    editor.edit(edit.range.clone(), replacement);
    editor.settle();

    assert_eq!(editor.marked_text(), "ˇ\n- [x] task\n");
    assert_eq!(editor.display_text(), "\n⋯ task\n");
    assert_eq!(
        editor.session.as_ref().unwrap().inline_markers,
        vec![MarkdownLivePreviewInlineMarkerKind::TaskListMarker { checked: true }]
    );
}

#[test]
fn test_disabling_setting_removes_preview() {
    let mut editor = Editor::new("ˇ\n# Title\n\n```\ncode\n```\n");
    editor.settle();
    assert_eq!(editor.inserted_block_count(), 1);
    assert!(editor.display_text().contains('⋯'));

    editor.live_preview = false;
    editor.settle();

    assert_eq!(editor.display_text(), "\n# Title\n\n```\ncode\n```\n");
    assert!(editor.session.is_none());
    assert!(editor.inserted.is_empty());
}

#[test]
fn unfolded_markers_are_folded_again() {
    let mut editor = Editor::new("ˇ\n**a** and *b*\n");
    editor.settle();
    assert_eq!(editor.display_text(), "\n⋯a⋯ and ⋯b⋯\n");
    editor.folds.remove(1);
    editor.folds.push(0..1);
    let rows = editor.active_rows();
    editor.sync(rows);
    assert_eq!(editor.display_text(), "\n⋯a⋯ and ⋯b⋯\n");
}
