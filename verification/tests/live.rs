//! The decisions of an editor, one by one.
use markdown_preview::live::{
    active_markdown_live_preview_rows, initial_block_height, inline_marker_placeholder,
    locate_markdown_live_preview_image, resolve_markdown_live_preview_image, rows_intersect,
    should_render_markdown_live_preview, toggle_task_list_marker, ImageLocation, ImageReference,
    Placeholder, TaskListEdit,
};
use markdown_preview::preview::{
    MarkdownLivePreviewBlock, MarkdownLivePreviewBlockKind, MarkdownLivePreviewInlineMarker,
    MarkdownLivePreviewInlineMarkerKind, MarkdownLivePreviewLayout,
};
use markdown_preview::session::{
    accepts_parse, apply_markdown_live_preview_layout, markdown_live_preview_blocks_inserted,
    reconcile_markdown_live_preview_selection, remove_markdown_live_preview,
    schedule_markdown_live_preview_reparse, set_markdown_live_preview_block_height,
    sync_markdown_live_preview, ApplyPlan, MarkdownLivePreviewState, MarkerPosition, Point,
    ReconcileDecision, RemovalPlan, RichBlockState, ScheduleDecision, Session, SyncPlan,
};
use std::ops::Range;

fn block(
    range: Range<usize>,
    source: &str,
    kind: MarkdownLivePreviewBlockKind,
) -> MarkdownLivePreviewBlock {
    MarkdownLivePreviewBlock {
        source_range: range.clone(),
        replacement_range: range,
        source: source.to_owned(),
        display_text: String::new(),
        image_destination: None,
        kind,
    }
}

fn rich(range: Range<usize>, source: &str, block_id: Option<usize>) -> RichBlockState {
    RichBlockState {
        block: block(range, source, MarkdownLivePreviewBlockKind::Table),
        height: 7,
        block_id,
    }
}

fn session(rich_blocks: Vec<RichBlockState>) -> Session {
    Some(MarkdownLivePreviewState {
        rich_blocks,
        inline_markers: Vec::new(),
        active_rows: Vec::new(),
        parse_generation: 3,
    })
}

fn at(row: u32, column: u32) -> Point {
    Point { row, column }
}

#[test]
fn preview_is_for_full_editors_on_markdown() {
    assert!(should_render_markdown_live_preview(true, true, true, Some("Markdown")));
    assert!(!should_render_markdown_live_preview(false, true, true, Some("Markdown")));
    assert!(!should_render_markdown_live_preview(true, false, true, Some("Markdown")));
    assert!(!should_render_markdown_live_preview(true, true, false, Some("Markdown")));
    assert!(!should_render_markdown_live_preview(true, true, true, Some("markdown")));
    assert!(!should_render_markdown_live_preview(true, true, true, None));
}

#[test]
fn rows_meet_if_they_share_a_row() {
    assert!(rows_intersect(2..4, &vec![3..5]));
    assert!(!rows_intersect(2..4, &vec![4..5, 0..2]));
    assert!(!rows_intersect(2..4, &vec![]));
}

#[test]
fn active_rows_are_in_order() {
    let rows = active_markdown_live_preview_rows(&vec![(5, 3), (1, 1), (3, 4), (u32::MAX, 9)]);
    assert_eq!(rows, vec![1..2, 3..5, 3..6, 9..u32::MAX]);
}

#[test]
fn heights_are_estimated_by_lines() {
    let height = |source: &str, kind| initial_block_height(&block(0..1, source, kind));
    let code = |is_indented| MarkdownLivePreviewBlockKind::CodeBlock {
        is_indented,
        is_mermaid: false,
    };
    assert_eq!(height("![a](b)", MarkdownLivePreviewBlockKind::Image), 8);
    assert_eq!(height("```\na\n```", code(false)), 3);
    assert_eq!(height("    a\n    b", code(true)), 4);
    assert_eq!(height("|a|\r\n|-|\r\n|b|", MarkdownLivePreviewBlockKind::Table), 3);
    assert_eq!(height("---\n***", MarkdownLivePreviewBlockKind::Rule), 1);
    assert_eq!(height("", MarkdownLivePreviewBlockKind::Other), 1);
}

#[test]
fn markers_have_placeholders() {
    let placeholder = inline_marker_placeholder;
    assert_eq!(
        placeholder(MarkdownLivePreviewInlineMarkerKind::Hidden),
        Placeholder::Nothing
    );
    assert_eq!(
        placeholder(MarkdownLivePreviewInlineMarkerKind::Bullet),
        Placeholder::Bullet
    );
    assert_eq!(
        placeholder(MarkdownLivePreviewInlineMarkerKind::BlockQuote),
        Placeholder::Bar
    );
    assert_eq!(
        placeholder(MarkdownLivePreviewInlineMarkerKind::TaskListMarker { checked: true }),
        Placeholder::Checkbox { checked: true }
    );
}

#[test]
fn image_destinations_are_told_apart() {
    let reference = resolve_markdown_live_preview_image;
    assert_eq!(reference("data:image/png;base64,AA"), ImageReference::Data);
    assert_eq!(reference("http://a.b/c.png"), ImageReference::Uri);
    assert_eq!(reference("https://a.b/c.png"), ImageReference::Uri);
    assert_eq!(reference("http:/a"), ImageReference::File);
    assert_eq!(reference("img/data:x.png"), ImageReference::File);
    assert_eq!(reference(""), ImageReference::File);
}

#[test]
fn images_are_located() {
    let locate = locate_markdown_live_preview_image;
    assert_eq!(locate(ImageReference::Data, true, true), None);
    assert_eq!(locate(ImageReference::Data, false, false), None);
    assert_eq!(locate(ImageReference::Uri, false, false), Some(ImageLocation::Uri));
    assert_eq!(locate(ImageReference::Uri, true, true), Some(ImageLocation::Uri));
    assert_eq!(locate(ImageReference::File, true, false), Some(ImageLocation::AbsolutePath));
    assert_eq!(locate(ImageReference::File, true, true), Some(ImageLocation::AbsolutePath));
    assert_eq!(locate(ImageReference::File, false, true), Some(ImageLocation::PathInBase));
    assert_eq!(locate(ImageReference::File, false, false), None);
}

#[test]
fn checkboxes_are_turned_over() {
    let edit = |range, checked| Some(TaskListEdit { range, checked });
    assert_eq!(toggle_task_list_marker("- [ ]", 10, false), edit(12..15, true));
    assert_eq!(toggle_task_list_marker("- [x]", 10, true), edit(12..15, false));
    assert_eq!(toggle_task_list_marker("- [X]", 0, true), edit(2..5, false));
    assert_eq!(toggle_task_list_marker("[x] [ ]", 0, true), edit(4..7, false));
    assert_eq!(toggle_task_list_marker("- é", 0, true), None);
    assert_eq!(toggle_task_list_marker("- [ ", 0, true), None);
    let checked = TaskListEdit { range: 0..3, checked: true };
    let unchecked = TaskListEdit { range: 0..3, checked: false };
    assert_eq!(checked.replacement(), "[x]");
    assert_eq!(unchecked.replacement(), "[ ]");
}

#[test]
fn toggling_twice_restores_the_text() {
    let mut text = "- [ ] ".to_owned();
    for checked in [false, true] {
        let edit = toggle_task_list_marker(&text, 0, checked).unwrap();
        text.replace_range(edit.range.clone(), edit.replacement());
    }
    assert_eq!(text, "- [ ] ");
}

#[test]
fn only_the_last_parse_counts() {
    let mut session: Session = None;
    assert_eq!(
        schedule_markdown_live_preview_reparse(&mut session, true),
        ScheduleDecision::Parse { generation: 1 }
    );
    assert_eq!(
        schedule_markdown_live_preview_reparse(&mut session, true),
        ScheduleDecision::Parse { generation: 2 }
    );
    assert!(!accepts_parse(&session, 1));
    assert!(accepts_parse(&session, 2));
    assert_eq!(
        schedule_markdown_live_preview_reparse(&mut session, false),
        ScheduleDecision::Remove(Some(RemovalPlan {
            block_ids: vec![],
            remove_folds: false,
        }))
    );
    assert!(session.is_none());
    assert!(!accepts_parse(&session, 2));
    assert_eq!(
        schedule_markdown_live_preview_reparse(&mut session, false),
        ScheduleDecision::Remove(None)
    );
}

#[test]
fn any_number_of_requests_coalesces() {
    let mut session: Session = None;
    for n in 1..=5 {
        assert_eq!(
            schedule_markdown_live_preview_reparse(&mut session, true),
            ScheduleDecision::Parse { generation: n }
        );
    }
    let accepted: Vec<usize> = (1..=5)
        .filter(|generation| accepts_parse(&session, *generation))
        .collect();
    assert_eq!(accepted, vec![5]);
}

#[test]
fn selections_call_for_what_has_changed() {
    let mut session: Session = None;
    let rows = vec![2..3];
    assert_eq!(
        reconcile_markdown_live_preview_selection(&mut session, true, &rows),
        ReconcileDecision::Parse { generation: 1 }
    );
    assert_eq!(
        reconcile_markdown_live_preview_selection(&mut session, true, &rows),
        ReconcileDecision::Sync
    );
    let plan = sync_markdown_live_preview(&mut session, rows, &vec![], &vec![], &vec![]);
    assert!(plan.is_some());
    assert_eq!(
        reconcile_markdown_live_preview_selection(&mut session, true, &vec![2..3]),
        ReconcileDecision::Keep
    );
    assert_eq!(
        reconcile_markdown_live_preview_selection(&mut session, true, &vec![2..3, 2..3]),
        ReconcileDecision::Sync
    );
    assert!(matches!(
        reconcile_markdown_live_preview_selection(&mut session, false, &vec![]),
        ReconcileDecision::Remove(Some(_))
    ));
    assert!(session.is_none());
}

#[test]
fn removal_takes_all_inserted_blocks() {
    let mut session = session(vec![
        rich(0..1, "a", Some(4)),
        rich(2..3, "b", None),
        rich(4..5, "c", Some(9)),
    ]);
    let plan = remove_markdown_live_preview(&mut session);
    assert_eq!(
        plan,
        Some(RemovalPlan {
            block_ids: vec![4, 9],
            remove_folds: false,
        })
    );
    assert_eq!(session, None);
    assert_eq!(remove_markdown_live_preview(&mut session), None);
}

#[test]
fn unchanged_blocks_go_on() {
    let mut session = session(vec![
        rich(0..1, "a", Some(1)),
        rich(2..3, "b", Some(2)),
        rich(4..5, "c", Some(3)),
        rich(4..5, "c", Some(4)),
        rich(6..7, "d", None),
    ]);
    let table = MarkdownLivePreviewBlockKind::Table;
    let layout = MarkdownLivePreviewLayout {
        blocks: vec![
            block(10..11, "a", table),
            block(12..13, "changed", table),
            block(14..15, "c", table),
            block(14..15, "c", table),
        ],
        inline_markers: vec![MarkdownLivePreviewInlineMarker {
            range: 20..21,
            kind: MarkdownLivePreviewInlineMarkerKind::Bullet,
        }],
    };
    let moved = vec![10..11, 12..13, 14..15, 14..15, 16..17];
    let plan = apply_markdown_live_preview_layout(&mut session, layout, &moved);
    assert_eq!(
        plan,
        ApplyPlan {
            reused: vec![Some(0), None, Some(3), None],
            blocks_to_remove: vec![2, 3],
        }
    );
    let state = session.unwrap();
    let heights: Vec<_> = state.rich_blocks.iter().map(|block| block.height).collect();
    let ids: Vec<_> = state.rich_blocks.iter().map(|block| block.block_id).collect();
    assert_eq!(heights, vec![7, 1, 7, 1]);
    assert_eq!(ids, vec![Some(1), None, Some(4), None]);
    assert_eq!(state.rich_blocks[0].block.source_range, 10..11);
    assert_eq!(
        state.inline_markers,
        vec![MarkdownLivePreviewInlineMarkerKind::Bullet]
    );
    assert_eq!(state.parse_generation, 3);
}

#[test]
fn a_layout_starts_a_preview() {
    let mut session: Session = None;
    let layout = MarkdownLivePreviewLayout {
        blocks: vec![block(0..3, "---", MarkdownLivePreviewBlockKind::Rule)],
        inline_markers: vec![],
    };
    let plan = apply_markdown_live_preview_layout(&mut session, layout, &vec![]);
    assert_eq!(plan.reused, vec![None]);
    assert_eq!(session.unwrap().rich_blocks[0].height, 1);
}

#[test]
fn sync_shows_what_is_visible() {
    let mut session = session(vec![
        rich(0..1, "a", Some(1)),
        rich(2..3, "b", None),
        rich(4..5, "c", Some(3)),
        rich(6..6, "d", None),
    ]);
    let positions = vec![
        (at(0, 0), at(1, 4)),
        (at(3, 0), at(4, 0)),
        (at(6, 0), at(6, 5)),
        (at(8, 0), at(8, 0)),
    ];
    let plan = sync_markdown_live_preview(&mut session, vec![1..2], &positions, &vec![], &vec![]);
    assert_eq!(
        plan,
        Some(SyncPlan {
            blocks_to_remove: vec![1],
            blocks_to_insert: vec![1],
            folds_to_remove: vec![],
            folds_to_create: vec![],
        })
    );
    markdown_live_preview_blocks_inserted(&mut session, &vec![1, 77], &vec![8, 9]);
    let state = session.as_ref().unwrap();
    let ids: Vec<_> = state.rich_blocks.iter().map(|block| block.block_id).collect();
    assert_eq!(ids, vec![None, Some(8), Some(3), None]);
    assert_eq!(state.active_rows, vec![1..2]);
    let again = sync_markdown_live_preview(&mut session, vec![1..2], &positions, &vec![], &vec![]);
    let again = again.unwrap();
    assert!(again.blocks_to_insert.is_empty());
    assert!(again.blocks_to_remove.is_empty());
}

#[test]
fn sync_folds_what_is_hidden() {
    let mut session = session(vec![]);
    if let Some(state) = &mut session {
        state.inline_markers = vec![MarkdownLivePreviewInlineMarkerKind::Hidden; 5];
    }
    let marker = |range, row| MarkerPosition {
        range,
        start_row: row,
        end_row: row,
    };
    let markers = vec![
        marker(0..2, 0),
        marker(10..11, 2),
        marker(10..11, 2),
        marker(12..12, 2),
        marker(20..22, 5),
    ];
    let existing = vec![0..2, 20..22, 30..31, 30..31];
    let plan = sync_markdown_live_preview(&mut session, vec![0..1], &vec![], &markers, &existing);
    let plan = plan.unwrap();
    assert_eq!(plan.folds_to_remove, vec![0..2, 30..31]);
    assert_eq!(plan.folds_to_create, vec![2]);
}

#[test]
fn nothing_is_synced_without_a_preview() {
    let mut session: Session = None;
    let plan = sync_markdown_live_preview(&mut session, vec![0..1], &vec![], &vec![], &vec![]);
    assert_eq!(plan, None);
    markdown_live_preview_blocks_inserted(&mut session, &vec![0], &vec![1]);
    assert!(!set_markdown_live_preview_block_height(&mut session, 1, 2));
    assert_eq!(session, None);
}

#[test]
fn measured_heights_are_noted() {
    let mut session = session(vec![rich(0..1, "a", None), rich(2..3, "b", Some(5))]);
    assert!(!set_markdown_live_preview_block_height(&mut session, 6, 9));
    assert!(!set_markdown_live_preview_block_height(&mut session, 5, 7));
    assert!(set_markdown_live_preview_block_height(&mut session, 5, 9));
    let state = session.unwrap();
    assert_eq!(state.rich_blocks[0].height, 7);
    assert_eq!(state.rich_blocks[1].height, 9);
}
