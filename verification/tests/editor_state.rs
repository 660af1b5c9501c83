use the_third_sloppening::editor::{
    count_lines, frame_action, is_save_shortcut, EditorKey, EditorState, FrameAction, FrameProblem,
};

#[test]
fn editor_state_edits_and_scrolls() {
    let mut state = EditorState::new("a\nb\nc".to_owned());
    state.insert_text("\nd");
    state.backspace();
    state.move_left();
    state.delete_forward();
    state.scroll_lines(2);

    assert!(state.text().contains("a"));
    assert_eq!(state.scroll_line(), 2);
    assert_eq!(state.visible_text(1), "c");
}

#[test]
fn editor_state_handles_utf8_boundaries() {
    let mut state = EditorState::new("h🌍".to_owned());
    state.move_left();
    state.backspace();
    assert_eq!(state.text(), "🌍");
    state.delete_forward();
    assert_eq!(state.text(), "");
}

#[test]
fn editor_state_preserves_trailing_empty_line_for_viewport() {
    let mut state = EditorState::new("a\n".to_owned());
    state.scroll_lines(1);
    assert_eq!(state.total_lines(), 2);
    assert_eq!(state.visible_text(1), "");
    state.insert_text("b");
    assert_eq!(state.text(), "a\nb");
}

#[test]
fn editor_state_moves_cursor_from_mouse_position() {
    // The window turns a pointer position into a viewport row and a column
    // of characters; the same arithmetic is done here for (24.0, 35.0) with
    // a 22-pixel line height and the text inset by 12 pixels.
    let (x, y, line_height, top, left) = (24.0f32, 35.0f32, 22.0f32, 12.0f32, 12.0f32);
    let view_line = ((y - top).max(0.0) / line_height).floor() as usize;
    let col = ((x - left).max(0.0) / (16.0f32 * 0.6f32)).floor() as usize;

    let mut state = EditorState::new("abc\ndef".to_owned());
    state.set_cursor_from_cell(view_line, col);
    state.insert_text("X");
    assert_eq!(state.text(), "abc\ndXef");
}

#[test]
fn new_state_puts_cursor_at_end_and_counts_lines() {
    let state = EditorState::new("ab\ncd\n".to_owned());
    assert_eq!(state.cursor(), 6);
    assert_eq!(state.scroll_line(), 0);
    assert_eq!(state.total_lines(), 3);
}

#[test]
fn count_lines_counts_line_feeds_plus_one() {
    assert_eq!(count_lines(""), 1);
    assert_eq!(count_lines("abc"), 1);
    assert_eq!(count_lines("a\nb\n"), 3);
    assert_eq!(count_lines("\n\n\n"), 4);
}

#[test]
fn insert_in_the_middle_keeps_cursor_after_insertion() {
    let mut state = EditorState::new("ad".to_owned());
    state.move_left();
    state.insert_text("bc");
    assert_eq!(state.text(), "abcd");
    assert_eq!(state.cursor(), 3);
    state.insert_text("");
    assert_eq!(state.text(), "abcd");
    assert_eq!(state.cursor(), 3);
}

#[test]
fn inserting_line_feeds_updates_line_count() {
    let mut state = EditorState::new("x".to_owned());
    state.insert_text("\n\ny");
    assert_eq!(state.total_lines(), 3);
    state.backspace();
    state.backspace();
    assert_eq!(state.total_lines(), 2);
}

#[test]
fn backspace_undoes_typing_a_multibyte_character() {
    let mut state = EditorState::new("añb".to_owned());
    state.move_left();
    let before_text = state.text().to_owned();
    let before_cursor = state.cursor();
    state.insert_text("€");
    assert_eq!(state.text(), "añ€b");
    state.backspace();
    assert_eq!(state.text(), before_text);
    assert_eq!(state.cursor(), before_cursor);
}

#[test]
fn backspace_at_start_and_delete_at_end_do_nothing() {
    let mut state = EditorState::new("ab".to_owned());
    state.delete_forward();
    assert_eq!(state.text(), "ab");
    state.move_to_line_start();
    state.backspace();
    assert_eq!(state.text(), "ab");
    assert_eq!(state.cursor(), 0);
}

#[test]
fn left_then_right_returns_to_the_same_place() {
    let mut state = EditorState::new("a🌍é".to_owned());
    let end = state.cursor();
    state.move_left();
    assert_eq!(state.cursor(), end - 2);
    state.move_left();
    assert_eq!(state.cursor(), 1);
    state.move_right();
    assert_eq!(state.cursor(), 5);
    state.move_right();
    assert_eq!(state.cursor(), end);
    state.move_right();
    assert_eq!(state.cursor(), end);
}

#[test]
fn backspace_equals_left_then_delete() {
    let mut a = EditorState::new("x😀y".to_owned());
    a.move_left();
    let mut b = EditorState::new("x😀y".to_owned());
    b.move_left();
    a.backspace();
    b.move_left();
    b.delete_forward();
    assert_eq!(a.text(), b.text());
    assert_eq!(a.cursor(), b.cursor());
    assert_eq!(a.text(), "xy");
}

#[test]
fn boundaries_step_over_whole_characters() {
    let state = EditorState::new("aé😀".to_owned());
    assert_eq!(state.prev_boundary(0), 0);
    assert_eq!(state.prev_boundary(7), 3);
    assert_eq!(state.prev_boundary(3), 1);
    assert_eq!(state.next_boundary(1), 3);
    assert_eq!(state.next_boundary(3), 7);
    assert_eq!(state.next_boundary(7), 7);
}

#[test]
fn line_start_and_end_moves() {
    let mut state = EditorState::new("one\ntwo\nthree".to_owned());
    state.move_to_line_start();
    assert_eq!(state.cursor(), 8);
    state.move_to_line_start();
    assert_eq!(state.cursor(), 8);
    state.move_left();
    assert_eq!(state.cursor(), 7);
    state.move_to_line_start();
    assert_eq!(state.cursor(), 4);
    state.move_to_line_end();
    assert_eq!(state.cursor(), 7);
    state.move_to_line_end();
    assert_eq!(state.cursor(), 7);
}

#[test]
fn scrolling_is_clamped_to_the_text() {
    let mut state = EditorState::new("1\n2\n3\n4".to_owned());
    state.scroll_lines(-5);
    assert_eq!(state.scroll_line(), 0);
    state.scroll_lines(20);
    assert_eq!(state.scroll_line(), 3);
    state.scroll_lines(-1);
    assert_eq!(state.scroll_line(), 2);
    state.scroll_lines(i32::MIN);
    assert_eq!(state.scroll_line(), 0);
    state.scroll_lines(i32::MAX);
    assert_eq!(state.scroll_line(), 3);
}

#[test]
fn visible_text_windows() {
    let mut state = EditorState::new("l0\nl1\nl2\nl3".to_owned());
    assert_eq!(state.visible_text(0), "l0");
    assert_eq!(state.visible_text(2), "l0\nl1");
    assert_eq!(state.visible_text(10), "l0\nl1\nl2\nl3");
    state.scroll_lines(2);
    assert_eq!(state.visible_text(1), "l2");
    assert_eq!(state.visible_text(5), "l2\nl3");
}

#[test]
fn whole_text_is_visible_from_the_top() {
    let text = "α\n\nβγ\n";
    let state = EditorState::new(text.to_owned());
    assert_eq!(state.visible_text(state.total_lines()), text);
}

#[test]
fn drawable_text_is_never_empty() {
    let state = EditorState::new(String::new());
    assert_eq!(state.visible_text(3), "");
    assert_eq!(state.drawable_text(3), " ");
    let state = EditorState::new("hi".to_owned());
    assert_eq!(state.drawable_text(3), "hi");
}

#[test]
fn clicks_below_the_text_land_on_the_last_line() {
    let mut state = EditorState::new("ab\ncd".to_owned());
    state.set_cursor_from_cell(9, 1);
    assert_eq!(state.cursor(), 4);
    state.set_cursor_from_cell(0, 99);
    assert_eq!(state.cursor(), 2);
    let mut wide = EditorState::new("x\n🌍🌍z".to_owned());
    wide.set_cursor_from_cell(1, 2);
    assert_eq!(wide.cursor(), 10);
}

#[test]
fn keys_drive_the_editor() {
    let mut state = EditorState::new("ab".to_owned());
    state.handle_key(EditorKey::Enter);
    state.handle_key(EditorKey::Tab);
    assert_eq!(state.text(), "ab\n\t");
    assert_eq!(state.total_lines(), 2);
    state.handle_key(EditorKey::Backspace);
    assert_eq!(state.text(), "ab\n");
    state.handle_key(EditorKey::ArrowLeft);
    state.handle_key(EditorKey::Home);
    assert_eq!(state.cursor(), 0);
    state.handle_key(EditorKey::Delete);
    assert_eq!(state.text(), "b\n");
    state.handle_key(EditorKey::End);
    assert_eq!(state.cursor(), 1);
    state.handle_key(EditorKey::ArrowRight);
    assert_eq!(state.cursor(), 2);
    state.handle_key(EditorKey::PageDown);
    assert_eq!(state.scroll_line(), 1);
    state.handle_key(EditorKey::ArrowUp);
    assert_eq!(state.scroll_line(), 0);
    state.handle_key(EditorKey::ArrowDown);
    assert_eq!(state.scroll_line(), 1);
    state.handle_key(EditorKey::PageUp);
    assert_eq!(state.scroll_line(), 0);
}

#[test]
fn save_shortcut_needs_a_modifier_and_s() {
    assert!(is_save_shortcut(true, false, Some("s")));
    assert!(is_save_shortcut(false, true, Some("S")));
    assert!(!is_save_shortcut(false, false, Some("s")));
    assert!(!is_save_shortcut(true, false, Some("a")));
    assert!(!is_save_shortcut(true, false, Some("ss")));
    assert!(!is_save_shortcut(true, true, None));
}

#[test]
fn line_counts_of_joined_texts() {
    for (a, b) in [("", ""), ("a\n", "b"), ("x\ny\n", "\nz"), ("one", "two")] {
        let joined = a.to_owned() + b;
        assert_eq!(count_lines(&joined), count_lines(a) + count_lines(b) - 1);
    }
}

#[test]
fn navigation_keys_need_no_room_for_text() {
    let mut state = EditorState::new("ab\ncd".to_owned());
    state.handle_key(EditorKey::Home);
    assert_eq!(state.cursor(), 3);
    state.handle_key(EditorKey::ArrowLeft);
    state.handle_key(EditorKey::ArrowLeft);
    assert_eq!(state.cursor(), 1);
}

#[test]
fn cloned_state_is_independent_and_printable() {
    let mut state = EditorState::new("ab\nc".to_owned());
    state.scroll_lines(1);
    let copy = state.clone();
    state.backspace();
    assert_eq!(copy.text(), "ab\nc");
    assert_eq!(copy.cursor(), 4);
    assert_eq!(copy.scroll_line(), 1);
    assert_eq!(copy.total_lines(), 2);
    assert_eq!(state.text(), "ab\n");
    assert!(format!("{:?}", copy).contains("EditorState"));
}

#[test]
fn frame_problems_are_answered() {
    assert_eq!(frame_action(FrameProblem::Outdated), FrameAction::Resize);
    assert_eq!(frame_action(FrameProblem::Lost), FrameAction::Resize);
    assert_eq!(frame_action(FrameProblem::OutOfMemory), FrameAction::Fail);
    assert_eq!(frame_action(FrameProblem::Timeout), FrameAction::Skip);
}
