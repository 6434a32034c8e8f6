use baumaus::{Action, Editor, Focus, Key};

fn editor(lines: &[&str]) -> Editor {
    Editor::new(lines.iter().map(|l| l.to_string()).collect())
}

fn text(e: &Editor) -> Vec<String> {
    e.lines().clone()
}

#[test]
fn typing_inserts_at_the_cursor_and_asks_for_a_build() {
    let mut e = editor(&["wal"]);
    assert_eq!(e.handle_key(Key::Right), Action::Idle);
    assert_eq!(e.handle_key(Key::Right), Action::Idle);
    assert_eq!(e.handle_key(Key::Right), Action::Idle);
    assert_eq!(e.handle_key(Key::Char('l')), Action::Build);
    assert_eq!(text(&e), vec!["wall"]);
    assert_eq!(e.cursor_col(), 4);
    assert_eq!(e.handle_key(Key::Char('è')), Action::Build);
    assert_eq!(e.cursor_col(), 6);
    assert_eq!(e.script(), "wallè");
}

#[test]
fn backspace_undoes_typing() {
    let mut e = editor(&["casa", "è"]);
    e.handle_key(Key::Down);
    e.handle_key(Key::Right);
    let before = text(&e);
    let col = e.cursor_col();
    e.handle_key(Key::Char('€'));
    assert_eq!(text(&e), vec!["casa", "è€"]);
    e.handle_key(Key::Backspace);
    assert_eq!(text(&e), before);
    assert_eq!(e.cursor_col(), col);
}

#[test]
fn enter_splits_and_backspace_joins() {
    let mut e = editor(&["abcd"]);
    e.handle_key(Key::Right);
    e.handle_key(Key::Right);
    assert_eq!(e.handle_key(Key::Enter), Action::Build);
    assert_eq!(text(&e), vec!["ab", "cd"]);
    assert_eq!((e.cursor_row(), e.cursor_col()), (1, 0));
    assert_eq!(e.script(), "ab\ncd");
    e.handle_key(Key::Backspace);
    assert_eq!(text(&e), vec!["abcd"]);
    assert_eq!((e.cursor_row(), e.cursor_col()), (0, 2));
}

#[test]
fn backspace_at_the_very_start_changes_nothing_but_still_counts_as_an_edit() {
    let mut e = editor(&["x"]);
    assert_eq!(e.handle_key(Key::Backspace), Action::Build);
    assert_eq!(text(&e), vec!["x"]);
}

#[test]
fn vertical_moves_snap_the_cursor() {
    let mut e = editor(&["aè", "abcdef", "z"]);
    e.handle_key(Key::Down);
    for _ in 0..5 {
        e.handle_key(Key::Right);
    }
    assert_eq!(e.cursor_col(), 5);
    e.handle_key(Key::Up);
    assert_eq!((e.cursor_row(), e.cursor_col()), (0, 3));
    e.handle_key(Key::Up);
    assert_eq!(e.cursor_row(), 0);
    e.handle_key(Key::Down);
    e.handle_key(Key::Down);
    e.handle_key(Key::Down);
    assert_eq!((e.cursor_row(), e.cursor_col()), (2, 1));
    // between bytes of 'è' the cursor falls back to its start
    let mut e = editor(&["abc", "aè"]);
    e.handle_key(Key::Right);
    e.handle_key(Key::Right);
    e.handle_key(Key::Down);
    assert_eq!((e.cursor_row(), e.cursor_col()), (1, 1));
}

#[test]
fn plan_keys_steer_the_preview() {
    let mut e = editor(&["x"]);
    assert_eq!(e.focus(), Focus::Editor);
    assert_eq!(e.handle_key(Key::Tab), Action::Idle);
    assert_eq!(e.focus(), Focus::Plan);
    assert_eq!(e.handle_key(Key::Up), Action::RotateUp);
    assert_eq!(e.handle_key(Key::Down), Action::RotateDown);
    assert_eq!(e.handle_key(Key::Left), Action::RotateLeft);
    assert_eq!(e.handle_key(Key::Right), Action::RotateRight);
    assert_eq!(e.handle_key(Key::Char('z')), Action::ZoomIn);
    assert_eq!(e.handle_key(Key::Char('x')), Action::ZoomOut);
    assert_eq!(e.handle_key(Key::Char('r')), Action::ResetView);
    assert_eq!(e.handle_key(Key::Char('s')), Action::Save);
    assert_eq!(e.handle_key(Key::Char('a')), Action::AutoBuildToggled);
    assert!(!e.auto_build());
    assert_eq!(e.handle_key(Key::Char('k')), Action::Idle);
    assert_eq!(text(&e), vec!["x"]);
    assert!(!e.quit());
    assert_eq!(e.handle_key(Key::Char('q')), Action::Idle);
    assert!(e.quit());
}

#[test]
fn edits_without_auto_build_only_mark_the_script() {
    let mut e = editor(&[""]);
    e.handle_key(Key::Esc);
    assert_eq!(e.focus(), Focus::Plan);
    e.handle_key(Key::Char('a'));
    e.handle_key(Key::Tab);
    assert_eq!(e.focus(), Focus::Editor);
    assert_eq!(e.handle_key(Key::Char('q')), Action::Modified);
    assert!(!e.quit());
    assert_eq!(text(&e), vec!["q"]);
    assert_eq!(e.handle_key(Key::F(5)), Action::Build);
    assert_eq!(e.handle_key(Key::Other), Action::Idle);
}

#[test]
fn tab_twice_returns_the_focus() {
    let mut e = editor(&["x"]);
    e.handle_key(Key::Tab);
    e.handle_key(Key::Tab);
    assert_eq!(e.focus(), Focus::Editor);
}

#[test]
fn compile_errors_name_editor_rows() {
    let mut e = editor(&["wall([0, 0], [10, 0]);", "", "oops", "wall([1,1],[2,2]);"]);
    let draft = baumaus::compile(&e.script());
    assert_eq!(draft.error.as_ref().unwrap().line, 3);
    assert_eq!(e.lines()[draft.error.unwrap().line - 1], "oops");
    // fix the row and the script compiles
    e.handle_key(Key::Down);
    e.handle_key(Key::Down);
    for _ in 0..4 {
        e.handle_key(Key::Right);
    }
    for _ in 0..4 {
        e.handle_key(Key::Backspace);
    }
    assert_eq!(e.lines()[2], "");
    let draft = baumaus::compile(&e.script());
    assert!(draft.error.is_none());
    assert_eq!(draft.project.walls.len(), 2);
}
