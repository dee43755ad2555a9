use zed_text_editor::{Editor, Point};

#[test]
fn test_empty_editor() {
    let editor = Editor::new();
    assert_eq!(editor.text(), "");
    assert_eq!(editor.cursor(), Point::zero());
}

#[test]
fn test_insert_at_cursor() {
    let mut editor = Editor::new();

    editor.insert("Hello");
    assert_eq!(editor.text(), "Hello");
    assert_eq!(editor.cursor(), Point::new(0, 5));

    editor.insert(" World");
    assert_eq!(editor.text(), "Hello World");
    assert_eq!(editor.cursor(), Point::new(0, 11));
}

#[test]
fn test_insert_newline() {
    let mut editor = Editor::new();

    editor.insert("Line 1");
    editor.insert("\n");
    editor.insert("Line 2");

    assert_eq!(editor.text(), "Line 1\nLine 2");
    assert_eq!(editor.cursor(), Point::new(1, 6));
}

#[test]
fn test_backspace() {
    let mut editor = Editor::from_text("Hello World");
    editor.set_cursor(Point::new(0, 5));

    editor.backspace();
    assert_eq!(editor.text(), "Hell World");
    assert_eq!(editor.cursor(), Point::new(0, 4));
}

#[test]
fn test_delete() {
    let mut editor = Editor::from_text("Hello World");
    editor.set_cursor(Point::new(0, 5));

    editor.delete();
    assert_eq!(editor.text(), "HelloWorld");
    assert_eq!(editor.cursor(), Point::new(0, 5));
}

#[test]
fn test_move_left_right() {
    let mut editor = Editor::from_text("Hello");
    editor.set_cursor(Point::new(0, 5));

    editor.move_left();
    assert_eq!(editor.cursor(), Point::new(0, 4));

    editor.move_right();
    assert_eq!(editor.cursor(), Point::new(0, 5));
}

#[test]
fn test_move_up_down() {
    let mut editor = Editor::from_text("Line 1\nLine 2\nLine 3");
    editor.set_cursor(Point::new(1, 3));

    editor.move_up();
    assert_eq!(editor.cursor(), Point::new(0, 3));

    editor.move_down();
    assert_eq!(editor.cursor(), Point::new(1, 3));

    editor.move_down();
    assert_eq!(editor.cursor(), Point::new(2, 3));
}

#[test]
fn test_move_line_start_end() {
    let mut editor = Editor::from_text("Hello World");
    editor.set_cursor(Point::new(0, 5));

    editor.move_to_line_start();
    assert_eq!(editor.cursor(), Point::new(0, 0));

    editor.move_to_line_end();
    assert_eq!(editor.cursor(), Point::new(0, 11));
}

#[test]
fn test_typing_simulation() {
    let mut editor = Editor::new();

    editor.insert("H");
    editor.insert("e");
    editor.insert("l");
    editor.insert("l");
    editor.insert("o");

    assert_eq!(editor.text(), "Hello");
    assert_eq!(editor.cursor(), Point::new(0, 5));

    editor.insert("\n");

    editor.insert("World");

    assert_eq!(editor.text(), "Hello\nWorld");
    assert_eq!(editor.cursor(), Point::new(1, 5));
}

#[test]
fn test_backspace_newline() {
    let mut editor = Editor::from_text("Hello\nWorld");
    editor.set_cursor(Point::new(1, 0));

    editor.backspace();

    assert_eq!(editor.text(), "HelloWorld");
    assert_eq!(editor.cursor(), Point::new(0, 5));
}

#[test]
fn test_undo_insert() {
    let mut editor = Editor::new();

    editor.insert("H");
    editor.insert("e");
    editor.insert("l");
    editor.insert("l");
    editor.insert("o");
    editor.insert(" ");
    assert_eq!(editor.text(), "Hello ");

    editor.undo();
    assert_eq!(editor.text(), "", "Undo should remove the entire word batch");
    assert_eq!(editor.cursor(), Point::zero());
}

#[test]
fn test_redo_insert() {
    let mut editor = Editor::new();

    editor.insert("H");
    editor.insert("e");
    editor.insert("l");
    editor.insert("l");
    editor.insert("o");
    editor.insert(" ");
    assert_eq!(editor.text(), "Hello ");
    let cursor_after = editor.cursor();

    editor.undo();
    assert_eq!(editor.text(), "");

    editor.redo();
    assert_eq!(editor.text(), "Hello ");
    assert_eq!(editor.cursor(), cursor_after);
}

#[test]
fn test_multiple_undo_redo() {
    let mut editor = Editor::new();

    editor.insert("A");
    editor.insert(" ");
    assert_eq!(editor.text(), "A ");

    editor.insert("B");
    editor.insert(" ");
    assert_eq!(editor.text(), "A B ");

    editor.insert("C");
    editor.insert(" ");
    assert_eq!(editor.text(), "A B C ");

    editor.undo();
    assert_eq!(editor.text(), "A B ");

    editor.undo();
    assert_eq!(editor.text(), "A ");

    editor.redo();
    assert_eq!(editor.text(), "A B ");

    editor.redo();
    assert_eq!(editor.text(), "A B C ");
}

#[test]
fn test_undo_backspace() {
    let mut editor = Editor::from_text("Hello");
    editor.set_cursor(Point::new(0, 5));

    editor.backspace();
    assert_eq!(editor.text(), "Hell");

    editor.undo();
    assert_eq!(editor.text(), "Hello");
}

#[test]
fn test_undo_single_keypress_word_batching() {
    let mut editor = Editor::new();

    editor.insert("h");
    editor.insert("e");
    editor.insert("l");
    editor.insert("l");
    editor.insert("o");
    editor.insert(" ");

    assert_eq!(editor.text(), "hello ");
    assert!(editor.can_undo());

    editor.undo();
    assert_eq!(editor.text(), "", "Undo should remove the entire word on first press");
    assert_eq!(editor.cursor(), Point::zero(), "Cursor should be at zero");
    assert!(!editor.can_undo(), "No more undo history");
}

#[test]
fn test_redo_single_keypress_after_undo() {
    let mut editor = Editor::new();

    editor.insert("h");
    editor.insert("e");
    editor.insert("l");
    editor.insert("l");
    editor.insert("o");
    editor.insert(" ");

    assert_eq!(editor.text(), "hello ");
    let cursor_after_insert = editor.cursor();

    editor.undo();
    assert_eq!(editor.text(), "");

    editor.redo();
    assert_eq!(editor.text(), "hello ", "Redo should restore the entire word");
    assert_eq!(editor.cursor(), cursor_after_insert, "Cursor should be at the position after the word");
}

#[test]
fn test_word_by_word_undo_multiple_words() {
    let mut editor = Editor::new();

    editor.insert("h");
    editor.insert("e");
    editor.insert("l");
    editor.insert("l");
    editor.insert("o");
    editor.insert(" ");
    assert_eq!(editor.text(), "hello ");

    editor.insert("w");
    editor.insert("o");
    editor.insert("r");
    editor.insert("l");
    editor.insert("d");
    editor.insert(" ");
    assert_eq!(editor.text(), "hello world ");

    editor.undo();
    assert_eq!(editor.text(), "hello ", "First undo should remove 'world '");

    editor.undo();
    assert_eq!(editor.text(), "", "Second undo should remove 'hello '");

    editor.redo();
    assert_eq!(editor.text(), "hello ", "First redo should restore 'hello '");

    editor.redo();
    assert_eq!(editor.text(), "hello world ", "Second redo should restore 'world '");
}

#[test]
fn test_redo_cursor_position() {
    let mut editor = Editor::new();
    editor.insert("h");
    editor.insert("e");
    editor.insert("l");
    editor.insert("l");
    editor.insert("o");
    editor.insert(" ");
    editor.undo();
    editor.redo();
    assert_eq!(editor.text(), "hello ");
    assert_eq!(editor.cursor(), Point::new(0, 6));
}

#[test]
fn test_undo_discards_pending_word() {
    let mut editor = Editor::new();
    editor.insert("hi");
    editor.insert(" ");
    editor.insert("wip");
    assert_eq!(editor.text(), "hi wip");

    // one undo discards the uncommitted word, not just part of it
    editor.undo();
    assert_eq!(editor.text(), "hi ");
    assert_eq!(editor.cursor(), Point::new(0, 3));

    // the committed word still undoes as one unit
    editor.undo();
    assert_eq!(editor.text(), "");
}

#[test]
fn test_version_changes_on_every_edit() {
    let mut editor = Editor::new();
    let v0 = editor.version();
    editor.insert("a");
    let v1 = editor.version();
    assert_ne!(v0, v1);
    editor.insert(" ");
    let v2 = editor.version();
    assert_ne!(v1, v2);
    editor.undo();
    assert_ne!(editor.version(), v2);
}

#[test]
fn test_can_undo_fresh_and_pending() {
    let mut editor = Editor::new();
    assert!(!editor.can_undo());
    assert!(!editor.can_redo());

    editor.insert("a");
    assert!(editor.can_undo(), "a pending batch can be undone");

    editor.undo();
    assert!(!editor.can_undo());
}

#[test]
fn test_replace_all_records_one_edit() {
    let mut editor = Editor::from_text("old text");
    editor.set_cursor(Point::new(0, 3));
    editor.replace_all("new");
    assert_eq!(editor.text(), "new");
    assert_eq!(editor.cursor(), Point::new(0, 3));

    editor.undo();
    assert_eq!(editor.text(), "old text");

    editor.redo();
    assert_eq!(editor.text(), "new");
}

#[test]
fn test_replace_all_clamps_to_last_line() {
    // the old row is gone: the cursor lands at the end of the last line
    let mut editor = Editor::from_text("a\nb\nc");
    editor.set_cursor(Point::new(2, 1));
    editor.replace_all("xy");
    assert_eq!(editor.text(), "xy");
    assert_eq!(editor.cursor(), Point::new(0, 2));

    let mut editor = Editor::from_text("one\ntwo\nthree\nfour");
    editor.set_cursor(Point::new(3, 2));
    editor.replace_all("p\nqq");
    assert_eq!(editor.cursor(), Point::new(1, 2));

    // the old row survives: the column clamps to that line
    let mut editor = Editor::from_text("aaaa\nbbbb");
    editor.set_cursor(Point::new(1, 4));
    editor.replace_all("cc\nd");
    assert_eq!(editor.cursor(), Point::new(1, 1));
}

#[test]
fn test_undo_redo_on_empty_stacks_do_nothing() {
    let mut editor = Editor::from_text("abc");
    editor.undo();
    assert_eq!(editor.text(), "abc");
    editor.redo();
    assert_eq!(editor.text(), "abc");
}
