use treeline::{commit_line, is_exit_command, trim, Action, Key, LineEditor, Trie};

fn type_text(editor: &mut LineEditor, text: &str) {
    for c in text.chars() {
        assert_eq!(editor.handle(Key::Char(c)), Action::Echo(c));
    }
}

#[test]
fn word_delete_single_word_clears_line() {
    let mut editor = LineEditor::new();
    assert_eq!(editor.handle(Key::Char('h')), Action::Echo('h'));
    assert_eq!(editor.handle(Key::Char('i')), Action::Echo('i'));
    assert_eq!(editor.handle(Key::WordBackspace), Action::Redraw);
    assert_eq!(editor.text(), "");
}

#[test]
fn word_delete_drops_space_and_last_word() {
    let mut editor = LineEditor::new();
    type_text(&mut editor, "hello world");
    assert_eq!(editor.handle(Key::WordBackspace), Action::Erase(6));
    assert_eq!(editor.text(), "hello");
}

#[test]
fn word_delete_uses_last_space() {
    let mut editor = LineEditor::new();
    type_text(&mut editor, "a b c");
    assert_eq!(editor.delete_last_word(), Some(2));
    assert_eq!(editor.text(), "a b");
}

#[test]
fn word_delete_with_trailing_space() {
    let mut editor = LineEditor::new();
    type_text(&mut editor, "ab ");
    assert_eq!(editor.delete_last_word(), Some(1));
    assert_eq!(editor.text(), "ab");
}

#[test]
fn backspace_pops_and_tolerates_empty_line() {
    let mut editor = LineEditor::new();
    assert_eq!(editor.handle(Key::Backspace), Action::Erase(1));
    assert_eq!(editor.text(), "");
    type_text(&mut editor, "ok");
    assert_eq!(editor.handle(Key::Backspace), Action::Erase(1));
    assert_eq!(editor.text(), "o");
}

#[test]
fn enter_submits_line_and_starts_afresh() {
    let mut editor = LineEditor::new();
    type_text(&mut editor, " build ");
    assert_eq!(editor.handle(Key::Enter), Action::Submit(" build ".to_string()));
    assert_eq!(editor.text(), "");
}

#[test]
fn tab_interrupt_and_other_keep_line() {
    let mut editor = LineEditor::new();
    type_text(&mut editor, "he");
    assert_eq!(editor.handle(Key::Tab), Action::Complete);
    assert_eq!(editor.handle(Key::Other), Action::Nothing);
    assert_eq!(editor.handle(Key::Interrupt), Action::Exit);
    assert_eq!(editor.text(), "he");
}

#[test]
fn exit_words_in_any_case() {
    assert!(is_exit_command("q"));
    assert!(is_exit_command("Q"));
    assert!(is_exit_command("quit"));
    assert!(is_exit_command("QuIt"));
    assert!(is_exit_command("EXIT"));
    assert!(!is_exit_command("quit "));
    assert!(!is_exit_command("qu"));
    assert!(!is_exit_command("build"));
    assert!(!is_exit_command(""));
}

#[test]
fn commit_quit_ends_without_storing() {
    let mut history = Trie::new();
    assert!(!commit_line(&mut history, "quit"));
    assert!(history.find("quit").is_none());
}

#[test]
fn commit_build_stores_and_goes_on() {
    let mut history = Trie::new();
    assert!(commit_line(&mut history, "build"));
    assert!(history.find("build").is_some());
    let mut read = history.words();
    assert_eq!(read.next().map(|w| w.clone()), Some("build".to_string()));
}

#[test]
fn commit_padded_quit_ends_without_storing() {
    let mut history = Trie::new();
    assert!(!commit_line(&mut history, " QUIT "));
    assert!(history.find(" ").is_none());
    assert!(history.find("QUIT").is_none());
}

#[test]
fn commit_padded_line_stores_trimmed_text() {
    let mut history = Trie::new();
    assert!(commit_line(&mut history, " build "));
    assert!(history.find(" ").is_none());
    let mut read = history.words();
    assert_eq!(read.next().map(|w| w.clone()), Some("build".to_string()));
    assert!(read.next().is_none());
}

#[test]
fn trim_drops_outer_white_space_only() {
    assert_eq!(trim("  a b \t\n"), "a b");
    assert_eq!(trim("\u{3000}x\u{a0}"), "x");
    assert_eq!(trim("   "), "");
    assert_eq!(trim(""), "");
    assert_eq!(trim("abc"), "abc");
}
