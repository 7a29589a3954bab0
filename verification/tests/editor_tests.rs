use text_editor::document::Document;
use text_editor::editor::{Editor, Key, Mode};

const WIDTH: usize = 80;

fn cv(s: &str) -> Vec<char> {
    s.chars().collect()
}

fn doc_lines(ed: &Editor) -> Vec<Vec<char>> {
    ed.doc().lines().iter().map(|gb| gb.chars()).collect()
}

fn type_str(ed: &mut Editor, s: &str) {
    for c in s.chars() {
        ed.handle_key(Key::Char(c), WIDTH);
    }
}

#[test]
fn starts_in_normal_mode_at_origin() {
    let ed = Editor::new(Document::new());
    assert_eq!(*ed.mode(), Mode::Normal);
    assert_eq!(ed.cursor(), (0, 0));
    assert!(!ed.should_quit());
    assert!(ed.command_buffer().is_empty());
}

#[test]
fn mode_display_names() {
    assert_eq!(Mode::Normal.as_str(), "NORMAL");
    assert_eq!(Mode::Insert.as_str(), "INSERT");
    assert_eq!(Mode::Command.as_str(), "COMMAND");
}

#[test]
fn mode_transitions() {
    let mut ed = Editor::new(Document::new());
    ed.handle_key(Key::Char('i'), WIDTH);
    assert_eq!(*ed.mode(), Mode::Insert);
    ed.handle_key(Key::Esc, WIDTH);
    assert_eq!(*ed.mode(), Mode::Normal);
    ed.handle_key(Key::Char(':'), WIDTH);
    assert_eq!(*ed.mode(), Mode::Command);
    ed.handle_key(Key::Esc, WIDTH);
    assert_eq!(*ed.mode(), Mode::Normal);
}

#[test]
fn scenario_type_enter_type() {
    // From an empty document: type "ab", press Enter, type "c".
    let mut ed = Editor::new(Document::new());
    ed.handle_key(Key::Char('i'), WIDTH);
    type_str(&mut ed, "ab");
    ed.handle_key(Key::Enter, WIDTH);
    type_str(&mut ed, "c");
    assert_eq!(doc_lines(&ed), vec![cv("ab"), cv("c")]);
    assert_eq!(ed.cursor(), (1, 1));
}

#[test]
fn scenario_backspace_mid_line() {
    // Cursor at (0, 2) on "abc"; Backspace gives "ac", cursor (0, 1).
    let mut ed = Editor::new(Document::new());
    ed.handle_key(Key::Char('i'), WIDTH);
    type_str(&mut ed, "abc");
    ed.handle_key(Key::Esc, WIDTH);
    ed.handle_key(Key::Char('a'), WIDTH); // one step left: (0, 2)
    assert_eq!(ed.cursor(), (0, 2));
    ed.handle_key(Key::Char('i'), WIDTH);
    ed.handle_key(Key::Backspace, WIDTH);
    assert_eq!(doc_lines(&ed), vec![cv("ac")]);
    assert_eq!(ed.cursor(), (0, 1));
}

#[test]
fn scenario_command_save_as() {
    // In Command mode with buffer "s myfile.txt", Enter saves to that name
    // and the file identity becomes "myfile.txt".
    let mut ed = Editor::new(Document::new());
    ed.handle_key(Key::Char('i'), WIDTH);
    type_str(&mut ed, "hello");
    ed.handle_key(Key::Esc, WIDTH);
    ed.handle_key(Key::Char(':'), WIDTH);
    type_str(&mut ed, "s myfile.txt");
    assert_eq!(ed.command_buffer(), &cv("s myfile.txt"));
    let req = ed.handle_key(Key::Enter, WIDTH).expect("a save request");
    assert_eq!(req.job.target_path, cv("myfile.txt"));
    assert_eq!(req.job.shadow_path, cv("myfile.txt.tmp"));
    assert_eq!(req.job.content, cv("hello"));
    assert!(!req.and_quit);
    assert_eq!(ed.doc().full_path().unwrap(), &cv("myfile.txt"));
    assert_eq!(*ed.mode(), Mode::Normal);
    assert!(ed.command_buffer().is_empty());
    // The shell performs the write and reports back: the document is clean.
    ed.save_completed(req.and_quit);
    assert!(!ed.doc().dirty());
}

#[test]
fn backspace_at_line_start_joins_lines() {
    let mut ed = Editor::new(Document::new());
    ed.handle_key(Key::Char('i'), WIDTH);
    type_str(&mut ed, "ab");
    ed.handle_key(Key::Enter, WIDTH);
    type_str(&mut ed, "cd");
    // Move to the start of the second line.
    ed.handle_key(Key::Backspace, WIDTH);
    ed.handle_key(Key::Backspace, WIDTH);
    assert_eq!(ed.cursor(), (1, 0));
    ed.handle_key(Key::Backspace, WIDTH);
    assert_eq!(doc_lines(&ed), vec![cv("ab")]);
    assert_eq!(ed.cursor(), (0, 2));
}

#[test]
fn backspace_at_document_origin_does_nothing() {
    let mut ed = Editor::new(Document::new());
    ed.handle_key(Key::Char('i'), WIDTH);
    ed.handle_key(Key::Backspace, WIDTH);
    assert_eq!(doc_lines(&ed), vec![Vec::<char>::new()]);
    assert_eq!(ed.cursor(), (0, 0));
}

#[test]
fn tab_inserts_four_spaces() {
    let mut ed = Editor::new(Document::new());
    ed.handle_key(Key::Char('i'), WIDTH);
    type_str(&mut ed, "x");
    ed.handle_key(Key::Tab, WIDTH);
    assert_eq!(doc_lines(&ed), vec![cv("x    ")]);
    assert_eq!(ed.cursor(), (0, 5));
}

#[test]
fn quit_refused_while_dirty() {
    let mut ed = Editor::new(Document::new());
    ed.handle_key(Key::Char('i'), WIDTH);
    type_str(&mut ed, "a");
    ed.handle_key(Key::Esc, WIDTH);
    ed.handle_key(Key::Char(':'), WIDTH);
    type_str(&mut ed, "q");
    assert!(ed.handle_key(Key::Enter, WIDTH).is_none());
    assert!(!ed.should_quit());
}

#[test]
fn quit_allowed_when_clean() {
    let mut ed = Editor::new(Document::new());
    ed.handle_key(Key::Char(':'), WIDTH);
    type_str(&mut ed, "q");
    ed.handle_key(Key::Enter, WIDTH);
    assert!(ed.should_quit());
}

#[test]
fn save_in_place_without_path_is_refused() {
    let mut ed = Editor::new(Document::new());
    ed.handle_key(Key::Char(':'), WIDTH);
    type_str(&mut ed, "s");
    assert!(ed.handle_key(Key::Enter, WIDTH).is_none());
    assert!(ed.doc().full_path().is_none());
}

#[test]
fn save_in_place_with_path() {
    let doc = Document::open_text(cv("f.txt"), &cv("ab"));
    let mut ed = Editor::new(doc);
    ed.handle_key(Key::Char(':'), WIDTH);
    type_str(&mut ed, "s");
    let req = ed.handle_key(Key::Enter, WIDTH).expect("a save request");
    assert_eq!(req.job.target_path, cv("f.txt"));
    assert_eq!(req.job.content, cv("ab"));
    assert!(!req.and_quit);
}

#[test]
fn save_quit_quits_only_after_success() {
    let doc = Document::open_text(cv("f.txt"), &cv("ab"));
    let mut ed = Editor::new(doc);
    ed.handle_key(Key::Char('i'), WIDTH);
    type_str(&mut ed, "x");
    ed.handle_key(Key::Esc, WIDTH);
    ed.handle_key(Key::Char(':'), WIDTH);
    type_str(&mut ed, "sq");
    let req = ed.handle_key(Key::Enter, WIDTH).expect("a save request");
    assert!(req.and_quit);
    assert!(!ed.should_quit());
    ed.save_completed(req.and_quit);
    assert!(ed.should_quit());
    assert!(!ed.doc().dirty());
}

#[test]
fn save_quit_without_path_neither_saves_nor_quits() {
    let mut ed = Editor::new(Document::new());
    ed.handle_key(Key::Char(':'), WIDTH);
    type_str(&mut ed, "sq");
    assert!(ed.handle_key(Key::Enter, WIDTH).is_none());
    assert!(!ed.should_quit());
}

#[test]
fn unknown_command_is_a_noop() {
    let doc = Document::open_text(cv("f.txt"), &cv("ab"));
    let mut ed = Editor::new(doc);
    ed.handle_key(Key::Char(':'), WIDTH);
    type_str(&mut ed, "save-quit");
    assert!(ed.handle_key(Key::Enter, WIDTH).is_none());
    assert!(!ed.should_quit());
    assert_eq!(*ed.mode(), Mode::Normal);
    assert!(ed.command_buffer().is_empty());
}

#[test]
fn command_buffer_backspace_and_escape() {
    let mut ed = Editor::new(Document::new());
    ed.handle_key(Key::Char(':'), WIDTH);
    type_str(&mut ed, "sq");
    ed.handle_key(Key::Backspace, WIDTH);
    assert_eq!(ed.command_buffer(), &cv("s"));
    ed.handle_key(Key::Esc, WIDTH);
    assert!(ed.command_buffer().is_empty());
    assert_eq!(*ed.mode(), Mode::Normal);
}

#[test]
fn save_as_trims_the_name() {
    let mut ed = Editor::new(Document::new());
    ed.handle_key(Key::Char(':'), WIDTH);
    type_str(&mut ed, "s   padded.txt  ");
    let req = ed.handle_key(Key::Enter, WIDTH).expect("a save request");
    assert_eq!(req.job.target_path, cv("padded.txt"));
}

#[test]
fn horizontal_movement_wraps_across_lines() {
    let doc = Document::open_text(cv("f.txt"), &cv("ab\ncd"));
    let mut ed = Editor::new(doc);
    // Right from (0,0) through the end of line 0 onto line 1.
    ed.handle_key(Key::Char('d'), WIDTH);
    ed.handle_key(Key::Char('d'), WIDTH);
    assert_eq!(ed.cursor(), (0, 2));
    ed.handle_key(Key::Char('d'), WIDTH);
    assert_eq!(ed.cursor(), (1, 0));
    // Left wraps back to the end of the previous line.
    ed.handle_key(Key::Char('a'), WIDTH);
    assert_eq!(ed.cursor(), (0, 2));
}

#[test]
fn movement_clamped_at_document_edges() {
    let doc = Document::open_text(cv("f.txt"), &cv("ab"));
    let mut ed = Editor::new(doc);
    ed.handle_key(Key::Char('a'), WIDTH);
    assert_eq!(ed.cursor(), (0, 0));
    ed.handle_key(Key::Char('w'), WIDTH);
    assert_eq!(ed.cursor(), (0, 0));
    ed.handle_key(Key::Char('d'), WIDTH);
    ed.handle_key(Key::Char('d'), WIDTH);
    ed.handle_key(Key::Char('d'), WIDTH);
    assert_eq!(ed.cursor(), (0, 2));
    ed.handle_key(Key::Char('s'), WIDTH);
    assert_eq!(ed.cursor(), (0, 2));
}

#[test]
fn vertical_movement_through_wrapped_segments() {
    // Width 3: "abcdef" occupies two visual rows; moving down from the
    // first segment stays within the logical line.
    let doc = Document::open_text(cv("f.txt"), &cv("abcdef\nxy"));
    let mut ed = Editor::new(doc);
    ed.handle_key(Key::Char('d'), 3);
    assert_eq!(ed.cursor(), (0, 1));
    ed.handle_key(Key::Char('s'), 3);
    assert_eq!(ed.cursor(), (0, 4));
    // From the bottom segment, down crosses to the next line at the
    // preferred column clamped to its length.
    ed.handle_key(Key::Char('s'), 3);
    assert_eq!(ed.cursor(), (1, 1));
    // Up re-enters the previous line at its last wrapped segment.
    ed.handle_key(Key::Char('w'), 3);
    assert_eq!(ed.cursor(), (0, 4));
    ed.handle_key(Key::Char('w'), 3);
    assert_eq!(ed.cursor(), (0, 1));
}

#[test]
fn preferred_column_retargets_across_short_lines() {
    let doc = Document::open_text(cv("f.txt"), &cv("abcde\nx\nabcde"));
    let mut ed = Editor::new(doc);
    for _ in 0..4 {
        ed.handle_key(Key::Char('d'), WIDTH);
    }
    assert_eq!(ed.cursor(), (0, 4));
    ed.handle_key(Key::Char('s'), WIDTH);
    assert_eq!(ed.cursor(), (1, 1)); // clamped to the short line
    ed.handle_key(Key::Char('s'), WIDTH);
    assert_eq!(ed.cursor(), (2, 4)); // preferred column restored
}

#[test]
fn wraps_counts_visual_rows() {
    assert_eq!(Editor::wraps(0, 5), 1);
    assert_eq!(Editor::wraps(1, 5), 1);
    assert_eq!(Editor::wraps(5, 5), 1);
    assert_eq!(Editor::wraps(6, 5), 2);
    assert_eq!(Editor::wraps(10, 5), 2);
    assert_eq!(Editor::wraps(11, 5), 3);
}

#[test]
fn doc_to_screen_uses_wrap_formula() {
    // Lines "abc" (2 visual rows at width 2), "" (1 row), cursor on row 2.
    let doc = Document::open_text(cv("f.txt"), &cv("abc\n\nxyz"));
    let mut ed = Editor::new(doc);
    ed.handle_key(Key::Char('s'), 2);
    ed.handle_key(Key::Char('s'), 2);
    ed.handle_key(Key::Char('s'), 2);
    assert_eq!(ed.cursor(), (2, 0));
    assert_eq!(ed.doc_to_screen(2), (3, 0));
    // Within a wrapped line the cursor's segment adds to the screen row.
    ed.handle_key(Key::Char('d'), 2);
    ed.handle_key(Key::Char('d'), 2);
    assert_eq!(ed.cursor(), (2, 2));
    assert_eq!(ed.doc_to_screen(2), (4, 0));
}

#[test]
fn empty_line_occupies_one_visual_row() {
    let doc = Document::open_text(cv("f.txt"), &cv("\n\nab"));
    let mut ed = Editor::new(doc);
    ed.handle_key(Key::Char('s'), 4);
    ed.handle_key(Key::Char('s'), 4);
    assert_eq!(ed.cursor(), (2, 0));
    assert_eq!(ed.doc_to_screen(4), (2, 0));
}

#[test]
fn insert_mode_ignores_unmapped_keys() {
    let mut ed = Editor::new(Document::new());
    ed.handle_key(Key::Char('i'), WIDTH);
    ed.handle_key(Key::Other, WIDTH);
    assert_eq!(doc_lines(&ed), vec![Vec::<char>::new()]);
    assert_eq!(*ed.mode(), Mode::Insert);
}
