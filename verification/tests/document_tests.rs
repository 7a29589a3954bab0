use text_editor::document::{
    open_allowed, Document, DocumentError, OpenPolicy, RecoverError, SaveError,
};

fn cv(s: &str) -> Vec<char> {
    s.chars().collect()
}

fn doc_lines(doc: &Document) -> Vec<Vec<char>> {
    doc.lines().iter().map(|gb| gb.chars()).collect()
}

#[test]
fn new_document_has_one_empty_line() {
    let doc = Document::new();
    assert_eq!(doc_lines(&doc), vec![Vec::<char>::new()]);
    assert!(!doc.dirty());
    assert!(doc.full_path().is_none());
}

#[test]
fn open_text_splits_on_newlines() {
    let doc = Document::open_text(cv("f.txt"), &cv("ab\ncd\nef"));
    assert_eq!(doc_lines(&doc), vec![cv("ab"), cv("cd"), cv("ef")]);
    assert!(!doc.dirty());
    assert_eq!(doc.full_path().unwrap(), &cv("f.txt"));
}

#[test]
fn open_text_empty_file_is_one_empty_line() {
    let doc = Document::open_text(cv("f.txt"), &cv(""));
    assert_eq!(doc_lines(&doc), vec![Vec::<char>::new()]);
}

#[test]
fn open_text_trailing_newline_opens_empty_last_line() {
    let doc = Document::open_text(cv("f.txt"), &cv("ab\n"));
    assert_eq!(doc_lines(&doc), vec![cv("ab"), cv("")]);
}

#[test]
fn insert_newline_splits_line() {
    let mut doc = Document::open_text(cv("f.txt"), &cv("hello"));
    doc.insert_newline(0, 2).unwrap();
    assert_eq!(doc_lines(&doc), vec![cv("he"), cv("llo")]);
    assert!(doc.dirty());
}

#[test]
fn insert_newline_grows_line_count_by_one_and_loses_nothing() {
    // A line of length N: the two resulting lines concatenate to the
    // original, for every split column.
    let text = "abcdef";
    for col in 0..=text.len() {
        let mut doc = Document::open_text(cv("f.txt"), &cv(text));
        let before = doc.lines().len();
        doc.insert_newline(0, col).unwrap();
        assert_eq!(doc.lines().len(), before + 1);
        let lines = doc_lines(&doc);
        let mut joined = lines[0].clone();
        joined.extend(lines[1].iter());
        assert_eq!(joined, cv(text));
    }
}

#[test]
fn insert_newline_rejects_bad_row_and_col() {
    let mut doc = Document::open_text(cv("f.txt"), &cv("ab"));
    assert_eq!(doc.insert_newline(1, 0), Err(DocumentError::RowOutOfBounds));
    assert_eq!(doc.insert_newline(0, 3), Err(DocumentError::ColOutOfBounds));
    assert!(!doc.dirty());
}

#[test]
fn insert_char_inserts_and_marks_dirty() {
    let mut doc = Document::open_text(cv("f.txt"), &cv("ac"));
    doc.insert_char(0, 1, 'b').unwrap();
    assert_eq!(doc_lines(&doc), vec![cv("abc")]);
    assert!(doc.dirty());
}

#[test]
fn insert_char_rejects_bad_row_and_col() {
    let mut doc = Document::open_text(cv("f.txt"), &cv("ab"));
    assert_eq!(doc.insert_char(2, 0, 'x'), Err(DocumentError::RowOutOfBounds));
    assert_eq!(doc.insert_char(0, 5, 'x'), Err(DocumentError::ColOutOfBounds));
}

#[test]
fn delete_at_document_origin_is_noop() {
    let mut doc = Document::open_text(cv("f.txt"), &cv("ab"));
    doc.delete(0, 0).unwrap();
    assert_eq!(doc_lines(&doc), vec![cv("ab")]);
    assert!(!doc.dirty());
}

#[test]
fn delete_removes_in_line_character() {
    let mut doc = Document::open_text(cv("f.txt"), &cv("abc"));
    doc.delete(0, 2).unwrap();
    assert_eq!(doc_lines(&doc), vec![cv("ac")]);
}

#[test]
fn delete_at_column_zero_joins_lines() {
    let mut doc = Document::open_text(cv("f.txt"), &cv("ab\ncd\nef"));
    let before = doc.lines().len();
    doc.delete(1, 0).unwrap();
    assert_eq!(doc.lines().len(), before - 1);
    assert_eq!(doc_lines(&doc), vec![cv("abcd"), cv("ef")]);
    assert!(doc.dirty());
}

#[test]
fn delete_rejects_bad_row_and_col() {
    let mut doc = Document::open_text(cv("f.txt"), &cv("ab"));
    assert_eq!(doc.delete(1, 1), Err(DocumentError::RowOutOfBounds));
    assert_eq!(doc.delete(5, 0), Err(DocumentError::RowOutOfBounds));
    assert_eq!(doc.delete(0, 3), Err(DocumentError::ColOutOfBounds));
}

#[test]
fn save_without_target_path_fails() {
    let mut doc = Document::new();
    assert!(matches!(doc.save(None), Err(SaveError::NoTargetPath)));
}

#[test]
fn save_lays_out_shadow_and_target() {
    let mut doc = Document::open_text(cv("f.txt"), &cv("ab\ncd"));
    let job = doc.save(None).unwrap();
    assert_eq!(job.target_path, cv("f.txt"));
    assert_eq!(job.shadow_path, cv("f.txt.tmp"));
    assert_eq!(job.content, cv("ab\ncd"));
}

#[test]
fn save_under_new_name_retargets_identity() {
    let mut doc = Document::new();
    let job = doc.save(Some(cv("new.txt"))).unwrap();
    assert_eq!(job.target_path, cv("new.txt"));
    assert_eq!(job.shadow_path, cv("new.txt.tmp"));
    assert_eq!(doc.full_path().unwrap(), &cv("new.txt"));
}

#[test]
fn finish_save_clears_dirty() {
    let mut doc = Document::open_text(cv("f.txt"), &cv("ab"));
    doc.insert_char(0, 0, 'x').unwrap();
    assert!(doc.dirty());
    let _job = doc.save(None).unwrap();
    assert!(doc.dirty());
    doc.finish_save();
    assert!(!doc.dirty());
}

#[test]
fn persistence_round_trip_reproduces_lines() {
    let mut doc = Document::open_text(cv("f.txt"), &cv("hello"));
    doc.insert_newline(0, 2).unwrap();
    doc.insert_char(1, 0, 'x').unwrap();
    doc.insert_newline(1, 4).unwrap();
    let before = doc_lines(&doc);
    let job = doc.save(None).unwrap();
    let reopened = Document::open_text(cv("f.txt"), &job.content);
    assert_eq!(doc_lines(&reopened), before);
}

#[test]
fn persistence_round_trip_with_trailing_empty_line() {
    let mut doc = Document::open_text(cv("f.txt"), &cv("ab"));
    doc.insert_newline(0, 2).unwrap();
    assert_eq!(doc_lines(&doc), vec![cv("ab"), cv("")]);
    let job = doc.save(None).unwrap();
    let reopened = Document::open_text(cv("f.txt"), &job.content);
    assert_eq!(doc_lines(&reopened), vec![cv("ab"), cv("")]);
}

#[test]
fn file_name_is_base_name_or_placeholder() {
    let doc = Document::new();
    assert_eq!(doc.file_name(), cv("[No Name]"));
    let doc2 = Document::open_text(cv("dir/sub/f.txt"), &cv(""));
    assert_eq!(doc2.file_name(), cv("f.txt"));
    let doc3 = Document::open_text(cv("plain"), &cv(""));
    assert_eq!(doc3.file_name(), cv("plain"));
}

#[test]
fn swap_path_is_hidden_sibling() {
    assert_eq!(Document::swap_path_for(&cv("f.txt")), cv(".f.txt.swp"));
    assert_eq!(Document::swap_path_for(&cv("dir/f.txt")), cv("dir/.f.txt.swp"));
}

#[test]
fn temp_path_appends_suffix() {
    assert_eq!(Document::temp_path_for(&cv("dir/f.txt")), cv("dir/f.txt.tmp"));
}

#[test]
fn open_allowed_follows_policy() {
    assert!(open_allowed(OpenPolicy::AllowExistingSwap, true));
    assert!(open_allowed(OpenPolicy::AllowExistingSwap, false));
    assert!(!open_allowed(OpenPolicy::RefuseExistingSwap, true));
    assert!(open_allowed(OpenPolicy::RefuseExistingSwap, false));
}

#[test]
fn write_swap_skipped_when_clean() {
    let doc = Document::open_text(cv("f.txt"), &cv("ab"));
    assert!(doc.write_swap(0, 0).is_none());
}

#[test]
fn write_swap_skipped_without_artifact_path() {
    let mut doc = Document::new();
    doc.insert_char(0, 0, 'x').unwrap();
    assert!(doc.write_swap(0, 0).is_none());
}

#[test]
fn write_swap_renders_exact_artifact() {
    let mut doc = Document::open_text(cv("f.txt"), &cv("ab\ncd"));
    doc.insert_char(0, 2, 'x').unwrap();
    let (path, text) = doc.write_swap(1, 2).unwrap();
    assert_eq!(path, cv(".f.txt.swp"));
    assert_eq!(text, cv("# SWAP\n# path=f.txt\n# cursor=1,2\nabx\ncd\n"));
}

#[test]
fn recover_round_trip_from_written_swap() {
    let mut doc = Document::open_text(cv("dir/f.txt"), &cv("ab\ncd"));
    doc.insert_char(1, 2, 'z').unwrap();
    let (_path, text) = doc.write_swap(1, 3).unwrap();
    let rec = Document::recover_from_swap_text(&text).unwrap();
    assert_eq!(doc_lines(&rec.doc), vec![cv("ab"), cv("cdz")]);
    assert_eq!(rec.doc.full_path().unwrap(), &cv("dir/f.txt"));
    assert!(rec.doc.dirty());
    assert_eq!((rec.cursor_row, rec.cursor_col), (1, 3));
}

#[test]
fn recover_without_path_directive_fails() {
    let text = cv("# SWAP\n# cursor=0,0\nabc\n");
    assert!(matches!(
        Document::recover_from_swap_text(&text),
        Err(RecoverError::MissingPath)
    ));
}

#[test]
fn recover_skips_comments_and_keeps_content() {
    let text = cv("# SWAP\n# path=p.txt\n# something else\nline one\n# cursor=2,7\n\nline two\n");
    let rec = Document::recover_from_swap_text(&text).unwrap();
    assert_eq!(
        doc_lines(&rec.doc),
        vec![cv("line one"), cv(""), cv("line two")]
    );
    assert_eq!((rec.cursor_row, rec.cursor_col), (2, 7));
}

#[test]
fn recover_with_no_content_lines_gives_one_empty_line() {
    let text = cv("# SWAP\n# path=p.txt\n# cursor=0,0\n");
    let rec = Document::recover_from_swap_text(&text).unwrap();
    assert_eq!(doc_lines(&rec.doc), vec![Vec::<char>::new()]);
    assert!(rec.doc.dirty());
}

#[test]
fn recover_ignores_out_of_range_cursor() {
    let text = cv("# SWAP\n# path=p.txt\n# cursor=99999999999999999999999999,1\nabc\n");
    let rec = Document::recover_from_swap_text(&text).unwrap();
    assert_eq!((rec.cursor_row, rec.cursor_col), (0, 0));
}

#[test]
fn recover_last_path_directive_wins() {
    let text = cv("# SWAP\n# path=first.txt\n# path=second.txt\nabc\n");
    let rec = Document::recover_from_swap_text(&text).unwrap();
    assert_eq!(rec.doc.full_path().unwrap(), &cv("second.txt"));
}

#[test]
fn recover_ignores_malformed_cursor() {
    let text = cv("# SWAP\n# path=p.txt\n# cursor=12\nabc\n");
    let rec = Document::recover_from_swap_text(&text).unwrap();
    assert_eq!((rec.cursor_row, rec.cursor_col), (0, 0));
    assert_eq!(doc_lines(&rec.doc), vec![cv("abc")]);
}
