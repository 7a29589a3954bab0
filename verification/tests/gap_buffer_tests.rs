use text_editor::gap_buffer::{EditOp, GapBuffer};

fn cv(s: &str) -> Vec<char> {
    s.chars().collect()
}

fn buffer_of(s: &str) -> GapBuffer {
    let mut gb = GapBuffer::new();
    gb.insert_str(0, &cv(s));
    gb
}

#[test]
fn new_buffer_is_empty() {
    let gb = GapBuffer::new();
    assert_eq!(gb.len(), 0);
    assert_eq!(gb.chars(), Vec::<char>::new());
}

#[test]
fn insert_char_at_each_position() {
    let mut gb = GapBuffer::new();
    gb.insert_char(0, 'b');
    gb.insert_char(0, 'a');
    gb.insert_char(2, 'd');
    gb.insert_char(2, 'c');
    assert_eq!(gb.chars(), cv("abcd"));
    assert_eq!(gb.len(), 4);
}

#[test]
fn insert_str_in_middle() {
    let mut gb = buffer_of("ad");
    gb.insert_str(1, &cv("bc"));
    assert_eq!(gb.chars(), cv("abcd"));
}

#[test]
fn delete_removes_character_before_column() {
    let mut gb = buffer_of("abc");
    gb.delete(2);
    assert_eq!(gb.chars(), cv("ac"));
}

#[test]
fn delete_at_column_zero_is_noop() {
    let mut gb = buffer_of("abc");
    gb.delete(0);
    assert_eq!(gb.chars(), cv("abc"));
}

#[test]
fn growth_preserves_content() {
    let mut gb = GapBuffer::new();
    let text = "0123456789abcdefghijklmnopqrstuvwxyz";
    for (i, c) in text.chars().enumerate() {
        gb.insert_char(i, c);
    }
    assert_eq!(gb.chars(), cv(text));
    assert_eq!(gb.len(), 36);
}

#[test]
fn gap_relocation_both_directions() {
    let mut gb = buffer_of("hello world");
    // Edit near the front, then near the back, then the front again, so
    // the gap crosses the buffer in both directions.
    gb.delete(1);
    assert_eq!(gb.chars(), cv("ello world"));
    gb.insert_char(10, '!');
    assert_eq!(gb.chars(), cv("ello world!"));
    gb.insert_char(0, 'h');
    assert_eq!(gb.chars(), cv("hello world!"));
    gb.delete(12);
    assert_eq!(gb.chars(), cv("hello world"));
}

#[test]
fn split_returns_suffix() {
    let mut gb = buffer_of("abcde");
    let suffix = gb.split(2);
    assert_eq!(gb.chars(), cv("ab"));
    assert_eq!(suffix.chars(), cv("cde"));
}

#[test]
fn split_merge_round_trip_every_column() {
    let text = "abcde";
    for col in 0..=text.len() {
        let mut gb = buffer_of(text);
        let suffix = gb.split(col);
        gb.merge(suffix);
        assert_eq!(gb.chars(), cv(text), "column {}", col);
    }
}

#[test]
fn split_merge_round_trip_empty_line() {
    let mut gb = GapBuffer::new();
    let suffix = gb.split(0);
    gb.merge(suffix);
    assert_eq!(gb.chars(), Vec::<char>::new());
}

#[test]
fn merge_concatenates() {
    let mut left = buffer_of("ab");
    let right = buffer_of("cd");
    left.merge(right);
    assert_eq!(left.chars(), cv("abcd"));
}

fn ref_apply(model: &mut Vec<char>, op: EditOp) {
    match op {
        EditOp::Insert(col, c) => {
            if col <= model.len() {
                model.insert(col, c);
            }
        }
        EditOp::Delete(col) => {
            if col >= 1 && col <= model.len() {
                model.remove(col - 1);
            }
        }
    }
}

#[test]
fn differential_replay_matches_reference_model() {
    let ops = vec![
        EditOp::Insert(0, 'h'),
        EditOp::Insert(1, 'i'),
        EditOp::Insert(2, '!'),
        EditOp::Delete(3),
        EditOp::Insert(0, 'o'),
        EditOp::Insert(9, 'x'), // out of range: skipped on both sides
        EditOp::Delete(0),      // nothing precedes column 0: skipped
        EditOp::Insert(3, '?'),
        EditOp::Delete(2),
    ];
    let mut gb = GapBuffer::new();
    gb.replay_edits(&ops);
    let mut model: Vec<char> = Vec::new();
    for op in ops.iter() {
        ref_apply(&mut model, *op);
    }
    assert_eq!(gb.chars(), model);
}

#[test]
fn differential_long_typing_session() {
    let mut gb = GapBuffer::new();
    let mut model: Vec<char> = Vec::new();
    let mut ops: Vec<EditOp> = Vec::new();
    for (i, c) in "the quick brown fox".chars().enumerate() {
        ops.push(EditOp::Insert(i, c));
    }
    for _ in 0..5 {
        ops.push(EditOp::Delete(4));
    }
    for (i, c) in "slow ".chars().enumerate() {
        ops.push(EditOp::Insert(4 + i, c));
    }
    for op in ops.iter() {
        ref_apply(&mut model, *op);
    }
    gb.replay_edits(&ops);
    assert_eq!(gb.chars(), model);
}
