use text_editor::save_protocol::FsState;

fn cv(s: &str) -> Vec<char> {
    s.chars().collect()
}

#[test]
fn crash_after_shadow_write_leaves_target_untouched() {
    let mut fs = FsState {
        target: cv("old content, many lines"),
        shadow: cv(""),
    };
    fs.write_shadow(&cv("new"));
    // Simulated crash here: before the rename the target is exactly the
    // old content, never truncated or partially overwritten.
    assert_eq!(fs.target, cv("old content, many lines"));
    assert_eq!(fs.shadow, cv("new"));
}

#[test]
fn completed_swap_installs_full_new_content() {
    let mut fs = FsState {
        target: cv("old"),
        shadow: cv(""),
    };
    fs.write_shadow(&cv("brand new content"));
    fs.commit();
    assert_eq!(fs.target, cv("brand new content"));
}

#[test]
fn reader_sees_old_or_new_never_partial() {
    let old = cv("aaaa");
    let new = cv("bbbbbbbb");
    let mut fs = FsState {
        target: old.clone(),
        shadow: cv(""),
    };
    fs.write_shadow(&new);
    assert!(fs.target == old || fs.target == new);
    fs.commit();
    assert!(fs.target == old || fs.target == new);
    assert_eq!(fs.target, new);
}
