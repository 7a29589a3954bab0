//! The modal editor: one document, a cursor with a remembered preferred
//! column, an input mode, and the soft-wrap navigation that keeps logical
//! positions and the screen grid in agreement.

use vstd::prelude::*;

use crate::document::{temp_name_spec, Document, SaveJob};
use crate::text::{join_lines, starts_with, trim_range, trimmed};

verus! {

/// Number of spaces a Tab inserts.
pub const TAB_WIDTH: usize = 4;

/// The editor's input mode.
#[derive(Clone, Copy, Debug, PartialEq, Eq, Structural)]
pub enum Mode {
    Normal,
    Insert,
    Command,
}

impl Mode {
    /// The mode's display name.
    pub fn as_str(&self) -> (r: &'static str)
        ensures
            *self is Normal ==> r@ == "NORMAL"@,
            *self is Insert ==> r@ == "INSERT"@,
            *self is Command ==> r@ == "COMMAND"@,
    {
        match self {
            Mode::Normal => "NORMAL",
            Mode::Insert => "INSERT",
            Mode::Command => "COMMAND",
        }
    }
}

/// A key event as the editor's logic reads it.  The shell translates
/// whatever its input backend delivers into one of these plain values;
/// everything it does not map is `Other`, which the editor ignores.
#[derive(Clone, Copy, Debug, PartialEq, Eq, Structural)]
pub enum Key {
    Char(char),
    Esc,
    Enter,
    Backspace,
    Tab,
    Other,
}

/// A save the shell must carry out on the editor's behalf: perform the
/// atomic save described by `job`, then report the outcome through
/// `save_completed`, passing `and_quit` back on success.
pub struct SaveRequest {
    pub job: SaveJob,
    pub and_quit: bool,
}

/// Number of visual rows a logical line of length `len` occupies at
/// viewport width `width`: the ceiling of `len / width`, and at least 1, so
/// an empty line still occupies one row.
pub open spec fn wraps_spec(len: int, width: int) -> int {
    if len == 0 {
        1
    } else {
        1 + (len - 1) / width
    }
}

/// The wrap count is exactly the ceiling of `len / width` whenever the
/// line is non-empty, in its more familiar form.
pub proof fn lemma_wraps_is_ceiling(len: int, width: int)
    requires
        width >= 1,
        len >= 1,
    ensures
        wraps_spec(len, width) == (len + width - 1) / width,
{
    let q = (len - 1) / width;
    let r = (len - 1) % width;
    vstd::arithmetic::div_mod::lemma_fundamental_div_mod(len - 1, width);
    vstd::arithmetic::div_mod::lemma_mod_bound(len - 1, width);
    assert(len + width - 1 == (q + 1) * width + r) by (nonlinear_arith)
        requires
            len - 1 == width * q + r,
    ;
    vstd::arithmetic::div_mod::lemma_fundamental_div_mod_converse(len + width - 1, width, q + 1, r);
}

/// One step left: within the line, else to the end of the previous line,
/// clamped at the document start.
pub open spec fn move_left_spec(lines: Seq<Seq<char>>, row: int, col: int) -> (int, int) {
    if col > 0 {
        (row, col - 1)
    } else if row > 0 {
        (row - 1, lines[row - 1].len() as int)
    } else {
        (row, col)
    }
}

/// One step right: within the line, else to column 0 of the next line,
/// clamped at the document end.
pub open spec fn move_right_spec(lines: Seq<Seq<char>>, row: int, col: int) -> (int, int) {
    if col < lines[row].len() {
        (row, col + 1)
    } else if row + 1 < lines.len() {
        (row + 1, 0)
    } else {
        (row, col)
    }
}

/// One step up: within the wrapped segments of the current line first; only
/// from the topmost segment does it cross to the bottom segment of the
/// previous line, re-targeting the preferred column clamped to that line.
pub open spec fn move_up_spec(
    lines: Seq<Seq<char>>,
    row: int,
    col: int,
    pref: int,
    width: int,
) -> (int, int) {
    if col >= width {
        (row, col - width)
    } else if row > 0 {
        let plen = lines[row - 1].len() as int;
        let last_wrap = wraps_spec(plen, width) - 1;
        (row - 1, vstd::math::min(last_wrap * width + vstd::math::min(pref, width - 1), plen))
    } else {
        (row, 0)
    }
}

/// One step down: within the wrapped segments of the current line first;
/// from the bottom segment it crosses to the next line at the preferred
/// column clamped to that line, or clamps to the end of the last line.
pub open spec fn move_down_spec(
    lines: Seq<Seq<char>>,
    row: int,
    col: int,
    pref: int,
    width: int,
) -> (int, int) {
    let len = lines[row].len() as int;
    if col + width < len {
        (row, col + width)
    } else if row + 1 < lines.len() {
        (row + 1, vstd::math::min(pref, lines[row + 1].len() as int))
    } else {
        (row, len)
    }
}

/// A full movement step: the horizontal component first (updating the
/// preferred column to wherever it lands), then the vertical component
/// against that preferred column.  Returns row, column and preferred column.
pub open spec fn move_spec(
    lines: Seq<Seq<char>>,
    row: int,
    col: int,
    pref: int,
    dx: int,
    dy: int,
    width: int,
) -> (int, int, int) {
    let h = if dx < 0 {
        move_left_spec(lines, row, col)
    } else if dx > 0 {
        move_right_spec(lines, row, col)
    } else {
        (row, col)
    };
    let p1 = if dx != 0 {
        h.1
    } else {
        pref
    };
    let v = if dy < 0 {
        move_up_spec(lines, h.0, h.1, p1, width)
    } else if dy > 0 {
        move_down_spec(lines, h.0, h.1, p1, width)
    } else {
        h
    };
    (v.0, v.1, p1)
}

/// Number of visual rows occupied by the lines above `row`, using the same
/// wrap-count formula as movement.
pub open spec fn screen_rows_above(lines: Seq<Seq<char>>, row: int, width: int) -> int
    decreases row,
{
    if row <= 0 {
        0
    } else {
        screen_rows_above(lines, row - 1, width) + wraps_spec(lines[row - 1].len() as int, width)
    }
}

proof fn lemma_screen_rows_above_nonneg(lines: Seq<Seq<char>>, row: int, width: int)
    requires
        width >= 1,
    ensures
        screen_rows_above(lines, row, width) >= 0,
    decreases row,
{
    if row > 0 {
        lemma_screen_rows_above_nonneg(lines, row - 1, width);
        let len = lines[row - 1].len() as int;
        if len > 0 {
            vstd::arithmetic::div_mod::lemma_div_pos_is_pos(len - 1, width);
        }
    }
}

/// What one atomic save lays out for the shell: the exact target, the
/// shadow file derived from it, and the newline-joined content.
pub open spec fn save_job_ok(job: SaveJob, target: Seq<char>, lines: Seq<Seq<char>>) -> bool {
    &&& job.target_path@ == target
    &&& job.shadow_path@ == temp_name_spec(target)
    &&& job.content@ == join_lines(lines)
}

/// The document after `save` laid out a job for `target`: same text and
/// dirty state, identity re-targeted, shadow path re-derived.
pub open spec fn doc_after_save(old_doc: Document, new_doc: Document, target: Seq<char>) -> bool {
    &&& new_doc.wf()
    &&& new_doc@ == old_doc@
    &&& new_doc.dirty_spec() == old_doc.dirty_spec()
    &&& new_doc.swap_spec() == old_doc.swap_spec()
    &&& new_doc.path_spec() == Some(target)
    &&& new_doc.temp_spec() == temp_name_spec(target)
}

/// The document changed to `new_lines` by an edit: dirty from here on,
/// identity and paths untouched.
pub open spec fn doc_edited(pre: Document, post: Document, new_lines: Seq<Seq<char>>) -> bool {
    &&& post.wf()
    &&& post@ == new_lines
    &&& post.dirty_spec()
    &&& post.path_spec() == pre.path_spec()
    &&& post.temp_spec() == pre.temp_spec()
    &&& post.swap_spec() == pre.swap_spec()
}

/// A pure cursor movement: the document and everything but cursor and
/// preferred column stay put.
pub open spec fn moved(pre: Editor, post: Editor, dx: int, dy: int, width: int) -> bool {
    let m = move_spec(
        pre.doc_view()@,
        pre.cursor_spec().0,
        pre.cursor_spec().1,
        pre.pref_spec(),
        dx,
        dy,
        width,
    );
    &&& post.cursor_spec() == (m.0, m.1)
    &&& post.pref_spec() == m.2
    &&& post.doc_view() == pre.doc_view()
    &&& post.mode_spec() == pre.mode_spec()
    &&& post.cmd_spec() == pre.cmd_spec()
    &&& post.quit_spec() == pre.quit_spec()
}

/// Everything but the input mode and the command buffer stays put.
pub open spec fn mode_switched(pre: Editor, post: Editor, m: Mode, cmd: Seq<char>) -> bool {
    &&& post.mode_spec() == m
    &&& post.cmd_spec() == cmd
    &&& post.doc_view() == pre.doc_view()
    &&& post.cursor_spec() == pre.cursor_spec()
    &&& post.pref_spec() == pre.pref_spec()
    &&& post.quit_spec() == pre.quit_spec()
}

/// An edit step that leaves mode, command buffer and termination alone.
pub open spec fn edit_step(
    pre: Editor,
    post: Editor,
    new_lines: Seq<Seq<char>>,
    row: int,
    col: int,
    pref: int,
) -> bool {
    &&& doc_edited(pre.doc_view(), post.doc_view(), new_lines)
    &&& post.cursor_spec() == (row, col)
    &&& post.pref_spec() == pref
    &&& post.mode_spec() == pre.mode_spec()
    &&& post.cmd_spec() == pre.cmd_spec()
    &&& post.quit_spec() == pre.quit_spec()
}

/// Normal mode: `i` and `:` switch modes, `w`/`a`/`s`/`d` move the cursor,
/// anything else is ignored.
pub open spec fn normal_step(pre: Editor, post: Editor, key: Key, width: int) -> bool {
    match key {
        Key::Char(c) => if c == 'i' {
            mode_switched(pre, post, Mode::Insert, pre.cmd_spec())
        } else if c == ':' {
            mode_switched(pre, post, Mode::Command, Seq::<char>::empty())
        } else if c == 'w' {
            moved(pre, post, 0, -1, width)
        } else if c == 'a' {
            moved(pre, post, -1, 0, width)
        } else if c == 's' {
            moved(pre, post, 0, 1, width)
        } else if c == 'd' {
            moved(pre, post, 1, 0, width)
        } else {
            post == pre
        },
        _ => post == pre,
    }
}

/// Insert mode: printable characters insert at the cursor, Backspace
/// deletes or joins, Enter splits the line, Tab inserts a run of spaces,
/// Escape returns to Normal mode.
pub open spec fn insert_step(pre: Editor, post: Editor, key: Key) -> bool {
    let lines = pre.doc_view()@;
    let row = pre.cursor_spec().0;
    let col = pre.cursor_spec().1;
    match key {
        Key::Esc => mode_switched(pre, post, Mode::Normal, pre.cmd_spec()),
        Key::Char(c) => edit_step(
            pre,
            post,
            lines.update(row, lines[row].insert(col, c)),
            row,
            col + 1,
            col + 1,
        ),
        Key::Backspace => if col > 0 {
            edit_step(pre, post, lines.update(row, lines[row].remove(col - 1)), row, col - 1, col - 1)
        } else if row > 0 {
            edit_step(
                pre,
                post,
                lines.update(row - 1, lines[row - 1] + lines[row]).remove(row),
                row - 1,
                lines[row - 1].len() as int,
                lines[row - 1].len() as int,
            )
        } else {
            post == pre
        },
        Key::Enter => edit_step(
            pre,
            post,
            lines.update(row, lines[row].take(col)).insert(row + 1, lines[row].skip(col)),
            row + 1,
            0,
            0,
        ),
        Key::Tab => edit_step(
            pre,
            post,
            lines.update(
                row,
                lines[row].take(col) + Seq::<char>::new(TAB_WIDTH as nat, (|i: int| ' '))
                    + lines[row].skip(col),
            ),
            row,
            col + TAB_WIDTH,
            col + TAB_WIDTH,
        ),
        Key::Other => post == pre,
    }
}

/// Executing the pending command text against the minimal grammar: `q`
/// quits only a clean document, `s` saves in place, `s <name>` saves under
/// the trimmed name, `sq` saves and asks to quit once the save succeeds.
/// Anything else is a no-op, not an error.
pub open spec fn command_executed(pre: Editor, post: Editor, r: Option<SaveRequest>) -> bool {
    let cmd = pre.cmd_spec();
    let doc = pre.doc_view();
    if cmd == seq!['q'] {
        &&& post.doc_view() == doc
        &&& post.quit_spec() == (pre.quit_spec() || !doc.dirty_spec())
        &&& r is None
    } else if cmd == seq!['s'] {
        if doc.path_spec() is Some {
            &&& doc_after_save(doc, post.doc_view(), doc.path_spec().unwrap())
            &&& post.quit_spec() == pre.quit_spec()
            &&& r is Some
            &&& save_job_ok(r.unwrap().job, doc.path_spec().unwrap(), doc@)
            &&& !r.unwrap().and_quit
        } else {
            &&& post.doc_view() == doc
            &&& post.quit_spec() == pre.quit_spec()
            &&& r is None
        }
    } else if starts_with(cmd, seq!['s', ' ']) {
        let name = trimmed(cmd.skip(2));
        &&& doc_after_save(doc, post.doc_view(), name)
        &&& post.quit_spec() == pre.quit_spec()
        &&& r is Some
        &&& save_job_ok(r.unwrap().job, name, doc@)
        &&& !r.unwrap().and_quit
    } else if cmd == seq!['s', 'q'] {
        if doc.path_spec() is Some {
            &&& doc_after_save(doc, post.doc_view(), doc.path_spec().unwrap())
            &&& post.quit_spec() == pre.quit_spec()
            &&& r is Some
            &&& save_job_ok(r.unwrap().job, doc.path_spec().unwrap(), doc@)
            &&& r.unwrap().and_quit
        } else {
            &&& post.doc_view() == doc
            &&& post.quit_spec() == pre.quit_spec()
            &&& r is None
        }
    } else {
        &&& post.doc_view() == doc
        &&& post.quit_spec() == pre.quit_spec()
        &&& r is None
    }
}

/// Command mode: printable characters grow the pending text, Backspace
/// shrinks it, Escape discards it, Enter executes it; all of these end in
/// the buffer the next keystroke sees.
pub open spec fn command_step(pre: Editor, post: Editor, key: Key, r: Option<SaveRequest>) -> bool {
    match key {
        Key::Esc => mode_switched(pre, post, Mode::Normal, Seq::<char>::empty()) && r is None,
        Key::Backspace => mode_switched(
            pre,
            post,
            Mode::Command,
            if pre.cmd_spec().len() > 0 {
                pre.cmd_spec().drop_last()
            } else {
                Seq::<char>::empty()
            },
        ) && r is None,
        Key::Char(c) => mode_switched(pre, post, Mode::Command, pre.cmd_spec().push(c))
            && r is None,
        Key::Enter => {
            &&& post.mode_spec() == Mode::Normal
            &&& post.cmd_spec() == Seq::<char>::empty()
            &&& post.cursor_spec() == pre.cursor_spec()
            &&& post.pref_spec() == pre.pref_spec()
            &&& command_executed(pre, post, r)
        },
        _ => post == pre && r is None,
    }
}

/// The whole modal state machine, one key at a time.
pub open spec fn handle_key_rel(
    pre: Editor,
    post: Editor,
    key: Key,
    width: int,
    r: Option<SaveRequest>,
) -> bool {
    match pre.mode_spec() {
        Mode::Normal => normal_step(pre, post, key, width) && r is None,
        Mode::Insert => insert_step(pre, post, key) && r is None,
        Mode::Command => command_step(pre, post, key, r),
    }
}

/// The modal editor bound to one document.
pub struct Editor {
    doc: Document,
    cursor_row: usize,
    cursor_col: usize,
    pref_col: usize,
    mode: Mode,
    cmd_buf: Vec<char>,
    should_quit: bool,
}

impl Editor {
    /// The owned document.
    pub closed spec fn doc_view(&self) -> Document {
        self.doc
    }

    /// The cursor as (row, column).
    pub closed spec fn cursor_spec(&self) -> (int, int) {
        (self.cursor_row as int, self.cursor_col as int)
    }

    /// The remembered preferred column for vertical movement.
    pub closed spec fn pref_spec(&self) -> int {
        self.pref_col as int
    }

    /// The input mode.
    pub closed spec fn mode_spec(&self) -> Mode {
        self.mode
    }

    /// The pending command-line text.
    pub closed spec fn cmd_spec(&self) -> Seq<char> {
        self.cmd_buf@
    }

    /// Whether the editor has decided to terminate.
    pub closed spec fn quit_spec(&self) -> bool {
        self.should_quit
    }

    /// The cursor always addresses a valid position of the document: its
    /// row exists and its column is at most the line length, the
    /// end-of-line position being valid.
    pub closed spec fn wf(&self) -> bool {
        &&& self.doc.wf()
        &&& self.cursor_row < self.doc@.len()
        &&& self.cursor_col <= self.doc@[self.cursor_row as int].len()
    }

    /// A fresh editor on `doc`: cursor at the origin, Normal mode, empty
    /// command buffer, not terminating.
    pub fn new(doc: Document) -> (r: Editor)
        requires
            doc.wf(),
        ensures
            r.wf(),
            r.doc_view() == doc,
            r.cursor_spec() == (0int, 0int),
            r.pref_spec() == 0,
            r.mode_spec() == Mode::Normal,
            r.cmd_spec() == Seq::<char>::empty(),
            !r.quit_spec(),
    {
        proof {
            doc.lemma_wf_not_empty();
        }
        Editor {
            doc,
            cursor_row: 0,
            cursor_col: 0,
            pref_col: 0,
            mode: Mode::Normal,
            cmd_buf: Vec::new(),
            should_quit: false,
        }
    }

    /// Whether the editor has decided to terminate.
    pub fn should_quit(&self) -> (r: bool)
        ensures
            r == self.quit_spec(),
    {
        self.should_quit
    }

    /// The owned document, read-only.
    pub fn doc(&self) -> (r: &Document)
        ensures
            *r == self.doc_view(),
    {
        &self.doc
    }

    /// The cursor as (row, column).
    pub fn cursor(&self) -> (r: (usize, usize))
        ensures
            (r.0 as int, r.1 as int) == self.cursor_spec(),
    {
        (self.cursor_row, self.cursor_col)
    }

    /// The input mode.
    pub fn mode(&self) -> (r: &Mode)
        ensures
            *r == self.mode_spec(),
    {
        &self.mode
    }

    /// The pending command-line text.
    pub fn command_buffer(&self) -> (r: &Vec<char>)
        ensures
            r@ == self.cmd_spec(),
    {
        &self.cmd_buf
    }

    /// Number of visual rows a line of length `len` occupies at viewport
    /// width `width`.
    pub fn wraps(len: usize, width: usize) -> (r: usize)
        requires
            width >= 1,
        ensures
            r == wraps_spec(len as int, width as int),
            r >= 1,
    {
        if len == 0 {
            1
        } else {
            proof {
                vstd::arithmetic::div_mod::lemma_div_pos_is_pos(len - 1, width as int);
                vstd::arithmetic::div_mod::lemma_div_is_ordered(
                    len - 1,
                    usize::MAX - 1,
                    width as int,
                );
                vstd::arithmetic::div_mod::lemma_div_is_ordered_by_denominator(
                    usize::MAX - 1,
                    1,
                    width as int,
                );
            }
            1 + (len - 1) / width
        }
    }

    /// Apply one movement step: `dx` and `dy` are normalized to unit steps
    /// by sign and applied as `move_spec` describes, against the given
    /// viewport width.  The document itself never changes.
    pub fn move_cursor(&mut self, dx: i32, dy: i32, width: usize)
        requires
            old(self).wf(),
            width >= 1,
        ensures
            final(self).wf(),
            final(self).doc_view() == old(self).doc_view(),
            final(self).mode_spec() == old(self).mode_spec(),
            final(self).cmd_spec() == old(self).cmd_spec(),
            final(self).quit_spec() == old(self).quit_spec(),
            ({
                let m = move_spec(
                    old(self).doc_view()@,
                    old(self).cursor_spec().0,
                    old(self).cursor_spec().1,
                    old(self).pref_spec(),
                    dx as int,
                    dy as int,
                    width as int,
                );
                final(self).cursor_spec() == (m.0, m.1) && final(self).pref_spec() == m.2
            }),
    {
        let n = self.doc.lines().len();
        let mut row = self.cursor_row;
        let mut col = self.cursor_col;
        if dx != 0 {
            if dx < 0 {
                if col > 0 {
                    col = col - 1;
                } else if row > 0 {
                    row = row - 1;
                    col = self.doc.lines()[row].len();
                }
            } else {
                let len = self.doc.lines()[row].len();
                if col < len {
                    col = col + 1;
                } else if row + 1 < n {
                    row = row + 1;
                    col = 0;
                }
            }
            self.pref_col = col;
        }
        if dy != 0 {
            if dy < 0 {
                if col >= width {
                    col = col - width;
                } else if row > 0 {
                    row = row - 1;
                    let plen = self.doc.lines()[row].len();
                    let line_wraps = Self::wraps(plen, width);
                    let last_wrap = line_wraps - 1;
                    proof {
                        if plen > 0 {
                            let w = width as int;
                            let q = (plen as int - 1) / w;
                            vstd::arithmetic::div_mod::lemma_fundamental_div_mod(
                                plen as int - 1,
                                w,
                            );
                            vstd::arithmetic::div_mod::lemma_mod_bound(plen as int - 1, w);
                            assert(w * q <= plen as int - 1);
                            assert(last_wrap as int == q);
                            assert(last_wrap * width == w * q) by (nonlinear_arith)
                                requires
                                    last_wrap as int == q,
                                    w == width as int,
                            ;
                        } else {
                            assert(last_wrap == 0);
                            assert(last_wrap * width == 0) by (nonlinear_arith)
                                requires
                                    last_wrap == 0usize,
                            ;
                        }
                        assert(last_wrap * width <= plen);
                    }
                    let base = last_wrap * width;
                    let m = if self.pref_col < width - 1 {
                        self.pref_col
                    } else {
                        width - 1
                    };
                    let cand = if m <= usize::MAX - base {
                        base + m
                    } else {
                        usize::MAX
                    };
                    col = if cand < plen {
                        cand
                    } else {
                        plen
                    };
                } else {
                    col = 0;
                }
            } else {
                let len = self.doc.lines()[row].len();
                if len > width && col < len - width {
                    col = col + width;
                } else if row + 1 < n {
                    row = row + 1;
                    let nlen = self.doc.lines()[row].len();
                    col = if self.pref_col < nlen {
                        self.pref_col
                    } else {
                        nlen
                    };
                } else {
                    col = len;
                }
            }
        }
        self.cursor_row = row;
        self.cursor_col = col;
    }

    /// The cursor's visual position at viewport width `width`: the visual
    /// rows of all lines above plus the wrapped segment the cursor sits in,
    /// and the column within that segment.  The row saturates at the
    /// machine limit on absurdly tall documents.
    pub fn doc_to_screen(&self, width: usize) -> (r: (usize, usize))
        requires
            self.wf(),
            width >= 1,
        ensures
            r.0 == vstd::math::min(
                screen_rows_above(self.doc_view()@, self.cursor_spec().0, width as int)
                    + self.cursor_spec().1 / (width as int),
                usize::MAX as int,
            ),
            r.1 == self.cursor_spec().1 % (width as int),
    {
        let lines = self.doc.lines();
        let mut screen_row: usize = 0;
        let mut i: usize = 0;
        while i < self.cursor_row
            invariant
                i <= self.cursor_row,
                self.wf(),
                width >= 1,
                lines@.len() == self.doc_view()@.len(),
                forall|k: int| 0 <= k < lines@.len() ==> (#[trigger] lines@[k]).wf(),
                forall|k: int| 0 <= k < lines@.len() ==> (#[trigger] lines@[k])@
                    == self.doc_view()@[k],
                screen_row == vstd::math::min(
                    screen_rows_above(self.doc_view()@, i as int, width as int),
                    usize::MAX as int,
                ),
            decreases self.cursor_row - i,
        {
            let len = lines[i].len();
            let w = Self::wraps(len, width);
            proof {
                lemma_screen_rows_above_nonneg(self.doc_view()@, i as int, width as int);
            }
            screen_row = if w <= usize::MAX - screen_row {
                screen_row + w
            } else {
                usize::MAX
            };
            i += 1;
        }
        let wrapped_row = self.cursor_col / width;
        let wrapped_col = self.cursor_col % width;
        proof {
            lemma_screen_rows_above_nonneg(self.doc_view()@, self.cursor_row as int, width as int);
            vstd::arithmetic::div_mod::lemma_div_pos_is_pos(self.cursor_col as int, width as int);
        }
        let screen_total = if wrapped_row <= usize::MAX - screen_row {
            screen_row + wrapped_row
        } else {
            usize::MAX
        };
        (screen_total, wrapped_col)
    }

    /// Consume one key event against the current mode, as `handle_key_rel`
    /// describes.  A returned request asks the shell to carry out one
    /// atomic save and report back through `save_completed`.
    pub fn handle_key(&mut self, key: Key, width: usize) -> (r: Option<SaveRequest>)
        requires
            old(self).wf(),
            width >= 1,
        ensures
            final(self).wf(),
            handle_key_rel(*old(self), *final(self), key, width as int, r),
    {
        match self.mode {
            Mode::Normal => {
                self.handle_normal_mode(key, width);
                None
            },
            Mode::Insert => {
                self.handle_insert_mode(key);
                None
            },
            Mode::Command => self.handle_command_mode(key),
        }
    }

    fn handle_normal_mode(&mut self, key: Key, width: usize)
        requires
            old(self).wf(),
            old(self).mode_spec() == Mode::Normal,
            width >= 1,
        ensures
            final(self).wf(),
            normal_step(*old(self), *final(self), key, width as int),
    {
        match key {
            Key::Char(c) => {
                if c == 'i' {
                    self.mode = Mode::Insert;
                } else if c == ':' {
                    self.mode = Mode::Command;
                    self.cmd_buf = Vec::new();
                } else if c == 'w' {
                    self.move_cursor(0, -1, width);
                } else if c == 'a' {
                    self.move_cursor(-1, 0, width);
                } else if c == 's' {
                    self.move_cursor(0, 1, width);
                } else if c == 'd' {
                    self.move_cursor(1, 0, width);
                }
            },
            _ => {},
        }
    }

    #[verifier::loop_isolation(false)]
    fn handle_insert_mode(&mut self, key: Key)
        requires
            old(self).wf(),
            old(self).mode_spec() == Mode::Insert,
        ensures
            final(self).wf(),
            insert_step(*old(self), *final(self), key),
    {
        match key {
            Key::Esc => {
                self.mode = Mode::Normal;
            },
            Key::Char(c) => {
                let row = self.cursor_row;
                let col = self.cursor_col;
                let _ = self.doc.insert_char(row, col, c);
                let llen = self.doc.lines()[row].len();
                proof {
                    assert(col < llen);
                }
                self.cursor_col = col + 1;
                self.pref_col = self.cursor_col;
            },
            Key::Backspace => {
                let row = self.cursor_row;
                let col = self.cursor_col;
                if col > 0 {
                    let _ = self.doc.delete(row, col);
                    self.cursor_col = col - 1;
                    self.pref_col = self.cursor_col;
                } else if row > 0 {
                    let prev_len = self.doc.lines()[row - 1].len();
                    let _ = self.doc.delete(row, 0);
                    self.cursor_row = row - 1;
                    self.cursor_col = prev_len;
                    self.pref_col = prev_len;
                }
            },
            Key::Enter => {
                let row = self.cursor_row;
                let col = self.cursor_col;
                let _ = self.doc.insert_newline(row, col);
                let n = self.doc.lines().len();
                proof {
                    assert(row + 1 < n);
                }
                self.cursor_row = row + 1;
                self.cursor_col = 0;
                self.pref_col = 0;
            },
            Key::Tab => {
                let row = self.cursor_row;
                let col = self.cursor_col;
                let ghost lines0 = self.doc@;
                let mut t: usize = 0;
                proof {
                    assert(lines0[row as int].take(col as int) + Seq::<char>::new(
                        0nat,
                        (|i: int| ' '),
                    ) + lines0[row as int].skip(col as int) =~= lines0[row as int]);
                    assert(self.doc@ =~= lines0.update(
                        row as int,
                        lines0[row as int].take(col as int) + Seq::<char>::new(0nat, (|i: int| ' '))
                            + lines0[row as int].skip(col as int),
                    ));
                }
                while t < TAB_WIDTH
                    invariant
                        t <= TAB_WIDTH,
                        col + t <= self.doc@[row as int].len(),
                        self.doc.wf(),
                        row < self.doc@.len(),
                        self.doc@ == lines0.update(
                            row as int,
                            lines0[row as int].take(col as int) + Seq::<char>::new(
                                t as nat,
                                (|i: int| ' '),
                            ) + lines0[row as int].skip(col as int),
                        ),
                        self.doc.path_spec() == old(self).doc_view().path_spec(),
                        self.doc.temp_spec() == old(self).doc_view().temp_spec(),
                        self.doc.swap_spec() == old(self).doc_view().swap_spec(),
                        t > 0 ==> self.doc.dirty_spec(),
                        t == 0 ==> self.doc.dirty_spec() == old(self).doc_view().dirty_spec(),
                        self.cursor_row == row,
                        self.cursor_col == col + t,
                        t > 0 ==> self.pref_col == col + t,
                        t == 0 ==> self.pref_col == old(self).pref_col,
                        self.mode == old(self).mode,
                        self.cmd_buf@ == old(self).cmd_buf@,
                        self.should_quit == old(self).should_quit,
                    decreases TAB_WIDTH - t,
                {
                    let ccol = self.cursor_col;
                    let ghost before = self.doc@;
                    let _ = self.doc.insert_char(row, ccol, ' ');
                    let llen = self.doc.lines()[row].len();
                    proof {
                        assert(ccol < llen);
                    }
                    self.cursor_col = ccol + 1;
                    self.pref_col = self.cursor_col;
                    t += 1;
                    proof {
                        assert(before[row as int].insert(ccol as int, ' ') =~= lines0[row as int]
                            .take(col as int) + Seq::<char>::new(t as nat, (|i: int| ' '))
                            + lines0[row as int].skip(col as int));
                        assert(self.doc@ =~= lines0.update(
                            row as int,
                            lines0[row as int].take(col as int) + Seq::<char>::new(
                                t as nat,
                                (|i: int| ' '),
                            ) + lines0[row as int].skip(col as int),
                        ));
                    }
                }
            },
            Key::Other => {},
        }
    }

    fn handle_command_mode(&mut self, key: Key) -> (r: Option<SaveRequest>)
        requires
            old(self).wf(),
            old(self).mode_spec() == Mode::Command,
        ensures
            final(self).wf(),
            command_step(*old(self), *final(self), key, r),
    {
        match key {
            Key::Esc => {
                self.mode = Mode::Normal;
                self.cmd_buf = Vec::new();
                None
            },
            Key::Enter => {
                let r = self.execute_command();
                self.mode = Mode::Normal;
                self.cmd_buf = Vec::new();
                r
            },
            Key::Backspace => {
                let ghost pre_cmd = self.cmd_buf@;
                let _ = self.cmd_buf.pop();
                proof {
                    if pre_cmd.len() > 0 {
                        assert(self.cmd_buf@ =~= pre_cmd.drop_last());
                    } else {
                        assert(self.cmd_buf@ =~= Seq::<char>::empty());
                    }
                }
                None
            },
            Key::Char(c) => {
                self.cmd_buf.push(c);
                None
            },
            _ => None,
        }
    }

    fn execute_command(&mut self) -> (r: Option<SaveRequest>)
        requires
            old(self).wf(),
        ensures
            final(self).wf(),
            command_executed(*old(self), *final(self), r),
            final(self).mode_spec() == old(self).mode_spec(),
            final(self).cmd_spec() == old(self).cmd_spec(),
            final(self).cursor_spec() == old(self).cursor_spec(),
            final(self).pref_spec() == old(self).pref_spec(),
    {
        let n = self.cmd_buf.len();
        if n == 1 && self.cmd_buf[0] == 'q' {
            proof {
                assert(self.cmd_buf@ =~= seq!['q']);
            }
            if !self.doc.dirty() {
                self.should_quit = true;
            }
            None
        } else if n == 1 && self.cmd_buf[0] == 's' {
            proof {
                assert(self.cmd_buf@ =~= seq!['s']);
                assert(!(self.cmd_buf@ == seq!['q']));
            }
            if self.doc.full_path().is_some() {
                let res = self.doc.save(None);
                match res {
                    Ok(job) => Some(SaveRequest { job, and_quit: false }),
                    Err(_) => {
                        proof {
                            assert(false);
                        }
                        None
                    },
                }
            } else {
                None
            }
        } else if n >= 2 && self.cmd_buf[0] == 's' && self.cmd_buf[1] == ' ' {
            proof {
                assert(self.cmd_buf@.take(2) =~= seq!['s', ' ']);
                assert(starts_with(self.cmd_buf@, seq!['s', ' ']));
                assert(!(self.cmd_buf@ == seq!['q']) && !(self.cmd_buf@ == seq!['s']));
            }
            let name = trim_range(&self.cmd_buf, 2);
            let res = self.doc.save(Some(name));
            match res {
                Ok(job) => Some(SaveRequest { job, and_quit: false }),
                Err(_) => {
                    proof {
                        assert(false);
                    }
                    None
                },
            }
        } else if n == 2 && self.cmd_buf[0] == 's' && self.cmd_buf[1] == 'q' {
            proof {
                assert(self.cmd_buf@ =~= seq!['s', 'q']);
                assert(!(self.cmd_buf@ == seq!['q']) && !(self.cmd_buf@ == seq!['s']));
                assert(!starts_with(self.cmd_buf@, seq!['s', ' '])) by {
                    if starts_with(self.cmd_buf@, seq!['s', ' ']) {
                        assert(self.cmd_buf@.take(2)[1] == ' ');
                    }
                }
            }
            if self.doc.full_path().is_some() {
                let res = self.doc.save(None);
                match res {
                    Ok(job) => Some(SaveRequest { job, and_quit: true }),
                    Err(_) => {
                        proof {
                            assert(false);
                        }
                        None
                    },
                }
            } else {
                None
            }
        } else {
            proof {
                if self.cmd_buf@ == seq!['q'] {
                    assert(self.cmd_buf@.len() == 1 && self.cmd_buf@[0] == 'q');
                }
                if self.cmd_buf@ == seq!['s'] {
                    assert(self.cmd_buf@.len() == 1 && self.cmd_buf@[0] == 's');
                }
                if starts_with(self.cmd_buf@, seq!['s', ' ']) {
                    assert(self.cmd_buf@.take(2)[0] == 's');
                    assert(self.cmd_buf@.take(2)[1] == ' ');
                }
                if self.cmd_buf@ == seq!['s', 'q'] {
                    assert(self.cmd_buf@.len() == 2 && self.cmd_buf@[0] == 's' && self.cmd_buf@[1]
                        == 'q');
                }
            }
            None
        }
    }

    /// Record the outcome of a save the shell carried out on a request: the
    /// document is clean, and the editor terminates if the request asked to
    /// quit after a successful save.
    pub fn save_completed(&mut self, and_quit: bool)
        requires
            old(self).wf(),
        ensures
            final(self).wf(),
            final(self).doc_view()@ == old(self).doc_view()@,
            final(self).doc_view().path_spec() == old(self).doc_view().path_spec(),
            final(self).doc_view().temp_spec() == old(self).doc_view().temp_spec(),
            final(self).doc_view().swap_spec() == old(self).doc_view().swap_spec(),
            !final(self).doc_view().dirty_spec(),
            final(self).cursor_spec() == old(self).cursor_spec(),
            final(self).pref_spec() == old(self).pref_spec(),
            final(self).mode_spec() == old(self).mode_spec(),
            final(self).cmd_spec() == old(self).cmd_spec(),
            final(self).quit_spec() == (old(self).quit_spec() || and_quit),
    {
        self.doc.finish_save();
        if and_quit {
            self.should_quit = true;
        }
    }
}

} // verus!
