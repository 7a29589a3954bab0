//! The document layer: an ordered, never-empty sequence of line buffers,
//! the file identity they belong to, and the planning half of crash-safe
//! persistence.  All file reading and writing happens outside the library;
//! the document prepares exact byte-for-byte contents and paths for it.

use vstd::prelude::*;

use crate::gap_buffer::GapBuffer;
use crate::text::{
    all_digits, append_chars, dec_rep, dec_val, find_comma, first_comma, has_prefix, join_lines,
    join_text, lemma_split_join_round_trip, line_ok, parse_dec, push_dec, split_lines, split_text,
    starts_with, tail_from, views_of,
};

verus! {

/// A row or column addressing violation: mutators reject them, never clamp.
#[derive(Clone, Copy, Debug, PartialEq, Eq, Structural)]
pub enum DocumentError {
    RowOutOfBounds,
    ColOutOfBounds,
}

/// A policy failure when saving: the document has no target path yet.
#[derive(Clone, Copy, Debug, PartialEq, Eq, Structural)]
pub enum SaveError {
    NoTargetPath,
}

/// Index just past the last path separator: where the file's base name starts.
pub open spec fn base_start(p: Seq<char>) -> int
    decreases p.len(),
{
    if p.len() == 0 {
        0
    } else if p.last() == '/' {
        p.len() as int
    } else {
        base_start(p.drop_last())
    }
}

proof fn lemma_base_start_bounds(p: Seq<char>)
    ensures
        0 <= base_start(p) <= p.len(),
    decreases p.len(),
{
    if p.len() > 0 && p.last() != '/' {
        lemma_base_start_bounds(p.drop_last());
    }
}

/// The path of the recovery artifact for a file: a dot-prefixed sibling
/// with the `swp` suffix.
pub open spec fn swap_name_spec(p: Seq<char>) -> Seq<char> {
    p.take(base_start(p)) + seq!['.'] + p.skip(base_start(p)) + seq!['.', 's', 'w', 'p']
}

/// The path of the shadow file all saves write through.
pub open spec fn temp_name_spec(p: Seq<char>) -> Seq<char> {
    p + seq!['.', 't', 'm', 'p']
}

/// The base name of a path, or the placeholder shown for a nameless document.
pub open spec fn file_name_spec(path: Option<Seq<char>>) -> Seq<char> {
    match path {
        Some(p) => p.skip(base_start(p)),
        None => seq!['[', 'N', 'o', ' ', 'N', 'a', 'm', 'e', ']'],
    }
}

/// A text document: at least one line, an optional file identity, the paths
/// of its shadow file and recovery artifact, and a dirty flag that every
/// mutation sets and only a completed save clears.
pub struct Document {
    lines: Vec<GapBuffer>,
    original_path: Option<Vec<char>>,
    temp_path: Vec<char>,
    swap_path: Option<Vec<char>>,
    dirty: bool,
}

/// Everything the unverified shell needs to carry out one atomic save:
/// write `content` to `shadow_path`, force it to stable storage, then
/// rename the shadow over `target_path` in one swap.
pub struct SaveJob {
    pub shadow_path: Vec<char>,
    pub target_path: Vec<char>,
    pub content: Vec<char>,
}

impl Document {
    /// The ordered line contents.
    pub closed spec fn view(&self) -> Seq<Seq<char>> {
        self.lines@.map_values(|gb: GapBuffer| gb@)
    }

    /// The file identity, if any.
    pub closed spec fn path_spec(&self) -> Option<Seq<char>> {
        match self.original_path {
            Some(p) => Some(p@),
            None => None,
        }
    }

    /// The shadow file path saves write through.
    pub closed spec fn temp_spec(&self) -> Seq<char> {
        self.temp_path@
    }

    /// The recovery artifact path, if one is tracked.
    pub closed spec fn swap_spec(&self) -> Option<Seq<char>> {
        match self.swap_path {
            Some(p) => Some(p@),
            None => None,
        }
    }

    /// Whether unsaved mutations exist.
    pub closed spec fn dirty_spec(&self) -> bool {
        self.dirty
    }

    /// A document always holds at least one line, each a well-formed buffer.
    pub closed spec fn wf(&self) -> bool {
        self.lines@.len() >= 1 && forall|i: int|
            0 <= i < self.lines@.len() ==> (#[trigger] self.lines@[i]).wf()
    }

    /// A well-formed document is never empty: it holds at least one line.
    pub proof fn lemma_wf_not_empty(&self)
        requires
            self.wf(),
        ensures
            self@.len() >= 1,
    {
    }

    /// A brand-new document: a single empty line, no file identity, clean.
    pub fn new() -> (r: Document)
        ensures
            r.wf(),
            r@ == seq![Seq::<char>::empty()],
            r.path_spec() is None,
            r.swap_spec() is None,
            !r.dirty_spec(),
    {
        let mut lines: Vec<GapBuffer> = Vec::new();
        lines.push(GapBuffer::new());
        let r = Document {
            lines,
            original_path: None,
            temp_path: Vec::new(),
            swap_path: None,
            dirty: false,
        };
        proof {
            assert(r@ =~= seq![Seq::<char>::empty()]);
        }
        r
    }

    /// Number of lines.
    pub fn line_count(&self) -> (r: usize)
        requires
            self.wf(),
        ensures
            r == self@.len(),
    {
        self.lines.len()
    }

    /// Read-only view of the current lines, in order.
    pub fn lines(&self) -> (r: &Vec<GapBuffer>)
        requires
            self.wf(),
        ensures
            r@.len() == self@.len(),
            forall|i: int| 0 <= i < r@.len() ==> (#[trigger] r@[i])@ == self@[i],
            forall|i: int| 0 <= i < r@.len() ==> (#[trigger] r@[i]).wf(),
    {
        &self.lines
    }

    /// Whether unsaved mutations exist.
    pub fn dirty(&self) -> (r: bool)
        ensures
            r == self.dirty_spec(),
    {
        self.dirty
    }

    /// The full file identity, if one is known.
    pub fn full_path(&self) -> (r: Option<&Vec<char>>)
        ensures
            r is Some <==> self.path_spec() is Some,
            r is Some ==> r.unwrap()@ == self.path_spec().unwrap(),
    {
        match &self.original_path {
            Some(p) => Some(p),
            None => None,
        }
    }

    /// The base name of the file identity, or a placeholder without one.
    pub fn file_name(&self) -> (r: Vec<char>)
        ensures
            r@ == file_name_spec(self.path_spec()),
    {
        match &self.original_path {
            Some(p) => {
                let b = base_start_exec(p);
                tail_from(p, b)
            },
            None => {
                let r: Vec<char> = vec!['[', 'N', 'o', ' ', 'N', 'a', 'm', 'e', ']'];
                proof {
                    assert(r@ =~= seq!['[', 'N', 'o', ' ', 'N', 'a', 'm', 'e', ']']);
                }
                r
            },
        }
    }

    /// The recovery artifact path belonging to a file path.
    pub fn swap_path_for(path: &Vec<char>) -> (r: Vec<char>)
        ensures
            r@ == swap_name_spec(path@),
    {
        proof {
            lemma_base_start_bounds(path@);
        }
        let b = base_start_exec(path);
        let mut r: Vec<char> = Vec::new();
        let mut k: usize = 0;
        while k < b
            invariant
                k <= b <= path@.len(),
                r@ =~= path@.take(k as int),
            decreases b - k,
        {
            let c = path[k];
            r.push(c);
            proof {
                assert(path@.take(k + 1) =~= path@.take(k as int).push(path@[k as int]));
            }
            k += 1;
        }
        r.push('.');
        let mut j: usize = b;
        while j < path.len()
            invariant
                b <= j <= path@.len(),
                r@ =~= path@.take(b as int) + seq!['.'] + path@.subrange(b as int, j as int),
            decreases path@.len() - j,
        {
            let c = path[j];
            r.push(c);
            proof {
                assert(path@.subrange(b as int, j + 1) =~= path@.subrange(b as int, j as int).push(
                    path@[j as int],
                ));
            }
            j += 1;
        }
        r.push('.');
        r.push('s');
        r.push('w');
        r.push('p');
        proof {
            assert(path@.subrange(b as int, path@.len() as int) =~= path@.skip(b as int));
            assert(r@ =~= swap_name_spec(path@));
        }
        r
    }

    /// The shadow file path belonging to a file path.
    pub fn temp_path_for(path: &Vec<char>) -> (r: Vec<char>)
        ensures
            r@ == temp_name_spec(path@),
    {
        let mut r = tail_from(path, 0);
        r.push('.');
        r.push('t');
        r.push('m');
        r.push('p');
        proof {
            assert(path@.skip(0) =~= path@);
            assert(r@ =~= temp_name_spec(path@));
        }
        r
    }

    /// Split the line at `(row, col)`, the returned suffix becoming a new
    /// line immediately after; together the two halves hold exactly the
    /// characters of the original line.
    pub fn insert_newline(&mut self, row: usize, col: usize) -> (r: Result<(), DocumentError>)
        requires
            old(self).wf(),
        ensures
            final(self).wf(),
            final(self).path_spec() == old(self).path_spec(),
            final(self).swap_spec() == old(self).swap_spec(),
            final(self).temp_spec() == old(self).temp_spec(),
            ({
                let lines = old(self)@;
                if row < lines.len() && col <= lines[row as int].len() {
                    &&& r is Ok
                    &&& final(self)@ == lines.update(row as int, lines[row as int].take(col as int))
                        .insert(row + 1, lines[row as int].skip(col as int))
                    &&& final(self)@.len() == lines.len() + 1
                    &&& final(self)@[row as int] + final(self)@[row + 1] == lines[row as int]
                    &&& final(self).dirty_spec()
                } else {
                    &&& final(self)@ == lines
                    &&& final(self).dirty_spec() == old(self).dirty_spec()
                    &&& (if row >= lines.len() {
                        r == Result::<(), DocumentError>::Err(DocumentError::RowOutOfBounds)
                    } else {
                        r == Result::<(), DocumentError>::Err(DocumentError::ColOutOfBounds)
                    })
                }
            }),
    {
        if row >= self.lines.len() {
            return Err(DocumentError::RowOutOfBounds);
        }
        let llen = self.lines[row].len();
        if col > llen {
            return Err(DocumentError::ColOutOfBounds);
        }
        let line = &mut self.lines[row];
        let suffix = line.split(col);
        self.lines.insert(row + 1, suffix);
        self.dirty = true;
        proof {
            let lines = old(self)@;
            assert(final(self)@ =~= lines.update(row as int, lines[row as int].take(col as int))
                .insert(row + 1, lines[row as int].skip(col as int)));
            assert(final(self)@[row as int] + final(self)@[row + 1] =~= lines[row as int]);
        }
        Ok(())
    }

    /// Insert character `c` at `(row, col)`.
    pub fn insert_char(&mut self, row: usize, col: usize, c: char) -> (r: Result<
        (),
        DocumentError,
    >)
        requires
            old(self).wf(),
        ensures
            final(self).wf(),
            final(self).path_spec() == old(self).path_spec(),
            final(self).swap_spec() == old(self).swap_spec(),
            final(self).temp_spec() == old(self).temp_spec(),
            ({
                let lines = old(self)@;
                if row < lines.len() && col <= lines[row as int].len() {
                    &&& r is Ok
                    &&& final(self)@ == lines.update(
                        row as int,
                        lines[row as int].insert(col as int, c),
                    )
                    &&& final(self).dirty_spec()
                } else {
                    &&& final(self)@ == lines
                    &&& final(self).dirty_spec() == old(self).dirty_spec()
                    &&& (if row >= lines.len() {
                        r == Result::<(), DocumentError>::Err(DocumentError::RowOutOfBounds)
                    } else {
                        r == Result::<(), DocumentError>::Err(DocumentError::ColOutOfBounds)
                    })
                }
            }),
    {
        if row >= self.lines.len() {
            return Err(DocumentError::RowOutOfBounds);
        }
        let llen = self.lines[row].len();
        if col > llen {
            return Err(DocumentError::ColOutOfBounds);
        }
        let line = &mut self.lines[row];
        line.insert_char(col, c);
        self.dirty = true;
        proof {
            let lines = old(self)@;
            assert(final(self)@ =~= lines.update(
                row as int,
                lines[row as int].insert(col as int, c),
            ));
        }
        Ok(())
    }

    /// Remove the character before `(row, col)`.  At column 0 of row 0 this
    /// is a no-op; at column 0 of a later row it joins line `row` onto line
    /// `row - 1`; otherwise it removes one character within the line.
    pub fn delete(&mut self, row: usize, col: usize) -> (r: Result<(), DocumentError>)
        requires
            old(self).wf(),
        ensures
            final(self).wf(),
            final(self).path_spec() == old(self).path_spec(),
            final(self).swap_spec() == old(self).swap_spec(),
            final(self).temp_spec() == old(self).temp_spec(),
            ({
                let lines = old(self)@;
                if col == 0 && row == 0 {
                    &&& r is Ok
                    &&& final(self)@ == lines
                    &&& final(self).dirty_spec() == old(self).dirty_spec()
                } else if row >= lines.len() {
                    &&& r == Result::<(), DocumentError>::Err(DocumentError::RowOutOfBounds)
                    &&& final(self)@ == lines
                    &&& final(self).dirty_spec() == old(self).dirty_spec()
                } else if col == 0 {
                    &&& r is Ok
                    &&& final(self)@ == lines.update(
                        row - 1,
                        lines[row - 1] + lines[row as int],
                    ).remove(row as int)
                    &&& final(self)@.len() == lines.len() - 1
                    &&& final(self)@[row - 1] == lines[row - 1] + lines[row as int]
                    &&& final(self).dirty_spec()
                } else if col > lines[row as int].len() {
                    &&& r == Result::<(), DocumentError>::Err(DocumentError::ColOutOfBounds)
                    &&& final(self)@ == lines
                    &&& final(self).dirty_spec() == old(self).dirty_spec()
                } else {
                    &&& r is Ok
                    &&& final(self)@ == lines.update(
                        row as int,
                        lines[row as int].remove(col - 1),
                    )
                    &&& final(self).dirty_spec()
                }
            }),
    {
        if col == 0 {
            if row == 0 {
                return Ok(());
            }
            if row >= self.lines.len() {
                return Err(DocumentError::RowOutOfBounds);
            }
            let removed = self.lines.remove(row);
            let prev = &mut self.lines[row - 1];
            prev.merge(removed);
            self.dirty = true;
            proof {
                let lines = old(self)@;
                assert(final(self)@ =~= lines.update(row - 1, lines[row - 1] + lines[row as int])
                    .remove(row as int));
            }
            Ok(())
        } else {
            if row >= self.lines.len() {
                return Err(DocumentError::RowOutOfBounds);
            }
            let llen = self.lines[row].len();
            if col > llen {
                return Err(DocumentError::ColOutOfBounds);
            }
            let line = &mut self.lines[row];
            line.delete(col);
            self.dirty = true;
            proof {
                let lines = old(self)@;
                assert(final(self)@ =~= lines.update(row as int, lines[row as int].remove(col - 1)));
            }
            Ok(())
        }
    }
}

/// Failure reconstructing a document from a recovery artifact.
#[derive(Clone, Copy, Debug, PartialEq, Eq, Structural)]
pub enum RecoverError {
    MissingPath,
}

/// Whether an existing recovery artifact for a path blocks opening it: the
/// single-writer guard is a caller-chosen policy, not a fixed default.
#[derive(Clone, Copy, Debug, PartialEq, Eq, Structural)]
pub enum OpenPolicy {
    AllowExistingSwap,
    RefuseExistingSwap,
}

/// The single-writer guard: under the refusing policy, a pre-existing
/// recovery artifact for the path makes the open inadmissible.
pub fn open_allowed(policy: OpenPolicy, swap_exists: bool) -> (r: bool)
    ensures
        r == !(policy is RefuseExistingSwap && swap_exists),
{
    match policy {
        OpenPolicy::AllowExistingSwap => true,
        OpenPolicy::RefuseExistingSwap => !swap_exists,
    }
}

/// The marker comment that opens a recovery artifact.
pub open spec fn swap_marker() -> Seq<char> {
    seq!['#', ' ', 'S', 'W', 'A', 'P']
}

/// The comment prefix recording the original path in a recovery artifact.
pub open spec fn path_directive() -> Seq<char> {
    seq!['#', ' ', 'p', 'a', 't', 'h', '=']
}

/// The comment prefix recording the cursor in a recovery artifact.
pub open spec fn cursor_directive() -> Seq<char> {
    seq!['#', ' ', 'c', 'u', 'r', 's', 'o', 'r', '=']
}

/// Every line followed by a newline, in order.
pub open spec fn terminated_lines(lines: Seq<Seq<char>>) -> Seq<char>
    decreases lines.len(),
{
    if lines.len() == 0 {
        Seq::<char>::empty()
    } else {
        terminated_lines(lines.drop_last()) + lines.last() + seq!['\n']
    }
}

/// The full text of a recovery artifact: the marker comment, the original
/// path if known, the cursor position, then every content line.
pub open spec fn swap_text_spec(
    lines: Seq<Seq<char>>,
    path: Option<Seq<char>>,
    row: nat,
    col: nat,
) -> Seq<char> {
    swap_marker() + seq!['\n'] + (match path {
        Some(p) => path_directive() + p + seq!['\n'],
        None => Seq::<char>::empty(),
    }) + cursor_directive() + dec_rep(row) + seq![','] + dec_rep(col) + seq!['\n']
        + terminated_lines(lines)
}

/// The lines of an artifact file as a line-oriented reader sees them: split
/// at newlines, a final newline terminating the last line rather than
/// opening an empty one.
pub open spec fn file_lines(text: Seq<char>) -> Seq<Seq<char>> {
    let ls = split_lines(text);
    if text.len() > 0 && text.last() == '\n' {
        ls.drop_last()
    } else {
        ls
    }
}

/// A line that carries document content: one not opened by the comment marker.
pub open spec fn is_content_line(l: Seq<char>) -> bool {
    !(l.len() > 0 && l[0] == '#')
}

/// The original path recorded in an artifact: the last path directive wins.
pub open spec fn swap_path_of(ls: Seq<Seq<char>>) -> Option<Seq<char>>
    decreases ls.len(),
{
    if ls.len() == 0 {
        None
    } else if starts_with(ls.last(), path_directive()) {
        Some(ls.last().skip(path_directive().len() as int))
    } else {
        swap_path_of(ls.drop_last())
    }
}

/// The cursor a well-formed cursor directive line records, if its two
/// comma-separated decimal fields are present, digits only, and in range.
pub open spec fn cursor_of_line(rest: Seq<char>) -> Option<(int, int)> {
    let ci = first_comma(rest);
    if ci >= rest.len() {
        None
    } else {
        let rowd = rest.take(ci);
        let rest2 = rest.skip(ci + 1);
        let cold = rest2.take(first_comma(rest2));
        if rowd.len() > 0 && all_digits(rowd) && dec_val(rowd) <= usize::MAX && cold.len() > 0
            && all_digits(cold) && dec_val(cold) <= usize::MAX {
            Some((dec_val(rowd), dec_val(cold)))
        } else {
            None
        }
    }
}

/// The cursor recorded in an artifact: the last readable cursor directive
/// wins; without one the cursor is the document start.
pub open spec fn swap_cursor_of(ls: Seq<Seq<char>>) -> (int, int)
    decreases ls.len(),
{
    if ls.len() == 0 {
        (0, 0)
    } else if starts_with(ls.last(), cursor_directive()) && cursor_of_line(
        ls.last().skip(cursor_directive().len() as int),
    ) is Some {
        cursor_of_line(ls.last().skip(cursor_directive().len() as int)).unwrap()
    } else {
        swap_cursor_of(ls.drop_last())
    }
}

/// The content lines of an artifact, in order.
pub open spec fn swap_content_of(ls: Seq<Seq<char>>) -> Seq<Seq<char>>
    decreases ls.len(),
{
    if ls.len() == 0 {
        Seq::<Seq<char>>::empty()
    } else {
        swap_content_of(ls.drop_last()) + (if is_content_line(ls.last()) {
            seq![ls.last()]
        } else {
            Seq::<Seq<char>>::empty()
        })
    }
}

/// A document rebuilt from a recovery artifact, with the cursor position
/// the artifact recorded.
pub struct Recovered {
    pub doc: Document,
    pub cursor_row: usize,
    pub cursor_col: usize,
}

impl Document {
    /// Build a document from the text of the file at `path`: one line per
    /// newline-separated segment (an empty text is one empty line), the
    /// shadow and artifact paths derived from `path`, starting clean.
    #[verifier::loop_isolation(false)]
    pub fn open_text(path: Vec<char>, text: &Vec<char>) -> (r: Document)
        ensures
            r.wf(),
            r@ == split_lines(text@),
            r.path_spec() == Some(path@),
            r.temp_spec() == temp_name_spec(path@),
            r.swap_spec() == Some(swap_name_spec(path@)),
            !r.dirty_spec(),
    {
        let parts = split_text(text);
        let lines = bufs_of_parts(&parts);
        let temp = Document::temp_path_for(&path);
        let swap = Document::swap_path_for(&path);
        let r = Document {
            lines,
            original_path: Some(path),
            temp_path: temp,
            swap_path: Some(swap),
            dirty: false,
        };
        proof {
            assert(r@ =~= split_lines(text@));
        }
        r
    }

    /// Re-target the file identity if a new name is given, then lay out one
    /// atomic save: the exact newline-joined content, the shadow file to
    /// write it through, and the target to rename the shadow over.  The
    /// document stays dirty until `finish_save` records the completed swap.
    /// Fails only when no target path is known.
    pub fn save(&mut self, new_name: Option<Vec<char>>) -> (r: Result<SaveJob, SaveError>)
        requires
            old(self).wf(),
        ensures
            final(self).wf(),
            final(self)@ == old(self)@,
            final(self).dirty_spec() == old(self).dirty_spec(),
            final(self).swap_spec() == old(self).swap_spec(),
            final(self).path_spec() == (if new_name is Some {
                Some(new_name.unwrap()@)
            } else {
                old(self).path_spec()
            }),
            r is Ok <==> (new_name is Some || old(self).path_spec() is Some),
            ({
                match r {
                    Ok(job) => {
                        &&& Some(job.target_path@) == final(self).path_spec()
                        &&& job.shadow_path@ == temp_name_spec(job.target_path@)
                        &&& final(self).temp_spec() == job.shadow_path@
                        &&& job.content@ == join_lines(old(self)@)
                    },
                    Err(e) => {
                        &&& e == SaveError::NoTargetPath
                        &&& final(self).temp_spec() == old(self).temp_spec()
                    },
                }
            }),
    {
        if let Some(name) = new_name {
            self.original_path = Some(name);
        }
        let target = match &self.original_path {
            Some(p) => tail_from(p, 0),
            None => {
                return Err(SaveError::NoTargetPath);
            },
        };
        proof {
            assert(target@ =~= self.path_spec().unwrap());
        }
        let mut parts: Vec<Vec<char>> = Vec::new();
        let mut i: usize = 0;
        while i < self.lines.len()
            invariant
                i <= self.lines@.len(),
                old(self).wf(),
                self.lines == old(self).lines,
                parts@.len() == i,
                forall|k: int| 0 <= k < i ==> (#[trigger] parts@[k])@ == self@[k],
            decreases self.lines@.len() - i,
        {
            let cs = self.lines[i].chars();
            parts.push(cs);
            i += 1;
        }
        let content = join_text(&parts);
        proof {
            assert(views_of(parts@) =~= old(self)@);
        }
        let shadow = Document::temp_path_for(&target);
        self.temp_path = tail_from(&shadow, 0);
        proof {
            assert(shadow@.skip(0) =~= shadow@);
        }
        Ok(SaveJob { shadow_path: shadow, target_path: target, content })
    }

    /// Record that the shell completed the atomic rename: the document is
    /// clean from here on.
    pub fn finish_save(&mut self)
        requires
            old(self).wf(),
        ensures
            final(self).wf(),
            final(self)@ == old(self)@,
            final(self).path_spec() == old(self).path_spec(),
            final(self).temp_spec() == old(self).temp_spec(),
            final(self).swap_spec() == old(self).swap_spec(),
            !final(self).dirty_spec(),
    {
        self.dirty = false;
    }

    /// The recovery snapshot that is due, if any: `None` when the document
    /// is clean or tracks no artifact path, otherwise the artifact path and
    /// the full artifact text recording content, original path and cursor.
    #[verifier::loop_isolation(false)]
    pub fn write_swap(&self, cursor_row: usize, cursor_col: usize) -> (r: Option<
        (Vec<char>, Vec<char>),
    >)
        requires
            self.wf(),
        ensures
            r is Some <==> (self.dirty_spec() && self.swap_spec() is Some),
            r is Some ==> r.unwrap().0@ == self.swap_spec().unwrap(),
            r is Some ==> r.unwrap().1@ == swap_text_spec(
                self@,
                self.path_spec(),
                cursor_row as nat,
                cursor_col as nat,
            ),
    {
        if !self.dirty {
            return None;
        }
        let sp = match &self.swap_path {
            Some(p) => tail_from(p, 0),
            None => {
                return None;
            },
        };
        proof {
            assert(sp@ =~= self.swap_spec().unwrap());
        }
        let mut out: Vec<char> = Vec::new();
        let marker: Vec<char> = vec!['#', ' ', 'S', 'W', 'A', 'P', '\n'];
        append_chars(&mut out, &marker);
        if let Some(p) = &self.original_path {
            let directive: Vec<char> = vec!['#', ' ', 'p', 'a', 't', 'h', '='];
            append_chars(&mut out, &directive);
            append_chars(&mut out, p);
            out.push('\n');
        }
        let cdirective: Vec<char> = vec!['#', ' ', 'c', 'u', 'r', 's', 'o', 'r', '='];
        append_chars(&mut out, &cdirective);
        push_dec(&mut out, cursor_row);
        out.push(',');
        push_dec(&mut out, cursor_col);
        out.push('\n');
        let ghost header = swap_marker() + seq!['\n'] + (match self.path_spec() {
            Some(p) => path_directive() + p + seq!['\n'],
            None => Seq::<char>::empty(),
        }) + cursor_directive() + dec_rep(cursor_row as nat) + seq![','] + dec_rep(
            cursor_col as nat,
        ) + seq!['\n'];
        proof {
            assert(out@ =~= header);
        }
        let mut i: usize = 0;
        while i < self.lines.len()
            invariant
                i <= self.lines@.len(),
                out@ =~= header + terminated_lines(self@.take(i as int)),
            decreases self.lines@.len() - i,
        {
            let cs = self.lines[i].chars();
            append_chars(&mut out, &cs);
            out.push('\n');
            i += 1;
            proof {
                assert(self@.take(i as int).drop_last() =~= self@.take(i - 1));
                assert(self@.take(i as int).last() == self@[i - 1]);
                assert(out@ =~= header + terminated_lines(self@.take(i as int)));
            }
        }
        proof {
            assert(self@.take(self@.len() as int) =~= self@);
            assert(out@ =~= swap_text_spec(
                self@,
                self.path_spec(),
                cursor_row as nat,
                cursor_col as nat,
            ));
        }
        Some((sp, out))
    }

    /// Rebuild a document from the text of a recovery artifact.  Content is
    /// every non-comment line; the recorded original path is required, the
    /// recorded cursor optional; the result is dirty by construction, so
    /// only an explicit save makes the recovered file trustworthy again.
    pub fn recover_from_swap_text(text: &Vec<char>) -> (r: Result<Recovered, RecoverError>)
        ensures
            ({
                let ls = file_lines(text@);
                match r {
                    Ok(rec) => {
                        &&& swap_path_of(ls) is Some
                        &&& rec.doc.wf()
                        &&& rec.doc.path_spec() == swap_path_of(ls)
                        &&& rec.doc@ == (if swap_content_of(ls).len() == 0 {
                            seq![Seq::<char>::empty()]
                        } else {
                            swap_content_of(ls)
                        })
                        &&& rec.doc.dirty_spec()
                        &&& rec.doc.temp_spec() == temp_name_spec(swap_path_of(ls).unwrap())
                        &&& rec.doc.swap_spec() == Some(swap_name_spec(swap_path_of(ls).unwrap()))
                        &&& (rec.cursor_row as int, rec.cursor_col as int) == swap_cursor_of(ls)
                    },
                    Err(e) => {
                        &&& e == RecoverError::MissingPath
                        &&& swap_path_of(ls) is None
                    },
                }
            }),
    {
        let mut ls = split_text(text);
        if text.len() > 0 && text[text.len() - 1] == '\n' {
            let _ = ls.pop();
        }
        proof {
            assert(views_of(ls@) =~= file_lines(text@));
        }
        let ghost lsv = views_of(ls@);
        let mut path: Option<Vec<char>> = None;
        let mut row: usize = 0;
        let mut col: usize = 0;
        let mut bufs: Vec<GapBuffer> = Vec::new();
        let pdir: Vec<char> = vec!['#', ' ', 'p', 'a', 't', 'h', '='];
        let cdir: Vec<char> = vec!['#', ' ', 'c', 'u', 'r', 's', 'o', 'r', '='];
        proof {
            assert(pdir@ =~= path_directive());
            assert(cdir@ =~= cursor_directive());
        }
        let mut i: usize = 0;
        while i < ls.len()
            invariant
                i <= ls@.len(),
                lsv == views_of(ls@),
                pdir@ == path_directive(),
                cdir@ == cursor_directive(),
                (match path {
                    Some(p) => Some(p@),
                    None => None,
                }) == swap_path_of(lsv.take(i as int)),
                (row as int, col as int) == swap_cursor_of(lsv.take(i as int)),
                bufs@.map_values(|gb: GapBuffer| gb@) == swap_content_of(lsv.take(i as int)),
                forall|k: int| 0 <= k < bufs@.len() ==> (#[trigger] bufs@[k]).wf(),
            decreases ls@.len() - i,
        {
            let line = &ls[i];
            proof {
                assert(lsv.take(i + 1).drop_last() =~= lsv.take(i as int));
                assert(lsv.take(i + 1).last() == line@);
            }
            if has_prefix(line, &pdir) {
                let p = tail_from(line, pdir.len());
                path = Some(p);
            } else if has_prefix(line, &cdir) {
                let rest_start = cdir.len();
                let a = find_comma(line, rest_start);
                proof {
                    assert(line@.skip(rest_start as int).take(a - rest_start) =~= line@.subrange(
                        rest_start as int,
                        a as int,
                    ));
                }
                if a < line.len() {
                    let r1 = parse_dec(line, rest_start, a);
                    let b = find_comma(line, a + 1);
                    let r2 = parse_dec(line, a + 1, b);
                    proof {
                        let rest = line@.skip(rest_start as int);
                        let rest2 = rest.skip(first_comma(rest) + 1);
                        assert(rest2 =~= line@.skip(a + 1));
                        assert(rest2.take(first_comma(rest2)) =~= line@.subrange(a + 1, b as int));
                    }
                    match (r1, r2) {
                        (Some(rv), Some(cv)) => {
                            row = rv;
                            col = cv;
                        },
                        _ => {},
                    }
                }
            } else {
                let is_content = line.len() == 0 || line[0] != '#';
                if is_content {
                    let mut gb = GapBuffer::new();
                    gb.insert_str(0, line);
                    proof {
                        assert(gb@ =~= line@);
                    }
                    bufs.push(gb);
                    proof {
                        assert(bufs@.map_values(|g: GapBuffer| g@) =~= swap_content_of(
                            lsv.take(i + 1),
                        ));
                    }
                } else {
                    proof {
                        assert(!is_content_line(line@));
                        assert(!starts_with(line@, path_directive()));
                        assert(bufs@.map_values(|g: GapBuffer| g@) =~= swap_content_of(
                            lsv.take(i + 1),
                        ));
                    }
                }
            }
            i += 1;
            proof {
                assert((match path {
                    Some(p) => Some(p@),
                    None => None,
                }) == swap_path_of(lsv.take(i as int)));
                assert((row as int, col as int) == swap_cursor_of(lsv.take(i as int)));
                assert(bufs@.map_values(|gb: GapBuffer| gb@) == swap_content_of(lsv.take(i as int)));
            }
        }
        proof {
            assert(lsv.take(lsv.len() as int) =~= lsv);
        }
        let p = match path {
            Some(p) => p,
            None => {
                return Err(RecoverError::MissingPath);
            },
        };
        let mut lines = bufs;
        if lines.len() == 0 {
            lines.push(GapBuffer::new());
        }
        let temp = Document::temp_path_for(&p);
        let swap = Document::swap_path_for(&p);
        let doc = Document {
            lines,
            original_path: Some(p),
            temp_path: temp,
            swap_path: Some(swap),
            dirty: true,
        };
        proof {
            if swap_content_of(lsv).len() == 0 {
                assert(doc@ =~= seq![Seq::<char>::empty()]);
            } else {
                assert(doc@ =~= swap_content_of(lsv));
            }
        }
        Ok(Recovered { doc, cursor_row: row, cursor_col: col })
    }
}

/// Persistence round trip: the text `save` lays out for a document whose
/// lines hold no newline characters is read back by `open_text` as exactly
/// the same lines.  (A line containing a raw newline would be split at it
/// on the way back in, so such lines are excluded.)
pub proof fn lemma_save_open_round_trip(lines: Seq<Seq<char>>)
    requires
        lines.len() >= 1,
        forall|i: int| 0 <= i < lines.len() ==> #[trigger] line_ok(lines[i]),
    ensures
        split_lines(join_lines(lines)) == lines,
{
    lemma_split_join_round_trip(lines);
}

/// One gap buffer per text part, holding exactly its characters.
#[verifier::loop_isolation(false)]
fn bufs_of_parts(parts: &Vec<Vec<char>>) -> (r: Vec<GapBuffer>)
    ensures
        r@.len() == parts@.len(),
        forall|k: int| 0 <= k < r@.len() ==> (#[trigger] r@[k]).wf(),
        forall|k: int| 0 <= k < r@.len() ==> (#[trigger] r@[k])@ == parts@[k]@,
{
    let mut r: Vec<GapBuffer> = Vec::new();
    let mut i: usize = 0;
    while i < parts.len()
        invariant
            i <= parts@.len(),
            r@.len() == i,
            forall|k: int| 0 <= k < i ==> (#[trigger] r@[k]).wf(),
            forall|k: int| 0 <= k < i ==> (#[trigger] r@[k])@ == parts@[k]@,
        decreases parts@.len() - i,
    {
        let mut gb = GapBuffer::new();
        gb.insert_str(0, &parts[i]);
        proof {
            assert(gb@ =~= parts@[i as int]@);
        }
        r.push(gb);
        i += 1;
    }
    r
}

/// Index just past the last path separator of `p`.
fn base_start_exec(p: &Vec<char>) -> (b: usize)
    ensures
        b == base_start(p@),
        b <= p@.len(),
{
    let mut b: usize = 0;
    let mut k: usize = 0;
    while k < p.len()
        invariant
            k <= p@.len(),
            b <= k,
            b == base_start(p@.take(k as int)),
        decreases p@.len() - k,
    {
        let c = p[k];
        if c == '/' {
            b = k + 1;
        }
        k += 1;
        proof {
            assert(p@.take(k as int).drop_last() =~= p@.take(k - 1));
            assert(p@.take(k as int).last() == p@[k - 1]);
        }
    }
    proof {
        assert(p@.take(p@.len() as int) =~= p@);
    }
    b
}

} // verus!
