//! A per-line character store with one contiguous empty region (the gap) at
//! the current edit position, so that runs of nearby edits are cheap.

use vstd::prelude::*;

verus! {

/// Initial backing capacity of a fresh buffer, and the smallest amount a
/// full buffer grows by.
pub const MIN_CAPACITY: usize = 10;

/// A gap buffer holding the characters of one text line.
///
/// The backing storage splits into three regions: the prefix
/// `data[0..gap_start]`, the gap `data[gap_start..gap_start + gap_size]`
/// (whose characters are meaningless filler), and the suffix
/// `data[gap_start + gap_size..]`.  The logical content is the prefix
/// followed by the suffix.
pub struct GapBuffer {
    data: Vec<char>,
    gap_start: usize,
    gap_size: usize,
}

/// One localized edit on a line: insert a character at a column, or remove
/// the character immediately before a column.
#[derive(Clone, Copy, Debug)]
pub enum EditOp {
    Insert(usize, char),
    Delete(usize),
}

/// The effect of one edit on the plain ordered-character model of a line.
/// An edit whose column lies outside the current content leaves the line
/// unchanged, as does removing before column 0.
pub open spec fn apply_edit(s: Seq<char>, op: EditOp) -> Seq<char> {
    match op {
        EditOp::Insert(col, c) => if col <= s.len() {
            s.insert(col as int, c)
        } else {
            s
        },
        EditOp::Delete(col) => if 0 < col <= s.len() {
            s.remove(col - 1)
        } else {
            s
        },
    }
}

/// The effect of a whole sequence of edits on the plain model, first to last.
pub open spec fn apply_edits(s: Seq<char>, ops: Seq<EditOp>) -> Seq<char>
    decreases ops.len(),
{
    if ops.len() == 0 {
        s
    } else {
        apply_edits(apply_edit(s, ops[0]), ops.skip(1))
    }
}

proof fn lemma_apply_edits_snoc(s: Seq<char>, ops: Seq<EditOp>, op: EditOp)
    ensures
        apply_edits(s, ops.push(op)) == apply_edit(apply_edits(s, ops), op),
    decreases ops.len(),
{
    if ops.len() == 0 {
        assert(ops.push(op)[0] == op);
        assert(ops.push(op).skip(1) =~= Seq::<EditOp>::empty());
        assert(apply_edits(apply_edit(s, op), Seq::<EditOp>::empty()) == apply_edit(s, op));
    } else {
        lemma_apply_edits_snoc(apply_edit(s, ops[0]), ops.skip(1), op);
        assert(ops.push(op)[0] == ops[0]);
        assert(ops.push(op).skip(1) =~= ops.skip(1).push(op));
    }
}

/// Round trip of `split` and `merge`: splitting a line at any valid column
/// and merging the returned suffix back reproduces the original content
/// exactly.  `split` leaves `s.subrange(0, col)` and returns
/// `s.subrange(col, s.len())`; `merge` concatenates them again.
pub proof fn lemma_split_merge_round_trip(s: Seq<char>, col: int)
    requires
        0 <= col <= s.len(),
    ensures
        s.subrange(0, col) + s.subrange(col, s.len() as int) == s,
{
    assert(s.subrange(0, col) + s.subrange(col, s.len() as int) =~= s);
}

impl GapBuffer {
    /// The logical content: everything before the gap followed by
    /// everything after it.
    pub closed spec fn view(&self) -> Seq<char> {
        self.data@.subrange(0, self.gap_start as int) + self.data@.subrange(
            self.gap_start + self.gap_size,
            self.data@.len() as int,
        )
    }

    /// The gap lies inside the backing storage.
    pub closed spec fn wf(&self) -> bool {
        self.gap_start + self.gap_size <= self.data@.len()
    }

    /// An empty buffer with a small initial capacity, all of it gap.
    #[verifier::loop_isolation(false)]
    pub fn new() -> (r: GapBuffer)
        ensures
            r.wf(),
            r@ == Seq::<char>::empty(),
    {
        let mut data: Vec<char> = Vec::new();
        let mut i: usize = 0;
        while i < MIN_CAPACITY
            invariant
                data@.len() == i,
                i <= MIN_CAPACITY,
            decreases MIN_CAPACITY - i,
        {
            data.push('\0');
            i += 1;
        }
        let r = GapBuffer { data, gap_start: 0, gap_size: MIN_CAPACITY };
        proof {
            assert(r@ =~= Seq::<char>::empty());
        }
        r
    }

    /// Number of logical characters stored.
    pub fn len(&self) -> (r: usize)
        requires
            self.wf(),
        ensures
            r == self@.len(),
    {
        self.data.len() - self.gap_size
    }

    /// Relocate the gap so that it starts at column `idx`, shifting the
    /// characters between the old and new gap position across the gap.
    /// The logical content is untouched.
    #[verifier::loop_isolation(false)]
    fn move_gap(&mut self, idx: usize)
        requires
            old(self).wf(),
            idx <= old(self)@.len(),
        ensures
            final(self).wf(),
            final(self)@ == old(self)@,
            final(self).gap_start == idx,
            final(self).gap_size == old(self).gap_size,
            final(self).data@.len() == old(self).data@.len(),
    {
        let gs = self.gap_start;
        let gz = self.gap_size;
        if idx < gs {
            // Shift the characters of [idx, gs) up to the far side of the gap,
            // topmost first.
            let distance = gs - idx;
            let mut i: usize = 0;
            while i < distance
                invariant
                    i <= distance,
                    distance == gs - idx,
                    idx < gs,
                    self.gap_start == gs,
                    self.gap_size == gz,
                    gs + gz <= self.data@.len(),
                    self.data@.len() == old(self).data@.len(),
                    forall|j: int| 0 <= j < gs + gz - i ==> self.data@[j] == old(self).data@[j],
                    forall|j: int|
                        gs + gz - i <= j < gs + gz ==> self.data@[j] == old(self).data@[j - gz],
                    forall|j: int|
                        gs + gz <= j < self.data@.len() ==> self.data@[j] == old(self).data@[j],
                decreases distance - i,
            {
                let cap = self.data.len();
                proof {
                    assert(gs + gz <= cap);
                }
                let c = self.data[gs - 1 - i];
                self.data.set(gs + gz - 1 - i, c);
                i += 1;
            }
            self.gap_start = idx;
            proof {
                assert(self@ =~= old(self)@) by {
                    assert forall|k: int| 0 <= k < self@.len() implies self@[k] == old(self)@[k]
                    by {
                        if idx <= k < gs {
                            assert(self@[k] == self.data@[k + gz]);
                            assert(self.data@[k + gz] == old(self).data@[k]);
                        }
                    }
                    assert(self@.len() == old(self)@.len());
                }
            }
        } else if idx > gs {
            // Shift the characters of [gs + gz, idx + gz) down to the near
            // side of the gap, bottommost first.
            let distance = idx - gs;
            proof {
                assert(old(self)@.len() == old(self).data@.len() - gz);
            }
            let mut i: usize = 0;
            while i < distance
                invariant
                    i <= distance,
                    distance == idx - gs,
                    gs < idx,
                    idx + gz <= self.data@.len(),
                    self.gap_start == gs,
                    self.gap_size == gz,
                    self.data@.len() == old(self).data@.len(),
                    forall|j: int| 0 <= j < gs ==> self.data@[j] == old(self).data@[j],
                    forall|j: int| gs <= j < gs + i ==> self.data@[j] == old(self).data@[j + gz],
                    forall|j: int|
                        gs + i <= j < self.data@.len() ==> self.data@[j] == old(self).data@[j],
                decreases distance - i,
            {
                let cap = self.data.len();
                proof {
                    assert(gs + gz + i < cap);
                }
                let c = self.data[gs + gz + i];
                self.data.set(gs + i, c);
                i += 1;
            }
            self.gap_start = idx;
            proof {
                assert(self@ =~= old(self)@) by {
                    assert forall|k: int| 0 <= k < self@.len() implies self@[k] == old(self)@[k]
                    by {
                        if gs <= k < idx {
                            assert(self@[k] == self.data@[k]);
                            assert(self.data@[k] == old(self).data@[k + gz]);
                        }
                    }
                    assert(self@.len() == old(self)@.len());
                }
            }
        }
    }

    /// Enlarge the backing storage, keeping the gap where it is and widening
    /// it by at least the old capacity (minimum a small constant), so that
    /// the prefix and suffix are preserved exactly.
    #[verifier::loop_isolation(false)]
    fn grow(&mut self)
        requires
            old(self).wf(),
        ensures
            final(self).wf(),
            final(self)@ == old(self)@,
            final(self).gap_start == old(self).gap_start,
            final(self).gap_size >= old(self).gap_size + 1,
    {
        let gs = self.gap_start;
        let gz = self.gap_size;
        let old_cap = self.data.len();
        let grow_by = if old_cap < MIN_CAPACITY {
            MIN_CAPACITY
        } else {
            old_cap
        };
        let mut new_data: Vec<char> = Vec::new();
        let mut i: usize = 0;
        while i < gs
            invariant
                i <= gs,
                new_data@ =~= self.data@.subrange(0, i as int),
            decreases gs - i,
        {
            let c = self.data[i];
            new_data.push(c);
            i += 1;
        }
        let mut k: usize = 0;
        while k < gz
            invariant
                k <= gz,
                new_data@.len() == gs + k,
                new_data@.subrange(0, gs as int) =~= self.data@.subrange(0, gs as int),
            decreases gz - k,
        {
            new_data.push('\0');
            k += 1;
        }
        let mut g: usize = 0;
        while g < grow_by
            invariant
                g <= grow_by,
                new_data@.len() == gs + gz + g,
                new_data@.subrange(0, gs as int) =~= self.data@.subrange(0, gs as int),
            decreases grow_by - g,
        {
            new_data.push('\0');
            g += 1;
        }
        let mut j: usize = gs + gz;
        while j < old_cap
            invariant
                gs + gz <= j <= old_cap,
                new_data@.len() == j + grow_by,
                new_data@.subrange(0, gs as int) =~= self.data@.subrange(0, gs as int),
                new_data@.subrange(gs + gz + grow_by, new_data@.len() as int) =~= self.data@
                    .subrange(gs + gz, j as int),
            decreases old_cap - j,
        {
            let c = self.data[j];
            new_data.push(c);
            proof {
                assert(new_data@.subrange(gs + gz + grow_by, new_data@.len() as int) =~= self.data@
                    .subrange(gs + gz, j + 1));
            }
            j += 1;
        }
        let content = old_cap - gz;
        let new_gap = new_data.len() - content;
        self.data = new_data;
        self.gap_size = new_gap;
        proof {
            assert(self@ =~= old(self)@);
        }
    }

    /// Insert character `c` so that it becomes the character at column
    /// `col`, growing the storage first if the gap is exhausted.
    pub fn insert_char(&mut self, col: usize, c: char)
        requires
            old(self).wf(),
            col <= old(self)@.len(),
        ensures
            final(self).wf(),
            final(self)@ == old(self)@.insert(col as int, c),
    {
        self.move_gap(col);
        if self.gap_size == 0 {
            self.grow();
        }
        let cap = self.data.len();
        proof {
            assert(self.gap_start + self.gap_size <= cap);
        }
        self.data.set(self.gap_start, c);
        self.gap_start = self.gap_start + 1;
        self.gap_size = self.gap_size - 1;
        proof {
            assert(self@ =~= old(self)@.insert(col as int, c));
        }
    }

    /// Remove the character immediately before column `col`; a no-op at
    /// column 0 (a line-join there is the document's decision, not ours).
    pub fn delete(&mut self, col: usize)
        requires
            old(self).wf(),
            col <= old(self)@.len(),
        ensures
            final(self).wf(),
            col == 0 ==> final(self)@ == old(self)@,
            col > 0 ==> final(self)@ == old(self)@.remove(col - 1),
    {
        self.move_gap(col);
        let cap = self.data.len();
        proof {
            assert(self.gap_start + self.gap_size <= cap);
        }
        if self.gap_start > 0 {
            self.gap_start = self.gap_start - 1;
            self.gap_size = self.gap_size + 1;
            proof {
                assert(self@ =~= old(self)@.remove(col - 1));
            }
        } else {
            proof {
                assert(self@ =~= old(self)@);
            }
        }
    }

    /// Truncate this buffer to `[0, col)` and hand back a new buffer owning
    /// `[col, length)`; concatenating the two halves reproduces the original
    /// content exactly.
    #[verifier::loop_isolation(false)]
    pub fn split(&mut self, col: usize) -> (r: GapBuffer)
        requires
            old(self).wf(),
            col <= old(self)@.len(),
        ensures
            final(self).wf(),
            r.wf(),
            final(self)@ == old(self)@.subrange(0, col as int),
            r@ == old(self)@.subrange(col as int, old(self)@.len() as int),
            final(self)@ + r@ == old(self)@,
    {
        self.move_gap(col);
        let cap = self.data.len();
        proof {
            assert(self.gap_start + self.gap_size <= cap);
        }
        let mut suffix: Vec<char> = Vec::new();
        let mut j: usize = self.gap_start + self.gap_size;
        while j < self.data.len()
            invariant
                self.gap_start + self.gap_size <= j <= self.data@.len(),
                suffix@ =~= self.data@.subrange(self.gap_start + self.gap_size, j as int),
            decreases self.data@.len() - j,
        {
            let c = self.data[j];
            suffix.push(c);
            j += 1;
        }
        let cut = self.gap_start + self.gap_size;
        self.data.truncate(cut);
        let slen = suffix.len();
        let r = GapBuffer { data: suffix, gap_start: slen, gap_size: 0 };
        proof {
            assert(self@ =~= old(self)@.subrange(0, col as int));
            assert(r@ =~= old(self)@.subrange(col as int, old(self)@.len() as int));
            assert(self@ + r@ =~= old(self)@);
        }
        r
    }

    /// Append `other`'s full content to the end of this buffer, consuming it.
    #[verifier::loop_isolation(false)]
    pub fn merge(&mut self, other: GapBuffer)
        requires
            old(self).wf(),
            other.wf(),
        ensures
            final(self).wf(),
            final(self)@ == old(self)@ + other@,
    {
        let occ = other.chars();
        let mut i: usize = 0;
        while i < occ.len()
            invariant
                i <= occ@.len(),
                self.wf(),
                self@ =~= old(self)@ + occ@.subrange(0, i as int),
            decreases occ@.len() - i,
        {
            let n = self.len();
            let c = occ[i];
            self.insert_char(n, c);
            i += 1;
            proof {
                assert(self@ =~= old(self)@ + occ@.subrange(0, i as int));
            }
        }
        proof {
            assert(occ@.subrange(0, occ@.len() as int) =~= occ@);
        }
    }

    /// Insert a run of characters starting at column `col`, in order.
    #[verifier::loop_isolation(false)]
    pub fn insert_str(&mut self, col: usize, s: &Vec<char>)
        requires
            old(self).wf(),
            col <= old(self)@.len(),
        ensures
            final(self).wf(),
            final(self)@ == old(self)@.subrange(0, col as int) + s@ + old(self)@.subrange(
                col as int,
                old(self)@.len() as int,
            ),
    {
        let mut i: usize = 0;
        while i < s.len()
            invariant
                i <= s@.len(),
                self.wf(),
                self@ =~= old(self)@.subrange(0, col as int) + s@.subrange(0, i as int) + old(
                    self,
                )@.subrange(col as int, old(self)@.len() as int),
            decreases s@.len() - i,
        {
            let c = s[i];
            let n = self.len();
            proof {
                assert(col + i <= n);
            }
            self.insert_char(col + i, c);
            i += 1;
            proof {
                assert(self@ =~= old(self)@.subrange(0, col as int) + s@.subrange(0, i as int)
                    + old(self)@.subrange(col as int, old(self)@.len() as int));
            }
        }
        proof {
            assert(s@.subrange(0, s@.len() as int) =~= s@);
        }
    }

    /// The characters of the buffer in order, as one plain vector.
    #[verifier::loop_isolation(false)]
    pub fn chars(&self) -> (r: Vec<char>)
        requires
            self.wf(),
        ensures
            r@ == self@,
    {
        let mut r: Vec<char> = Vec::new();
        let mut i: usize = 0;
        while i < self.gap_start
            invariant
                i <= self.gap_start,
                r@ =~= self.data@.subrange(0, i as int),
            decreases self.gap_start - i,
        {
            let c = self.data[i];
            r.push(c);
            i += 1;
        }
        let cap = self.data.len();
        proof {
            assert(self.gap_start + self.gap_size <= cap);
        }
        let mut j: usize = self.gap_start + self.gap_size;
        while j < self.data.len()
            invariant
                self.gap_start + self.gap_size <= j <= self.data@.len(),
                r@ =~= self.data@.subrange(0, self.gap_start as int) + self.data@.subrange(
                    self.gap_start + self.gap_size,
                    j as int,
                ),
            decreases self.data@.len() - j,
        {
            let c = self.data[j];
            r.push(c);
            j += 1;
        }
        proof {
            assert(r@ =~= self@);
        }
        r
    }

    /// Replay a whole sequence of edits against this buffer.  The resulting
    /// content equals the same edits applied to the plain ordered-character
    /// reference model of the original content — the differential law tying
    /// the gap representation to the sequence model.
    #[verifier::loop_isolation(false)]
    pub fn replay_edits(&mut self, ops: &Vec<EditOp>)
        requires
            old(self).wf(),
        ensures
            final(self).wf(),
            final(self)@ == apply_edits(old(self)@, ops@),
    {
        let mut i: usize = 0;
        while i < ops.len()
            invariant
                i <= ops@.len(),
                self.wf(),
                self@ == apply_edits(old(self)@, ops@.subrange(0, i as int)),
            decreases ops@.len() - i,
        {
            let op = ops[i];
            let n = self.len();
            match op {
                EditOp::Insert(col, c) => {
                    if col <= n {
                        self.insert_char(col, c);
                    }
                },
                EditOp::Delete(col) => {
                    if col <= n {
                        self.delete(col);
                    }
                },
            }
            proof {
                lemma_apply_edits_snoc(old(self)@, ops@.subrange(0, i as int), ops@[i as int]);
                assert(ops@.subrange(0, i + 1) =~= ops@.subrange(0, i as int).push(ops@[i as int]));
            }
            i += 1;
        }
        proof {
            assert(ops@.subrange(0, ops@.len() as int) =~= ops@);
        }
    }
}

} // verus!
