//! A plain-value model of the two-phase save the shell performs: write the
//! full new content into the shadow file, force it to stable storage, then
//! rename the shadow over the target in one swap.  The model makes the
//! atomicity argument checkable: the target changes only at the rename,
//! and then to the complete new content — never to anything partial.

use vstd::prelude::*;

use crate::text::tail_from;

verus! {

/// The two files a save touches, by their contents.
pub struct FsState {
    pub target: Vec<char>,
    pub shadow: Vec<char>,
}

impl FsState {
    /// First phase: the shadow file takes the complete new content; the
    /// target file is untouched, whatever happens afterwards.
    pub fn write_shadow(&mut self, content: &Vec<char>)
        ensures
            final(self).shadow@ == content@,
            final(self).target@ == old(self).target@,
    {
        self.shadow = tail_from(content, 0);
        proof {
            assert(content@.skip(0) =~= content@);
        }
    }

    /// Second phase, the atomic rename: the target becomes exactly the
    /// shadow's content in one swap.
    pub fn commit(&mut self)
        ensures
            final(self).target@ == old(self).shadow@,
            final(self).shadow@ == old(self).shadow@,
    {
        self.target = tail_from(&self.shadow, 0);
        proof {
            assert(old(self).shadow@.skip(0) =~= old(self).shadow@);
        }
    }
}

/// Crash safety of the two-phase save: a failure after the shadow is
/// written but before the rename leaves the target exactly as it was,
/// never truncated or partially overwritten; completing the rename makes
/// it exactly the new content.
pub proof fn lemma_crash_safety(fs0: FsState, fs1: FsState, fs2: FsState, content: Seq<char>)
    requires
        fs1.target@ == fs0.target@,
        fs1.shadow@ == content,
        fs2.target@ == fs1.shadow@,
    ensures
        fs1.target@ == fs0.target@,
        fs2.target@ == content,
{
}

} // verus!
