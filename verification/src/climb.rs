//! The walk up, and the small decisions of threads that share a tree.
use vstd::prelude::*;

verus! {

/// A walk up that raises the flags of a node's ancestors, father first. It
/// stops at the first one that was up already, so a burst of writes costs one
/// walk, not one per write.
#[derive(Clone, Copy, Debug)]
pub struct Climb {
    /// The place, among the ancestors, of the next flag to raise.
    pub next: usize,
    /// The place to stop at.
    pub end: usize,
}

impl Climb {
    /// The walk up after a write to a node with that many ancestors. A dirty bit
    /// that was up before means that no merge has folded the node since the write
    /// that raised it, and that write is the one that flags the ancestors: there
    /// is nothing left to raise.
    pub fn after_write(was_dirty: bool, ancestors: usize) -> (climb: Climb)
        ensures
            climb == (Climb {
                next: 0,
                end: if was_dirty {
                    0
                } else {
                    ancestors
                },
            }),
    {
        let end: usize = if was_dirty {
            0
        } else {
            ancestors
        };
        Climb { next: 0, end }
    }

    /// The place of the flag to raise next, if any is left.
    pub fn target(&self) -> (place: Option<usize>)
        ensures
            place == (if self.next < self.end {
                Some(self.next)
            } else {
                None
            }),
    {
        if self.next < self.end {
            Some(self.next)
        } else {
            None
        }
    }

    /// The walk after a flag was raised, given whether it was up before.
    pub fn resume(self, was_up: bool) -> (climb: Climb)
        requires
            self.next < self.end,
        ensures
            climb == (Climb {
                next: if was_up {
                    self.end
                } else {
                    (self.next + 1) as usize
                },
                end: self.end,
            }),
    {
        let next: usize = if was_up {
            self.end
        } else {
            self.next + 1
        };
        Climb { next, end: self.end }
    }
}

/// Whether a node that was just read owes its father what it took in from
/// below. The root owes nobody.
pub fn owes(changed: bool, ancestors: usize) -> (owed: bool)
    ensures
        owed == (changed && ancestors > 0),
{
    changed && ancestors > 0
}

/// Whether giving up a handle retires the node, given the number of handles
/// before.
pub fn retires(handles: usize) -> (retired: bool)
    ensures
        retired == (handles == 1),
{
    handles == 1
}

/// Whether a son stays in its father's list when the list is looked through.
pub fn stays(marked: bool, handles: usize, dirty: bool) -> (kept: bool)
    ensures
        kept == !(marked && handles == 0 && !dirty),
{
    !marked || handles != 0 || dirty
}

} // verus!
