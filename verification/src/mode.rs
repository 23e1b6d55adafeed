//! Editor modes: which kind of mode is active. The behaviour behind each
//! mode lives with the editor's command handling; here is the kind and its
//! switching.

use vstd::prelude::*;

verus! {

/// Which mode the editor is in.
#[derive(Debug, Clone, Copy, PartialEq, Eq, Structural)]
pub enum ModeKind {
    Normal,
    Insert,
    Command,
    ReadLine,
    Picker,
}

/// The editor's current mode.
pub struct Mode {
    kind: ModeKind,
}

impl Mode {
    pub closed spec fn kind_val(&self) -> ModeKind {
        self.kind
    }

    /// A fresh editor starts in normal mode.
    pub fn new() -> (r: Self)
        ensures
            r.kind_val() == ModeKind::Normal,
    {
        Self { kind: ModeKind::Normal }
    }

    pub fn kind(&self) -> (r: ModeKind)
        ensures
            r == self.kind_val(),
    {
        self.kind
    }

    /// Switch to `next`; switching to the current mode changes nothing.
    pub fn change_to(&mut self, next: ModeKind)
        ensures
            final(self).kind_val() == next,
    {
        if self.kind != next {
            self.kind = next;
        }
    }
}

} // verus!
