//! Line/column coordinates and ranges, and how a position shifts when an
//! edit inserts or deletes a range of text before or around it.
//!
//! A position is a pair of a line index and a byte offset into that line's
//! utf-8 text. Ranges are ordered pairs of positions with `from <= to` in
//! lexicographic order.

use vstd::prelude::*;

verus! {

/// A buffer coordinate: line index and byte column within that line.
#[derive(Debug, Clone, Copy, PartialEq, Eq, Structural)]
pub struct BufferPosition {
    pub line_index: u32,
    pub column_byte_index: u32,
}

/// `a` is before `b`, or equal to it, in lexicographic order.
pub open spec fn pos_le(a: BufferPosition, b: BufferPosition) -> bool {
    a.line_index < b.line_index || (a.line_index == b.line_index
        && a.column_byte_index <= b.column_byte_index)
}

/// `a` is strictly before `b` in lexicographic order.
pub open spec fn pos_lt(a: BufferPosition, b: BufferPosition) -> bool {
    a.line_index < b.line_index || (a.line_index == b.line_index
        && a.column_byte_index < b.column_byte_index)
}

/// Lexicographic order on positions is total; these two functions decide it.
pub proof fn lemma_pos_order_total(a: BufferPosition, b: BufferPosition)
    ensures
        pos_le(a, b) || pos_le(b, a),
        pos_le(a, b) && pos_le(b, a) ==> a == b,
        pos_lt(a, b) <==> (pos_le(a, b) && a != b),
{
}

impl BufferPosition {
    /// The origin: line 0, column 0.
    pub fn zero() -> (r: Self)
        ensures
            r.line_index == 0,
            r.column_byte_index == 0,
    {
        Self { line_index: 0, column_byte_index: 0 }
    }

    pub fn line_col(line_index: u32, column_byte_index: u32) -> (r: Self)
        ensures
            r.line_index == line_index,
            r.column_byte_index == column_byte_index,
    {
        Self { line_index, column_byte_index }
    }

    /// Executable form of `pos_le`.
    pub fn le(&self, other: &Self) -> (r: bool)
        ensures
            r == pos_le(*self, *other),
    {
        self.line_index < other.line_index || (self.line_index == other.line_index
            && self.column_byte_index <= other.column_byte_index)
    }

    /// Executable form of `pos_lt`.
    pub fn lt(&self, other: &Self) -> (r: bool)
        ensures
            r == pos_lt(*self, *other),
    {
        self.line_index < other.line_index || (self.line_index == other.line_index
            && self.column_byte_index < other.column_byte_index)
    }

    /// Where this position lands after text covering `range` is inserted:
    /// positions at or after `range.from` are shifted by the line delta, and
    /// a position on the first inserted line also by the column delta.
    pub open spec fn spec_insert(self, range: BufferRange) -> BufferPosition {
        if self.line_index < range.from.line_index {
            self
        } else if self.line_index > range.from.line_index {
            BufferPosition {
                line_index: (self.line_index + range.to.line_index
                    - range.from.line_index) as u32,
                column_byte_index: self.column_byte_index,
            }
        } else if self.column_byte_index < range.from.column_byte_index {
            self
        } else {
            BufferPosition {
                line_index: (self.line_index + range.to.line_index
                    - range.from.line_index) as u32,
                column_byte_index: (self.column_byte_index + range.to.column_byte_index
                    - range.from.column_byte_index) as u32,
            }
        }
    }

    /// Where this position lands after the text covering `range` is deleted:
    /// a position inside the range collapses to `range.from`; positions after
    /// it shift backward by the line and column deltas.
    pub open spec fn spec_delete(self, range: BufferRange) -> BufferPosition {
        if pos_lt(self, range.from) {
            self
        } else if pos_le(self, range.to) {
            range.from
        } else if self.line_index == range.to.line_index {
            BufferPosition {
                line_index: range.from.line_index,
                column_byte_index: (range.from.column_byte_index + self.column_byte_index
                    - range.to.column_byte_index) as u32,
            }
        } else {
            BufferPosition {
                line_index: (self.line_index - range.to.line_index
                    + range.from.line_index) as u32,
                column_byte_index: self.column_byte_index,
            }
        }
    }

    /// Shift this position forward across an insertion covering `range`.
    pub fn insert(self, range: BufferRange) -> (r: Self)
        requires
            range.wf(),
            self.line_index + range.to.line_index - range.from.line_index <= u32::MAX,
            self.column_byte_index + range.to.column_byte_index <= u32::MAX,
        ensures
            r == self.spec_insert(range),
    {
        if self.line_index < range.from.line_index {
            self
        } else if self.line_index > range.from.line_index {
            Self {
                line_index: self.line_index + (range.to.line_index - range.from.line_index),
                column_byte_index: self.column_byte_index,
            }
        } else if self.column_byte_index < range.from.column_byte_index {
            self
        } else {
            Self {
                line_index: self.line_index + (range.to.line_index - range.from.line_index),
                column_byte_index: self.column_byte_index + range.to.column_byte_index
                    - range.from.column_byte_index,
            }
        }
    }

    /// Shift this position backward across a deletion covering `range`.
    pub fn delete(self, range: BufferRange) -> (r: Self)
        requires
            range.wf(),
            range.from.column_byte_index + self.column_byte_index <= u32::MAX,
        ensures
            r == self.spec_delete(range),
    {
        if self.lt(&range.from) {
            self
        } else if self.le(&range.to) {
            range.from
        } else if self.line_index == range.to.line_index {
            Self {
                line_index: range.from.line_index,
                column_byte_index: range.from.column_byte_index
                    + (self.column_byte_index - range.to.column_byte_index),
            }
        } else {
            Self {
                line_index: self.line_index - (range.to.line_index - range.from.line_index),
                column_byte_index: self.column_byte_index,
            }
        }
    }
}

/// A pair of positions with `from <= to`.
#[derive(Debug, Clone, Copy, PartialEq, Eq, Structural)]
pub struct BufferRange {
    pub from: BufferPosition,
    pub to: BufferPosition,
}

impl BufferRange {
    /// The range invariant: endpoints in order.
    pub open spec fn wf(self) -> bool {
        pos_le(self.from, self.to)
    }

    /// The range between two positions, in order: the earlier becomes `from`.
    pub fn between(from: BufferPosition, to: BufferPosition) -> (r: Self)
        ensures
            r.wf(),
            pos_le(from, to) ==> r.from == from && r.to == to,
            !pos_le(from, to) ==> r.from == to && r.to == from,
    {
        if from.le(&to) {
            Self { from, to }
        } else {
            Self { from: to, to: from }
        }
    }

    /// The empty range at the origin.
    pub fn zero() -> (r: Self)
        ensures
            r.wf(),
            r.from == (BufferPosition { line_index: 0, column_byte_index: 0 }),
            r.to == r.from,
    {
        Self {
            from: BufferPosition { line_index: 0, column_byte_index: 0 },
            to: BufferPosition { line_index: 0, column_byte_index: 0 },
        }
    }
}

/// Shifting a position forward through an insertion and then backward through
/// the matching deletion restores it, whenever the shifts do not overflow.
/// In particular this holds for every position not strictly inside the range,
/// since an insertion never maps a position strictly into its own range.
pub proof fn lemma_insert_then_delete(p: BufferPosition, range: BufferRange)
    requires
        range.wf(),
        p.line_index + range.to.line_index - range.from.line_index <= u32::MAX,
        p.column_byte_index + range.to.column_byte_index <= u32::MAX,
    ensures
        p.spec_insert(range).spec_delete(range) == p,
{
}

} // verus!
